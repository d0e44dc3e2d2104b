//! The delta record: one classified difference at a single leaf path.
use crate::render::spec_render;
use crate::text::spec_dec_u64;
use crate::utils::{calculate_hash, fingerprint};
use crate::value::{JVal, Value};
use vstd::prelude::*;

verus! {

/// How a leaf differs between the two trees: present only in the target
/// (`Add`), present in both with different values (`Change`), or present
/// only in the source (`Delete`).
#[derive(Debug, PartialEq, Eq, Structural, Clone, Copy)]
pub enum Operation {
    Add,
    Change,
    Delete,
}

/// The name under which an operation enters the fingerprint.
pub open spec fn spec_op_label(op: Operation) -> Seq<char> {
    match op {
        Operation::Add => seq!['A', 'd', 'd'],
        Operation::Change => seq!['C', 'h', 'a', 'n', 'g', 'e'],
        Operation::Delete => seq!['D', 'e', 'l', 'e', 't', 'e'],
    }
}

/// The operation's name as a string slice.
pub fn operation_label(op: &Operation) -> (r: &'static str)
    ensures
        r@ == spec_op_label(*op),
{
    match op {
        Operation::Add => {
            let r = "Add";
            proof {
                reveal_strlit("Add");
                assert(r@ =~= spec_op_label(*op));
            }
            r
        },
        Operation::Change => {
            let r = "Change";
            proof {
                reveal_strlit("Change");
                assert(r@ =~= spec_op_label(*op));
            }
            r
        },
        Operation::Delete => {
            let r = "Delete";
            proof {
                reveal_strlit("Delete");
                assert(r@ =~= spec_op_label(*op));
            }
            r
        },
    }
}

/// One classified difference at a single leaf path.  For `Add` the old value
/// is null, for `Delete` the new value is null.  The hash is a decimal
/// fingerprint of `(operation, path, old value rendered, new value
/// rendered)`, computed once at construction.
#[derive(Debug, PartialEq)]
pub struct Delta {
    pub operation: Operation,
    pub path: String,
    pub old_value: Value,
    pub new_value: Value,
    pub hash: String,
}

/// Mathematical model of a delta: the four describing fields; the hash is
/// a function of these and is tracked by `delta_wf`.
#[verifier::ext_equal]
pub struct DeltaModel {
    pub op: Operation,
    pub path: Seq<char>,
    pub old: JVal,
    pub new: JVal,
}

/// The decimal fingerprint string owed for the given delta fields.
pub open spec fn spec_delta_hash(op: Operation, path: Seq<char>, old: JVal, new: JVal) -> Seq<
    char,
> {
    spec_dec_u64(fingerprint(spec_op_label(op), path, spec_render(old), spec_render(new)) as nat)
}

/// A well-formed delta carries exactly the fingerprint of its own fields.
pub open spec fn delta_wf(d: Delta) -> bool {
    d.hash@ == spec_delta_hash(d.operation, d.path@, d.old_value@, d.new_value@)
}

impl View for Delta {
    type V = DeltaModel;

    open spec fn view(&self) -> DeltaModel {
        DeltaModel { op: self.operation, path: self.path@, old: self.old_value@, new: self.new_value@ }
    }
}

impl Delta {
    /// Builds a delta and computes its fingerprint from the four fields.
    pub fn new(operation: Operation, path: String, old_value: Value, new_value: Value) -> (d:
        Delta)
        ensures
            d.operation == operation,
            d.path@ == path@,
            d.old_value@ == old_value@,
            d.new_value@ == new_value@,
            delta_wf(d),
    {
        let mut delta = Delta { operation, path, old_value, new_value, hash: String::new() };
        let code = calculate_hash(&delta);
        delta.hash = crate::text::u64_to_string(code);
        delta
    }
}

} // verus!
