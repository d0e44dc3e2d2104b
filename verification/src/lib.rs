//! A structural differ and patcher for JSON-like tree values.
//!
//! The differ walks two trees and emits one typed delta per differing leaf
//! path; the patcher replays such deltas onto a base tree, growing and
//! pruning containers as needed.  `Diff` at the crate root is the plain
//! surface (deltas without fingerprints, plus the list of classified
//! paths); `differ::Differ` carries a fingerprint on every delta.
#![allow(unused_imports)]
use crate::delta::DeltaModel;
use crate::differ::{diff_values, find_delta_from, lemma_find_delta_from, spec_diff};
use crate::text::str_eq;
use crate::value::{JVal, Value};
use vstd::prelude::*;

pub mod delta;
pub mod differ;
pub mod errors;
pub mod laws;
pub mod patcher;
pub mod render;
pub mod text;
pub mod utils;
pub mod value;

verus! {

/// How a leaf differs between the two trees.
#[derive(Debug, PartialEq, Eq, Structural, Clone, Copy)]
pub enum Operation {
    Add,
    Change,
    Delete,
}

/// The same classification in the fingerprinting differ's vocabulary.
pub open spec fn spec_op_model(op: Operation) -> crate::delta::Operation {
    match op {
        Operation::Add => crate::delta::Operation::Add,
        Operation::Change => crate::delta::Operation::Change,
        Operation::Delete => crate::delta::Operation::Delete,
    }
}

/// One classified difference at a single leaf path, without a fingerprint.
#[derive(Debug, PartialEq)]
pub struct Delta {
    pub operation: Operation,
    pub path: String,
    pub old_value: Value,
    pub new_value: Value,
}

impl View for Delta {
    type V = DeltaModel;

    open spec fn view(&self) -> DeltaModel {
        DeltaModel {
            op: spec_op_model(self.operation),
            path: self.path@,
            old: self.old_value@,
            new: self.new_value@,
        }
    }
}

/// Compares two trees and keeps the resulting deltas and the list of every
/// classified leaf path, in the order the walk first reached them.
#[derive(Debug, PartialEq)]
pub struct Diff {
    pub deltas: Vec<Delta>,
    pub paths: Vec<String>,
    pub left: Value,
    pub right: Value,
}

impl Default for Diff {
    /// A diff over two null trees, with nothing computed yet.
    fn default() -> (d: Diff)
        ensures
            d.left@ == JVal::Null,
            d.right@ == JVal::Null,
            d.deltas@.len() == 0,
            d.paths@.len() == 0,
    {
        Diff { deltas: Vec::new(), paths: Vec::new(), left: Value::Null, right: Value::Null }
    }
}

impl Diff {
    /// A diff over the two given trees, with nothing computed yet.
    pub fn new_from_json_values(a: Value, b: Value) -> (d: Diff)
        ensures
            d.left@ == a@,
            d.right@ == b@,
            d.deltas@.len() == 0,
            d.paths@.len() == 0,
    {
        Diff { left: a, right: b, deltas: Vec::new(), paths: Vec::new() }
    }

    /// Returns the deltas between the two values.
    pub fn get_deltas(&self) -> (r: &Vec<Delta>)
        ensures
            r@ == self.deltas@,
    {
        &self.deltas
    }

    /// Returns the first delta for the given path.
    pub fn get_delta_by_path(&self, path: &str) -> (r: Option<&Delta>)
        ensures
            ({
                let ds = self.deltas@.map_values(|d: Delta| d@);
                let pos = find_delta_from(ds, path@, 0);
                match r {
                    Some(d) => pos < ds.len() && d@ == ds[pos],
                    None => pos == ds.len(),
                }
            }),
    {
        proof {
            lemma_find_delta_from(self.deltas@.map_values(|d: Delta| d@), path@, 0);
        }
        let mut i: usize = 0;
        while i < self.deltas.len()
            invariant
                i <= self.deltas@.len(),
                forall|k: int| 0 <= k < i ==> #[trigger] self.deltas@[k]@.path != path@,
            decreases self.deltas@.len() - i,
        {
            if str_eq(self.deltas[i].path.as_str(), path) {
                proof {
                    let ds = self.deltas@.map_values(|d: Delta| d@);
                    crate::differ::lemma_find_delta_range(ds, path@, 0, i as int);
                }
                return Some(&self.deltas[i]);
            }
            i = i + 1;
        }
        proof {
            let ds = self.deltas@.map_values(|d: Delta| d@);
            crate::differ::lemma_find_delta_range(ds, path@, 0, ds.len() as int);
        }
        None
    }

    /// Returns every classified leaf path, in walk order.
    pub fn get_paths(&self) -> (r: &Vec<String>)
        ensures
            r@ == self.paths@,
    {
        &self.paths
    }

    /// True if some delta classifies the given path with the given
    /// operation.
    pub fn has_path_changed(&self, path: &str, operation: Operation) -> (r: bool)
        ensures
            r == exists|k: int|
                0 <= k < self.deltas@.len() && (#[trigger] self.deltas@[k])@.path == path@
                    && self.deltas@[k].operation == operation,
    {
        let mut i: usize = 0;
        while i < self.deltas.len()
            invariant
                i <= self.deltas@.len(),
                forall|k: int|
                    0 <= k < i ==> !((#[trigger] self.deltas@[k])@.path == path@
                        && self.deltas@[k].operation == operation),
            decreases self.deltas@.len() - i,
        {
            let d = &self.deltas[i];
            if str_eq(d.path.as_str(), path) && d.operation == operation {
                return true;
            }
            i = i + 1;
        }
        false
    }

    /// True if the two values differ anywhere.
    pub fn has_changes(&self) -> (r: bool)
        ensures
            r == (self.deltas@.len() > 0),
    {
        self.deltas.len() > 0
    }

    /// Computes the deltas and the classified paths between the two trees
    /// and keeps them.
    #[verifier::loop_isolation(false)]
    pub fn diff(&mut self)
        ensures
            final(self).left == old(self).left,
            final(self).right == old(self).right,
            final(self).deltas@.map_values(|d: Delta| d@) == spec_diff(
                old(self).left@,
                old(self).right@,
            ).deltas,
            final(self).paths@.map_values(|p: String| p@) == spec_diff(
                old(self).left@,
                old(self).right@,
            ).paths,
    {
        let (raw, paths) = diff_values(&self.left, &self.right);
        let mut out: Vec<Delta> = Vec::new();
        let mut i: usize = 0;
        while i < raw.len()
            invariant
                i <= raw@.len(),
                out@.len() == i as int,
                forall|k: int| 0 <= k < i ==> #[trigger] out@[k]@ == raw@[k]@,
            decreases raw@.len() - i,
        {
            let d = &raw[i];
            let operation = match &d.operation {
                crate::delta::Operation::Add => Operation::Add,
                crate::delta::Operation::Change => Operation::Change,
                crate::delta::Operation::Delete => Operation::Delete,
            };
            out.push(
                Delta {
                    operation,
                    path: crate::value::clone_string(&d.path),
                    old_value: d.old_value.deep_clone(),
                    new_value: d.new_value.deep_clone(),
                },
            );
            i = i + 1;
        }
        proof {
            assert(out@.map_values(|d: Delta| d@) =~= raw@.map_values(
                |d: crate::delta::Delta| d@,
            ));
        }
        self.deltas = out;
        self.paths = paths;
    }
}

} // verus!
