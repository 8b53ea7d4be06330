//! Changes and change sets.
//!
//! A [`Change`] records one atomic difference between two documents at a
//! [`JsonPath`]; a [`Changes`] gathers them, partitioned into added, removed
//! and modified, together with the full "after" document that some output
//! shapes need.

use vstd::prelude::*;
use crate::json_path::JsonPath;
use crate::json_path::SegView;
use crate::value::JsonValue;
use crate::value::Jv;

verus! {

/// One atomic difference between two documents.
#[derive(Debug, PartialEq)]
pub enum Change {
    Added { path: JsonPath, value: JsonValue },
    Removed { path: JsonPath, value: JsonValue },
    Modified { path: JsonPath, old_value: JsonValue, new_value: JsonValue },
}

/// Specification-level change.
#[verifier::ext_equal]
pub enum ChangeV {
    Added { path: Seq<SegView>, value: Jv },
    Removed { path: Seq<SegView>, value: Jv },
    Modified { path: Seq<SegView>, old_value: Jv, new_value: Jv },
}

impl View for Change {
    type V = ChangeV;

    open spec fn view(&self) -> ChangeV {
        match self {
            Change::Added { path, value } => ChangeV::Added { path: path@, value: value@ },
            Change::Removed { path, value } => ChangeV::Removed {
                path: path@,
                value: value@,
            },
            Change::Modified { path, old_value, new_value } => ChangeV::Modified {
                path: path@,
                old_value: old_value@,
                new_value: new_value@,
            },
        }
    }
}

/// The path a change speaks of.
pub open spec fn cpath(c: ChangeV) -> Seq<SegView> {
    match c {
        ChangeV::Added { path, .. } => path,
        ChangeV::Removed { path, .. } => path,
        ChangeV::Modified { path, .. } => path,
    }
}

impl Clone for Change {
    /// A clone abstracts to the same change.
    fn clone(&self) -> (res: Self)
        ensures
            res@ == self@,
    {
        match self {
            Change::Added { path, value } => Change::Added {
                path: path.clone(),
                value: value.clone(),
            },
            Change::Removed { path, value } => Change::Removed {
                path: path.clone(),
                value: value.clone(),
            },
            Change::Modified { path, old_value, new_value } => Change::Modified {
                path: path.clone(),
                old_value: old_value.clone(),
                new_value: new_value.clone(),
            },
        }
    }
}

/// The abstraction of a vector of changes.
pub open spec fn change_views(s: Seq<Change>) -> Seq<ChangeV> {
    Seq::new(s.len(), |i: int| s[i]@)
}

/// The changes found by one comparison, partitioned by kind, with the full
/// "after" document when one is known.
#[derive(Debug)]
pub struct Changes {
    pub added: Vec<Change>,
    pub removed: Vec<Change>,
    pub modified: Vec<Change>,
    pub after: Option<JsonValue>,
}

impl Changes {
    /// An empty change set with no "after" document.
    pub fn new() -> (r: Self)
        ensures
            r.added@.len() == 0,
            r.removed@.len() == 0,
            r.modified@.len() == 0,
            r.after is None,
    {
        Changes { added: Vec::new(), removed: Vec::new(), modified: Vec::new(), after: None }
    }

    /// Files one change under its kind, keeping insertion order.
    pub fn push(&mut self, change: Change)
        ensures
            change@ is Added ==> final(self).added@ == old(self).added@.push(change)
                && final(self).removed@ == old(self).removed@
                && final(self).modified@ == old(self).modified@,
            change@ is Removed ==> final(self).removed@ == old(self).removed@.push(change)
                && final(self).added@ == old(self).added@
                && final(self).modified@ == old(self).modified@,
            change@ is Modified ==> final(self).modified@ == old(self).modified@.push(change)
                && final(self).added@ == old(self).added@
                && final(self).removed@ == old(self).removed@,
            final(self).after == old(self).after,
    {
        match change {
            Change::Added { .. } => self.added.push(change),
            Change::Removed { .. } => self.removed.push(change),
            Change::Modified { .. } => self.modified.push(change),
        }
    }

    /// Whether no change was recorded.
    pub fn is_empty(&self) -> (r: bool)
        ensures
            r == (self.added@.len() == 0 && self.removed@.len() == 0 && self.modified@.len()
                == 0),
    {
        self.added.len() == 0 && self.removed.len() == 0 && self.modified.len() == 0
    }
}

} // verus!
