//! The change-list output shape: one object with `added`, `removed` and
//! `modified` arrays, each entry carrying the change's dot-notation path and
//! its value or values.

use vstd::prelude::*;
use crate::formatter::FormatError;
use crate::formatter::Formatter;
use crate::formatter::render::render_jv;
use crate::formatter::render::value_to_text;
use crate::formatter::util::sort_json_value;
use crate::formatter::util::sort_jv;
use crate::json_path::render_dot;
use crate::types::Change;
use crate::types::ChangeV;
use crate::types::Changes;
use crate::types::change_views;
use crate::value::JsonValue;
use crate::value::Jv;

verus! {

/// The JSON entry of one change in the change list.
pub open spec fn change_entry_jv(c: ChangeV) -> Jv {
    match c {
        ChangeV::Added { path, value } => Jv::Obj(
            seq![("path"@, Jv::Str(render_dot(path))), ("value"@, value)],
        ),
        ChangeV::Removed { path, value } => Jv::Obj(
            seq![("path"@, Jv::Str(render_dot(path))), ("value"@, value)],
        ),
        ChangeV::Modified { path, old_value, new_value } => Jv::Obj(
            seq![
                ("path"@, Jv::Str(render_dot(path))),
                ("oldValue"@, old_value),
                ("newValue"@, new_value),
            ],
        ),
    }
}

/// The entries of a list of changes, in order.
pub open spec fn change_entries(cs: Seq<ChangeV>) -> Seq<Jv> {
    Seq::new(cs.len(), |i: int| change_entry_jv(cs[i]))
}

/// The whole change-list document.
pub open spec fn changes_doc(added: Seq<ChangeV>, removed: Seq<ChangeV>, modified: Seq<
    ChangeV,
>) -> Jv {
    Jv::Obj(
        seq![
            ("added"@, Jv::Arr(change_entries(added))),
            ("removed"@, Jv::Arr(change_entries(removed))),
            ("modified"@, Jv::Arr(change_entries(modified))),
        ],
    )
}

/// Formatter for the change-list output shape.
pub struct ChangesFormatter {
    pub pretty: bool,
    pub sort: bool,
}

impl ChangesFormatter {
    /// A change-list formatter that pretty-prints, sorting keys on request.
    pub fn new(sort: bool) -> (r: Self)
        ensures
            r.pretty,
            r.sort == sort,
    {
        ChangesFormatter { pretty: true, sort }
    }

    /// A change-list formatter with the given pretty switch and no sorting.
    pub fn with_pretty(pretty: bool) -> (r: Self)
        ensures
            r.pretty == pretty,
            !r.sort,
    {
        ChangesFormatter { pretty, sort: false }
    }
}

/// Builds the JSON entry of one change.
pub fn change_entry(c: &Change) -> (r: JsonValue)
    ensures
        r@ == change_entry_jv(c@),
{
    match c {
        Change::Added { path, value } => {
            let mut members: Vec<(String, JsonValue)> = Vec::new();
            members.push(("path".to_owned(), JsonValue::Str(path.to_string())));
            members.push(("value".to_owned(), value.clone()));
            let ghost mv = members@;
            let r = JsonValue::Obj(members);
            proof {
                crate::value::lemma_pairs_of(mv);
                assert(crate::value::pairs_of(mv)[0] == (mv[0].0@, crate::value::jv_of(
                    mv[0].1,
                )));
                assert(crate::value::pairs_of(mv)[1] == (mv[1].0@, crate::value::jv_of(
                    mv[1].1,
                )));
                assert(crate::value::pairs_of(mv) =~= change_entry_jv(c@)->Obj_0);
            }
            r
        },
        Change::Removed { path, value } => {
            let mut members: Vec<(String, JsonValue)> = Vec::new();
            members.push(("path".to_owned(), JsonValue::Str(path.to_string())));
            members.push(("value".to_owned(), value.clone()));
            let ghost mv = members@;
            let r = JsonValue::Obj(members);
            proof {
                crate::value::lemma_pairs_of(mv);
                assert(crate::value::pairs_of(mv)[0] == (mv[0].0@, crate::value::jv_of(
                    mv[0].1,
                )));
                assert(crate::value::pairs_of(mv)[1] == (mv[1].0@, crate::value::jv_of(
                    mv[1].1,
                )));
                assert(crate::value::pairs_of(mv) =~= change_entry_jv(c@)->Obj_0);
            }
            r
        },
        Change::Modified { path, old_value, new_value } => {
            let mut members: Vec<(String, JsonValue)> = Vec::new();
            members.push(("path".to_owned(), JsonValue::Str(path.to_string())));
            members.push(("oldValue".to_owned(), old_value.clone()));
            members.push(("newValue".to_owned(), new_value.clone()));
            let ghost mv = members@;
            let r = JsonValue::Obj(members);
            proof {
                crate::value::lemma_pairs_of(mv);
                assert(crate::value::pairs_of(mv)[0] == (mv[0].0@, crate::value::jv_of(
                    mv[0].1,
                )));
                assert(crate::value::pairs_of(mv)[1] == (mv[1].0@, crate::value::jv_of(
                    mv[1].1,
                )));
                assert(crate::value::pairs_of(mv)[2] == (mv[2].0@, crate::value::jv_of(
                    mv[2].1,
                )));
                assert(crate::value::pairs_of(mv) =~= change_entry_jv(c@)->Obj_0);
            }
            r
        },
    }
}

/// Builds the array of entries for one change list.
pub fn change_entry_list(items: &Vec<Change>) -> (r: JsonValue)
    ensures
        r@ == Jv::Arr(change_entries(change_views(items@))),
{
    let mut out: Vec<JsonValue> = Vec::new();
    let n = items.len();
    let mut i: usize = 0;
    while i < n
        invariant
            i <= n,
            n == items@.len(),
            out@.len() == i,
            forall|k: int| 0 <= k < i ==> crate::value::jv_of(#[trigger] out@[k])
                == change_entry_jv(items@[k]@),
        decreases n - i,
    {
        let e = change_entry(&items[i]);
        out.push(e);
        i = i + 1;
    }
    let ghost ov = out@;
    let r = JsonValue::Arr(out);
    proof {
        crate::value::lemma_elems_of(ov);
        assert forall|k: int| 0 <= k < ov.len()
            implies #[trigger] crate::value::elems_of(ov)[k] == change_entries(
            change_views(items@),
        )[k] by {
            assert(crate::value::elems_of(ov)[k] == crate::value::jv_of(ov[k]));
            assert(change_views(items@)[k] == items@[k]@);
        }
        assert(crate::value::elems_of(ov) =~= change_entries(change_views(items@)));
    }
    r
}

/// Builds the whole change-list document for a change set.
pub fn build_changes_doc(changes: &Changes) -> (r: JsonValue)
    ensures
        r@ == changes_doc(
            change_views(changes.added@),
            change_views(changes.removed@),
            change_views(changes.modified@),
        ),
{
    let added = change_entry_list(&changes.added);
    let removed = change_entry_list(&changes.removed);
    let modified = change_entry_list(&changes.modified);
    let mut members: Vec<(String, JsonValue)> = Vec::new();
    members.push(("added".to_owned(), added));
    members.push(("removed".to_owned(), removed));
    members.push(("modified".to_owned(), modified));
    let ghost mv = members@;
    let r = JsonValue::Obj(members);
    proof {
        crate::value::lemma_pairs_of(mv);
        assert(crate::value::pairs_of(mv)[0] == (mv[0].0@, crate::value::jv_of(mv[0].1)));
        assert(crate::value::pairs_of(mv)[1] == (mv[1].0@, crate::value::jv_of(mv[1].1)));
        assert(crate::value::pairs_of(mv)[2] == (mv[2].0@, crate::value::jv_of(mv[2].1)));
        assert(crate::value::pairs_of(mv) =~= changes_doc(
            change_views(changes.added@),
            change_views(changes.removed@),
            change_views(changes.modified@),
        )->Obj_0);
    }
    r
}

impl Formatter for ChangesFormatter {
    /// Renders the change-list document; with the sort switch, keys are
    /// sorted recursively first.
    fn format(&self, changes: &Changes) -> (r: Result<String, FormatError>)
        ensures
            r matches Ok(s) && s@ == render_jv(
                if self.sort {
                    sort_jv(
                        changes_doc(
                            change_views(changes.added@),
                            change_views(changes.removed@),
                            change_views(changes.modified@),
                        ),
                    )
                } else {
                    changes_doc(
                        change_views(changes.added@),
                        change_views(changes.removed@),
                        change_views(changes.modified@),
                    )
                },
                self.pretty,
                Seq::<char>::empty(),
            ),
    {
        let doc = build_changes_doc(changes);
        if self.sort {
            let sorted = sort_json_value(&doc);
            Ok(value_to_text(&sorted, self.pretty))
        } else {
            Ok(value_to_text(&doc, self.pretty))
        }
    }
}

} // verus!
