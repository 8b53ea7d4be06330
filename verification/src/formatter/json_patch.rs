//! The RFC 6902 JSON Patch output shape: a flat array of operations, always
//! grouped add-then-remove-then-replace, with paths in JSON-Pointer form.
//! `remove` operations carry no value; `add` and `replace` carry the new
//! value.

use vstd::prelude::*;
use crate::formatter::FormatError;
use crate::formatter::Formatter;
use crate::formatter::render::render_jv;
use crate::formatter::render::value_to_text;
use crate::formatter::util::sort_json_value;
use crate::formatter::util::sort_jv;
use crate::json_path::JsonPath;
use crate::json_path::SegView;
use crate::json_path::parse_dot;
use crate::json_path::render_pointer;
use crate::types::Change;
use crate::types::ChangeV;
use crate::types::Changes;
use crate::types::change_views;
use crate::value::JsonValue;
use crate::value::Jv;

verus! {

/// The JSON object of one patch operation.
pub open spec fn patch_op_jv(c: ChangeV) -> Jv {
    match c {
        ChangeV::Added { path, value } => Jv::Obj(
            seq![
                ("op"@, Jv::Str("add"@)),
                ("path"@, Jv::Str(render_pointer(path))),
                ("value"@, value),
            ],
        ),
        ChangeV::Removed { path, .. } => Jv::Obj(
            seq![("op"@, Jv::Str("remove"@)), ("path"@, Jv::Str(render_pointer(path)))],
        ),
        ChangeV::Modified { path, new_value, .. } => Jv::Obj(
            seq![
                ("op"@, Jv::Str("replace"@)),
                ("path"@, Jv::Str(render_pointer(path))),
                ("value"@, new_value),
            ],
        ),
    }
}

/// The operations of a list of changes, in order.
pub open spec fn patch_ops(cs: Seq<ChangeV>) -> Seq<Jv> {
    Seq::new(cs.len(), |i: int| patch_op_jv(cs[i]))
}

/// The whole patch document: the added operations, then the removed, then
/// the modified — never interleaved.
pub open spec fn patch_doc(added: Seq<ChangeV>, removed: Seq<ChangeV>, modified: Seq<
    ChangeV,
>) -> Jv {
    Jv::Arr(patch_ops(added) + patch_ops(removed) + patch_ops(modified))
}

/// The position of a change's operation in the fixed add, remove, replace
/// order.
pub open spec fn op_rank(c: ChangeV) -> int {
    match c {
        ChangeV::Added { .. } => 0,
        ChangeV::Removed { .. } => 1,
        ChangeV::Modified { .. } => 2,
    }
}

/// Patch order: wherever the three input lists hold changes of their own
/// kind, the concatenated operation list never ranks a later operation
/// before an earlier one — adds come first, then removes, then replaces.
pub proof fn lemma_patch_order(added: Seq<ChangeV>, removed: Seq<ChangeV>, modified: Seq<
    ChangeV,
>)
    requires
        forall|i: int| 0 <= i < added.len() ==> (#[trigger] added[i]) is Added,
        forall|i: int| 0 <= i < removed.len() ==> (#[trigger] removed[i]) is Removed,
        forall|i: int| 0 <= i < modified.len() ==> (#[trigger] modified[i]) is Modified,
    ensures
        ({
            let cs = added + removed + modified;
            &&& patch_doc(added, removed, modified) == Jv::Arr(patch_ops(cs))
            &&& forall|i: int, j: int| 0 <= i <= j < cs.len() ==> op_rank(#[trigger] cs[i])
                <= op_rank(#[trigger] cs[j])
        }),
{
    let cs = added + removed + modified;
    assert forall|k: int| 0 <= k < cs.len() implies #[trigger] patch_ops(cs)[k] == (patch_ops(
        added,
    ) + patch_ops(removed) + patch_ops(modified))[k] by {
        if k < added.len() {
            assert(cs[k] == added[k]);
        } else if k < added.len() + removed.len() {
            assert(cs[k] == removed[k - added.len()]);
        } else {
            assert(cs[k] == modified[k - added.len() - removed.len()]);
        }
    }
    assert(patch_ops(cs) =~= patch_ops(added) + patch_ops(removed) + patch_ops(modified));
    assert forall|i: int, j: int| 0 <= i <= j < cs.len() implies op_rank(#[trigger] cs[i])
        <= op_rank(#[trigger] cs[j]) by {
        if i < added.len() {
            assert(cs[i] == added[i]);
        } else if i < added.len() + removed.len() {
            assert(cs[i] == removed[i - added.len()]);
        } else {
            assert(cs[i] == modified[i - added.len() - removed.len()]);
        }
        if j < added.len() {
            assert(cs[j] == added[j]);
        } else if j < added.len() + removed.len() {
            assert(cs[j] == removed[j - added.len()]);
        } else {
            assert(cs[j] == modified[j - added.len() - removed.len()]);
        }
    }
}

/// Formatter for the RFC 6902 JSON Patch output shape.
pub struct JsonPatchFormatter {
    pub pretty: bool,
    pub sort: bool,
}

impl JsonPatchFormatter {
    /// A patch formatter that pretty-prints, sorting keys on request.
    pub fn new(sort: bool) -> (r: Self)
        ensures
            r.pretty,
            r.sort == sort,
    {
        JsonPatchFormatter { pretty: true, sort }
    }
}

/// Builds the JSON object of one patch operation.
fn patch_op(c: &Change) -> (r: JsonValue)
    ensures
        r@ == patch_op_jv(c@),
{
    match c {
        Change::Added { path, value } => {
            let mut members: Vec<(String, JsonValue)> = Vec::new();
            members.push(("op".to_owned(), JsonValue::Str("add".to_owned())));
            members.push(("path".to_owned(), JsonValue::Str(path.to_json_pointer())));
            members.push(("value".to_owned(), value.clone()));
            let ghost mv = members@;
            let r = JsonValue::Obj(members);
            proof {
                crate::value::lemma_pairs_of(mv);
                assert(crate::value::pairs_of(mv)[0] == (mv[0].0@, crate::value::jv_of(
                    mv[0].1,
                )));
                assert(crate::value::pairs_of(mv)[1] == (mv[1].0@, crate::value::jv_of(
                    mv[1].1,
                )));
                assert(crate::value::pairs_of(mv)[2] == (mv[2].0@, crate::value::jv_of(
                    mv[2].1,
                )));
                assert(crate::value::pairs_of(mv) =~= patch_op_jv(c@)->Obj_0);
            }
            r
        },
        Change::Removed { path, .. } => {
            let mut members: Vec<(String, JsonValue)> = Vec::new();
            members.push(("op".to_owned(), JsonValue::Str("remove".to_owned())));
            members.push(("path".to_owned(), JsonValue::Str(path.to_json_pointer())));
            let ghost mv = members@;
            let r = JsonValue::Obj(members);
            proof {
                crate::value::lemma_pairs_of(mv);
                assert(crate::value::pairs_of(mv)[0] == (mv[0].0@, crate::value::jv_of(
                    mv[0].1,
                )));
                assert(crate::value::pairs_of(mv)[1] == (mv[1].0@, crate::value::jv_of(
                    mv[1].1,
                )));
                assert(crate::value::pairs_of(mv) =~= patch_op_jv(c@)->Obj_0);
            }
            r
        },
        Change::Modified { path, new_value, .. } => {
            let mut members: Vec<(String, JsonValue)> = Vec::new();
            members.push(("op".to_owned(), JsonValue::Str("replace".to_owned())));
            members.push(("path".to_owned(), JsonValue::Str(path.to_json_pointer())));
            members.push(("value".to_owned(), new_value.clone()));
            let ghost mv = members@;
            let r = JsonValue::Obj(members);
            proof {
                crate::value::lemma_pairs_of(mv);
                assert(crate::value::pairs_of(mv)[0] == (mv[0].0@, crate::value::jv_of(
                    mv[0].1,
                )));
                assert(crate::value::pairs_of(mv)[1] == (mv[1].0@, crate::value::jv_of(
                    mv[1].1,
                )));
                assert(crate::value::pairs_of(mv)[2] == (mv[2].0@, crate::value::jv_of(
                    mv[2].1,
                )));
                assert(crate::value::pairs_of(mv) =~= patch_op_jv(c@)->Obj_0);
            }
            r
        },
    }
}

/// Appends the operations of one change list.
fn push_patch_ops(items: &Vec<Change>, out: &mut Vec<JsonValue>)
    ensures
        final(out)@.len() == old(out)@.len() + items@.len(),
        forall|k: int| 0 <= k < old(out)@.len() ==> #[trigger] final(out)@[k] == old(out)@[k],
        forall|k: int| 0 <= k < items@.len() ==> crate::value::jv_of(
            #[trigger] final(out)@[old(out)@.len() + k],
        ) == patch_op_jv(items@[k]@),
{
    let n = items.len();
    let mut i: usize = 0;
    while i < n
        invariant
            i <= n,
            n == items@.len(),
            out@.len() == old(out)@.len() + i,
            forall|k: int| 0 <= k < old(out)@.len() ==> #[trigger] out@[k] == old(out)@[k],
            forall|k: int| 0 <= k < i ==> crate::value::jv_of(
                #[trigger] out@[old(out)@.len() + k],
            ) == patch_op_jv(items@[k]@),
        decreases n - i,
    {
        let op = patch_op(&items[i]);
        out.push(op);
        i = i + 1;
    }
}

impl Formatter for JsonPatchFormatter {
    /// Renders the patch document; with the sort switch, keys are sorted
    /// recursively and the output is always pretty-printed.
    fn format(&self, changes: &Changes) -> (r: Result<String, FormatError>)
        ensures
            r matches Ok(s) && s@ == ({
                let doc = patch_doc(
                    change_views(changes.added@),
                    change_views(changes.removed@),
                    change_views(changes.modified@),
                );
                if self.sort {
                    render_jv(sort_jv(doc), true, Seq::<char>::empty())
                } else {
                    render_jv(doc, self.pretty, Seq::<char>::empty())
                }
            }),
    {
        let mut ops: Vec<JsonValue> = Vec::new();
        push_patch_ops(&changes.added, &mut ops);
        let ghost s1 = ops@;
        push_patch_ops(&changes.removed, &mut ops);
        let ghost s2 = ops@;
        push_patch_ops(&changes.modified, &mut ops);
        let ghost ov = ops@;
        let doc = JsonValue::Arr(ops);
        proof {
            let av = change_views(changes.added@);
            let rv = change_views(changes.removed@);
            let mv = change_views(changes.modified@);
            crate::value::lemma_elems_of(ov);
            assert forall|k: int| 0 <= k < ov.len()
                implies #[trigger] crate::value::elems_of(ov)[k] == (patch_ops(av)
                + patch_ops(rv) + patch_ops(mv))[k] by {
                assert(crate::value::elems_of(ov)[k] == crate::value::jv_of(ov[k]));
                let na = av.len() as int;
                let nr = rv.len() as int;
                if k < na {
                    assert(av[k] == changes.added@[k]@);
                    assert(crate::value::jv_of(s1[0 + k]) == patch_op_jv(
                        changes.added@[k]@,
                    ));
                    assert(s2[k] == s1[k]);
                    assert(ov[k] == s2[k]);
                } else if k < na + nr {
                    assert(rv[k - na] == changes.removed@[k - na]@);
                    assert(crate::value::jv_of(s2[na + (k - na)]) == patch_op_jv(
                        changes.removed@[k - na]@,
                    ));
                    assert(ov[k] == s2[k]);
                } else {
                    assert(mv[k - na - nr] == changes.modified@[k - na - nr]@);
                    assert(crate::value::jv_of(ov[na + nr + (k - na - nr)]) == patch_op_jv(
                        changes.modified@[k - na - nr]@,
                    ));
                }
            }
            assert(crate::value::elems_of(ov) =~= patch_ops(av) + patch_ops(rv)
                + patch_ops(mv));
        }
        if self.sort {
            let sorted = sort_json_value(&doc);
            Ok(value_to_text(&sorted, true))
        } else {
            Ok(value_to_text(&doc, self.pretty))
        }
    }
}

/// Reads a dot-notation path and renders it as an RFC 6901 JSON Pointer;
/// text that does not read as a path is rendered as the pointer of the empty
/// path.
pub fn convert_to_json_pointer(path: &str) -> (r: String)
    ensures
        r@ == (match parse_dot(path@) {
            Ok(segs) => render_pointer(segs),
            Err(e) => Seq::<char>::empty(),
        }),
{
    match JsonPath::parse_str(path) {
        Ok(p) => p.to_json_pointer(),
        Err(_) => {
            let root = JsonPath::new();
            let r = root.to_json_pointer();
            proof {
                assert(render_pointer(Seq::<SegView>::empty()) =~= Seq::<char>::empty());
            }
            r
        },
    }
}

} // verus!
