//! The "after" output shape: a minimal reconstruction of the new document
//! holding only what was added or modified.
//!
//! Inclusion works top-down.  A node whose own path was changed is copied
//! verbatim, subtree and all.  Otherwise an object keeps exactly the members
//! under which some changed path lies, and an array keeps its positions,
//! writing `null` at positions under which nothing changed.  With no "after"
//! snapshot, or no changed path at all, the output is the empty object.

use vstd::prelude::*;
use crate::formatter::FormatError;
use crate::formatter::Formatter;
use crate::formatter::render::render_jv;
use crate::formatter::render::value_to_text;
use crate::formatter::util::sort_json_value;
use crate::formatter::util::sort_jv;
use crate::json_path::JsonPath;
use crate::json_path::PathSegment;
use crate::json_path::SegView;
use crate::json_path::is_seg_prefix;
use crate::types::ChangeV;
use crate::types::Changes;
use crate::types::change_views;
use crate::types::cpath;
use crate::value::JsonValue;
use crate::value::Jv;
use crate::value::jv_height;
use crate::value::lemma_arr_elem_height;
use crate::value::lemma_obj_val_height;
use crate::value::lemma_elems_of;
use crate::value::lemma_pairs_of;

verus! {

/// Whether `q` itself is one of the changed paths.
pub open spec fn direct_hit(q: Seq<SegView>, paths: Seq<Seq<SegView>>) -> bool {
    exists|i: int| 0 <= i < paths.len() && #[trigger] paths[i] == q
}

/// Whether some changed path lies at or below `q`.
pub open spec fn hit_below(q: Seq<SegView>, paths: Seq<Seq<SegView>>) -> bool {
    exists|i: int| 0 <= i < paths.len() && is_seg_prefix(q, #[trigger] paths[i])
}

/// The filtered copy of a node at `cur`: a changed node is copied verbatim;
/// an object keeps the members with a changed path below them; an array
/// keeps its positions, blanking those with nothing changed below.
pub open spec fn filter_after(v: Jv, cur: Seq<SegView>, paths: Seq<Seq<SegView>>) -> Jv
    decreases jv_height(v), 1int, 0int,
{
    if direct_hit(cur, paths) {
        v
    } else {
        match v {
            Jv::Obj(ps) => Jv::Obj(filter_after_pairs(ps, 0, cur, paths)),
            Jv::Arr(items) => Jv::Arr(filter_after_items(items, 0, cur, paths)),
            _ => v,
        }
    }
}

/// The kept members from position `i` on.
pub open spec fn filter_after_pairs(
    ps: Seq<(Seq<char>, Jv)>,
    i: int,
    cur: Seq<SegView>,
    paths: Seq<Seq<SegView>>,
) -> Seq<(Seq<char>, Jv)>
    decreases jv_height(Jv::Obj(ps)), 0int, ps.len() - i,
    via filter_after_pairs_dec
{
    if i < 0 || i >= ps.len() {
        Seq::empty()
    } else {
        (if hit_below(cur.push(SegView::Key(ps[i].0)), paths) {
            seq![
                (ps[i].0, filter_after(ps[i].1, cur.push(SegView::Key(ps[i].0)), paths)),
            ]
        } else {
            Seq::empty()
        }) + filter_after_pairs(ps, i + 1, cur, paths)
    }
}

#[via_fn]
proof fn filter_after_pairs_dec(
    ps: Seq<(Seq<char>, Jv)>,
    i: int,
    cur: Seq<SegView>,
    paths: Seq<Seq<SegView>>,
) {
    if 0 <= i < ps.len() {
        lemma_obj_val_height(ps, i);
    }
}

/// The positions from `i` on, blanked or filtered.
pub open spec fn filter_after_items(
    items: Seq<Jv>,
    i: int,
    cur: Seq<SegView>,
    paths: Seq<Seq<SegView>>,
) -> Seq<Jv>
    decreases jv_height(Jv::Arr(items)), 0int, items.len() - i,
    via filter_after_items_dec
{
    if i < 0 || i >= items.len() {
        Seq::empty()
    } else {
        seq![
            if hit_below(cur.push(SegView::Index(i as nat)), paths) {
                filter_after(items[i], cur.push(SegView::Index(i as nat)), paths)
            } else {
                Jv::Null
            },
        ] + filter_after_items(items, i + 1, cur, paths)
    }
}

#[via_fn]
proof fn filter_after_items_dec(
    items: Seq<Jv>,
    i: int,
    cur: Seq<SegView>,
    paths: Seq<Seq<SegView>>,
) {
    if 0 <= i < items.len() {
        lemma_arr_elem_height(items, i);
    }
}

/// The paths of the added and modified changes, in order.
pub open spec fn changed_paths(added: Seq<ChangeV>, modified: Seq<ChangeV>) -> Seq<
    Seq<SegView>,
> {
    Seq::new(added.len(), |i: int| cpath(added[i])) + Seq::new(
        modified.len(),
        |i: int| cpath(modified[i]),
    )
}

/// The document the after shape renders: the empty object when there is no
/// snapshot or nothing was added or modified, else the filtered snapshot.
pub open spec fn after_doc(after: Option<Jv>, added: Seq<ChangeV>, modified: Seq<ChangeV>) -> Jv {
    match after {
        None => Jv::Obj(Seq::empty()),
        Some(av) => if changed_paths(added, modified).len() == 0 {
            Jv::Obj(Seq::empty())
        } else {
            filter_after(av, Seq::empty(), changed_paths(added, modified))
        },
    }
}

/// Formatter for the after output shape.
pub struct AfterFormatter {
    pub pretty: bool,
    pub sort: bool,
}

impl AfterFormatter {
    /// An after formatter that pretty-prints, sorting keys on request.
    pub fn new(sort: bool) -> (r: Self)
        ensures
            r.pretty,
            r.sort == sort,
    {
        AfterFormatter { pretty: true, sort }
    }

    /// An after formatter with the given pretty switch and no sorting.
    pub fn with_pretty(pretty: bool) -> (r: Self)
        ensures
            r.pretty == pretty,
            !r.sort,
    {
        AfterFormatter { pretty, sort: false }
    }
}

/// Whether `q` itself is one of the paths.
fn direct_hit_exec(q: &JsonPath, paths: &Vec<JsonPath>) -> (r: bool)
    ensures
        r == direct_hit(q@, crate::ignore::path_views(paths@)),
{
    let n = paths.len();
    let mut i: usize = 0;
    while i < n
        invariant
            i <= n,
            n == paths@.len(),
            forall|w: int| 0 <= w < i ==> crate::ignore::path_views(paths@)[w] != q@,
        decreases n - i,
    {
        if paths[i].matches_prefix(q) && q.matches_prefix(&paths[i]) {
            proof {
                assert(crate::ignore::path_views(paths@)[i as int] == paths@[i as int]@);
                assert(paths@[i as int]@ =~= q@);
            }
            return true;
        }
        proof {
            assert(crate::ignore::path_views(paths@)[i as int] == paths@[i as int]@);
            if paths@[i as int]@ == q@ {
                assert(is_seg_prefix(q@, paths@[i as int]@));
                assert(is_seg_prefix(paths@[i as int]@, q@));
                assert(false);
            }
        }
        i = i + 1;
    }
    false
}

/// Whether some path lies at or below `q`.
fn hit_below_exec(q: &JsonPath, paths: &Vec<JsonPath>) -> (r: bool)
    ensures
        r == hit_below(q@, crate::ignore::path_views(paths@)),
{
    let n = paths.len();
    let mut i: usize = 0;
    while i < n
        invariant
            i <= n,
            n == paths@.len(),
            forall|w: int| 0 <= w < i ==> !is_seg_prefix(
                q@,
                crate::ignore::path_views(paths@)[w],
            ),
        decreases n - i,
    {
        if paths[i].matches_prefix(q) {
            proof {
                assert(crate::ignore::path_views(paths@)[i as int] == paths@[i as int]@);
            }
            return true;
        }
        proof {
            assert(crate::ignore::path_views(paths@)[i as int] == paths@[i as int]@);
        }
        i = i + 1;
    }
    false
}

/// Builds the filtered copy of `v` at `cur`, as [`filter_after`] names it.
fn filter_after_exec(v: &JsonValue, cur: &JsonPath, paths: &Vec<JsonPath>) -> (r: JsonValue)
    ensures
        r@ == filter_after(v@, cur@, crate::ignore::path_views(paths@)),
    decreases jv_height(v@), 1int,
{
    let ghost pv = crate::ignore::path_views(paths@);
    if direct_hit_exec(cur, paths) {
        return v.clone();
    }
    match v {
        JsonValue::Obj(pairs) => {
            proof {
                lemma_pairs_of(pairs@);
            }
            let ghost psv = crate::value::pairs_of(pairs@);
            let n = pairs.len();
            let mut out: Vec<(String, JsonValue)> = Vec::new();
            let mut i: usize = 0;
            proof {
                assert(crate::value::pairs_of(out@) =~= Seq::<(Seq<char>, Jv)>::empty());
                assert(Seq::<(Seq<char>, Jv)>::empty() + filter_after_pairs(psv, 0, cur@, pv)
                    =~= filter_after_pairs(psv, 0, cur@, pv));
            }
            while i < n
                invariant
                    i <= n,
                    n == pairs@.len(),
                    psv == crate::value::pairs_of(pairs@),
                    v@ == Jv::Obj(psv),
                    !direct_hit(cur@, pv),
                    pv == crate::ignore::path_views(paths@),
                    psv.len() == n,
                    forall|k: int| 0 <= k < n ==> psv[k] == ((#[trigger] pairs@[k]).0@,
                    crate::value::jv_of(pairs@[k].1)),
                    crate::value::pairs_of(out@) + filter_after_pairs(psv, i as int, cur@, pv)
                        == filter_after_pairs(psv, 0, cur@, pv),
                decreases n - i,
            {
                proof {
                    lemma_obj_val_height(psv, i as int);
                }
                let key = pairs[i].0.clone();
                let mut child = cur.clone();
                child.push(PathSegment::Key(key));
                proof {
                    assert(child@ =~= cur@.push(SegView::Key(psv[i as int].0)));
                }
                let ghost prevout = crate::value::pairs_of(out@);
                let ghost headpart = (if hit_below(
                    cur@.push(SegView::Key(psv[i as int].0)),
                    pv,
                ) {
                    seq![
                        (
                            psv[i as int].0,
                            filter_after(
                                psv[i as int].1,
                                cur@.push(SegView::Key(psv[i as int].0)),
                                pv,
                            ),
                        ),
                    ]
                } else {
                    Seq::<(Seq<char>, Jv)>::empty()
                });
                let ghost prevvec = out@;
                if hit_below_exec(&child, paths) {
                    let fv = filter_after_exec(&pairs[i].1, &child, paths);
                    let key2 = pairs[i].0.clone();
                    out.push((key2, fv));
                    proof {
                        crate::value::lemma_pairs_of_push(prevvec, (key2, fv));
                        assert(crate::value::pairs_of(out@) =~= prevout + headpart);
                    }
                } else {
                    proof {
                        assert(crate::value::pairs_of(out@) =~= prevout + headpart);
                    }
                }
                proof {
                    assert(filter_after_pairs(psv, i as int, cur@, pv) == headpart
                        + filter_after_pairs(psv, i as int + 1, cur@, pv));
                    assert((prevout + headpart) + filter_after_pairs(
                        psv,
                        i as int + 1,
                        cur@,
                        pv,
                    ) =~= prevout + (headpart + filter_after_pairs(psv, i as int + 1, cur@, pv)));
                }
                i = i + 1;
            }
            proof {
                assert(crate::value::pairs_of(out@) + Seq::<(Seq<char>, Jv)>::empty()
                    =~= crate::value::pairs_of(out@));
            }
            JsonValue::Obj(out)
        },
        JsonValue::Arr(items) => {
            proof {
                lemma_elems_of(items@);
            }
            let ghost iv = crate::value::elems_of(items@);
            let n = items.len();
            let mut out: Vec<JsonValue> = Vec::new();
            let mut i: usize = 0;
            proof {
                assert(crate::value::elems_of(out@) =~= Seq::<Jv>::empty());
                assert(Seq::<Jv>::empty() + filter_after_items(iv, 0, cur@, pv)
                    =~= filter_after_items(iv, 0, cur@, pv));
            }
            while i < n
                invariant
                    i <= n,
                    n == items@.len(),
                    iv == crate::value::elems_of(items@),
                    v@ == Jv::Arr(iv),
                    !direct_hit(cur@, pv),
                    pv == crate::ignore::path_views(paths@),
                    iv.len() == n,
                    forall|k: int| 0 <= k < n ==> iv[k] == crate::value::jv_of(
                        #[trigger] items@[k],
                    ),
                    crate::value::elems_of(out@) + filter_after_items(iv, i as int, cur@, pv)
                        == filter_after_items(iv, 0, cur@, pv),
                decreases n - i,
            {
                proof {
                    lemma_arr_elem_height(iv, i as int);
                }
                let mut child = cur.clone();
                child.push(PathSegment::Index(i));
                proof {
                    assert(child@ =~= cur@.push(SegView::Index(i as nat)));
                }
                let ghost prevout = crate::value::elems_of(out@);
                let ghost headpart = seq![
                    if hit_below(cur@.push(SegView::Index(i as nat)), pv) {
                        filter_after(iv[i as int], cur@.push(SegView::Index(i as nat)), pv)
                    } else {
                        Jv::Null
                    },
                ];
                let ghost prevvec = out@;
                if hit_below_exec(&child, paths) {
                    let fv = filter_after_exec(&items[i], &child, paths);
                    proof {
                        crate::value::lemma_elems_of_push(prevvec, fv);
                    }
                    out.push(fv);
                } else {
                    proof {
                        crate::value::lemma_elems_of_push(prevvec, JsonValue::Null);
                    }
                    out.push(JsonValue::Null);
                }
                proof {
                    assert(crate::value::elems_of(out@) =~= prevout + headpart);
                    assert(filter_after_items(iv, i as int, cur@, pv) == headpart
                        + filter_after_items(iv, i as int + 1, cur@, pv));
                    assert((prevout + headpart) + filter_after_items(
                        iv,
                        i as int + 1,
                        cur@,
                        pv,
                    ) =~= prevout + (headpart + filter_after_items(iv, i as int + 1, cur@, pv)));
                }
                i = i + 1;
            }
            proof {
                assert(crate::value::elems_of(out@) + Seq::<Jv>::empty()
                    =~= crate::value::elems_of(out@));
            }
            JsonValue::Arr(out)
        },
        _ => v.clone(),
    }
}

/// Collects the paths of the added and modified changes.
fn collect_changed_paths(changes: &Changes) -> (r: Vec<JsonPath>)
    ensures
        crate::ignore::path_views(r@) == changed_paths(
            change_views(changes.added@),
            change_views(changes.modified@),
        ),
{
    let mut out: Vec<JsonPath> = Vec::new();
    let na = changes.added.len();
    let mut i: usize = 0;
    while i < na
        invariant
            i <= na,
            na == changes.added@.len(),
            out@.len() == i,
            forall|k: int| 0 <= k < i ==> (#[trigger] out@[k])@ == cpath(
                changes.added@[k]@,
            ),
        decreases na - i,
    {
        let p = crate::ignore::change_path_ref(&changes.added[i]).clone();
        out.push(p);
        i = i + 1;
    }
    let nm = changes.modified.len();
    let mut j: usize = 0;
    while j < nm
        invariant
            j <= nm,
            nm == changes.modified@.len(),
            na == changes.added@.len(),
            out@.len() == na + j,
            forall|k: int| 0 <= k < na ==> (#[trigger] out@[k])@ == cpath(
                changes.added@[k]@,
            ),
            forall|k: int| 0 <= k < j ==> (#[trigger] out@[na + k])@ == cpath(
                changes.modified@[k]@,
            ),
        decreases nm - j,
    {
        let p = crate::ignore::change_path_ref(&changes.modified[j]).clone();
        out.push(p);
        j = j + 1;
    }
    proof {
        assert forall|k: int| 0 <= k < out@.len()
            implies #[trigger] crate::ignore::path_views(out@)[k] == changed_paths(
            change_views(changes.added@),
            change_views(changes.modified@),
        )[k] by {
            assert(crate::ignore::path_views(out@)[k] == out@[k]@);
            let na = changes.added@.len() as int;
            if k < na {
                assert(change_views(changes.added@)[k] == changes.added@[k]@);
            } else {
                assert((#[trigger] out@[na + (k - na)])@ == cpath(
                    changes.modified@[k - na]@,
                ));
                assert(change_views(changes.modified@)[k - na] == changes.modified@[k - na]@);
            }
        }
        assert(crate::ignore::path_views(out@) =~= changed_paths(
            change_views(changes.added@),
            change_views(changes.modified@),
        ));
    }
    out
}

impl Formatter for AfterFormatter {
    /// Renders the filtered "after" document; with the sort switch, keys are
    /// sorted recursively and the output is always pretty-printed.
    fn format(&self, changes: &Changes) -> (r: Result<String, FormatError>)
        ensures
            r matches Ok(s) && s@ == ({
                let doc = after_doc(
                    match changes.after {
                        Some(av) => Some(av@),
                        None => None,
                    },
                    change_views(changes.added@),
                    change_views(changes.modified@),
                );
                if self.sort {
                    render_jv(sort_jv(doc), true, Seq::<char>::empty())
                } else {
                    render_jv(doc, self.pretty, Seq::<char>::empty())
                }
            }),
    {
        let doc: JsonValue = match &changes.after {
            None => JsonValue::Obj(Vec::new()),
            Some(av) => {
                let paths = collect_changed_paths(changes);
                if paths.len() == 0 {
                    JsonValue::Obj(Vec::new())
                } else {
                    let root = JsonPath::new();
                    filter_after_exec(av, &root, &paths)
                }
            },
        };
        proof {
            assert(crate::value::pairs_of(Seq::<(String, JsonValue)>::empty()) =~= Seq::<
                (Seq<char>, Jv),
            >::empty());
        }
        if self.sort {
            let sorted = sort_json_value(&doc);
            Ok(value_to_text(&sorted, true))
        } else {
            Ok(value_to_text(&doc, self.pretty))
        }
    }
}

} // verus!
