//! The diff engine: a recursive, type-dispatching comparison of two JSON
//! trees that yields a partitioned change set.
//!
//! At each node pair the engine stops on deep equality, records an addition
//! or removal when only one side is present, steps into objects and arrays of
//! matching kind, and otherwise records a modification.  Object members are
//! walked in the new document's key order first, then the keys only the old
//! document has, in its order; arrays are walked position by position up to
//! the longer length.

use vstd::prelude::*;
use crate::json_path::JsonPath;
use crate::json_path::PathSegment;
use crate::json_path::SegView;
use crate::types::Change;
use crate::types::ChangeV;
use crate::types::Changes;
use crate::types::change_views;
use crate::types::cpath;
use crate::value::JsonValue;
use crate::value::Jv;
use crate::value::jv_eq;
use crate::value::jv_height;
use crate::value::jv_wf;
use crate::value::lemma_jv_eq_refl;
use crate::value::lemma_obj_get_at;
use crate::value::lemma_obj_get_is_member;
use crate::value::lemma_obj_val_height;
use crate::value::lemma_arr_elem_height;
use crate::value::lemma_pairs_of;
use crate::value::lemma_elems_of;
use crate::value::obj_find;
use crate::value::obj_get;
use crate::value::obj_has;
use crate::value::pairs_of;
use crate::value::elems_of;
use crate::value::value_eq;

verus! {

/// The abstraction of an optional node.
pub open spec fn opt_view(o: Option<&JsonValue>) -> Option<Jv> {
    match o {
        Some(v) => Some(v@),
        None => None,
    }
}

/// Height of an optional node; an absent side sits below everything present.
pub open spec fn opt_height(o: Option<Jv>) -> nat {
    match o {
        Some(v) => 1 + jv_height(v),
        None => 0,
    }
}

pub open spec fn opt_wf(o: Option<Jv>) -> bool {
    match o {
        Some(v) => jv_wf(v),
        None => true,
    }
}

/// The member value under a key, when the key is present.
pub open spec fn opt_get(ps: Seq<(Seq<char>, Jv)>, k: Seq<char>) -> Option<Jv> {
    if obj_has(ps, k) {
        Some(obj_get(ps, k))
    } else {
        None
    }
}

/// The element at a position, when the position is within bounds.
pub open spec fn arr_get(s: Seq<Jv>, i: int) -> Option<Jv> {
    if 0 <= i < s.len() {
        Some(s[i])
    } else {
        None
    }
}

/// The keys of the members, in member order.
pub open spec fn keys_of(ps: Seq<(Seq<char>, Jv)>) -> Seq<Seq<char>> {
    Seq::new(ps.len(), |i: int| ps[i].0)
}

/// The keys only the old object has, in the old object's order.
pub open spec fn old_only_keys(po: Seq<(Seq<char>, Jv)>, pn: Seq<(Seq<char>, Jv)>) -> Seq<
    Seq<char>,
>
    decreases po.len(),
{
    if po.len() == 0 {
        Seq::empty()
    } else if obj_has(pn, po[0].0) {
        old_only_keys(po.drop_first(), pn)
    } else {
        seq![po[0].0] + old_only_keys(po.drop_first(), pn)
    }
}

/// The key order the engine walks: the new object's keys, then the keys only
/// the old object has.
pub open spec fn union_keys(po: Seq<(Seq<char>, Jv)>, pn: Seq<(Seq<char>, Jv)>) -> Seq<
    Seq<char>,
> {
    keys_of(pn) + old_only_keys(po, pn)
}

/// The changes the engine records for one node pair, in traversal order.
pub open spec fn diff_spec(o: Option<Jv>, n: Option<Jv>, path: Seq<SegView>) -> Seq<ChangeV>
    decreases opt_height(o), 1int, 0int,
    via diff_spec_dec
{
    match (o, n) {
        (None, None) => Seq::empty(),
        (None, Some(v)) => seq![ChangeV::Added { path, value: v }],
        (Some(v), None) => seq![ChangeV::Removed { path, value: v }],
        (Some(a), Some(b)) => if jv_eq(a, b) {
            Seq::empty()
        } else {
            match (a, b) {
                (Jv::Obj(po), Jv::Obj(pn)) => diff_obj(po, pn, union_keys(po, pn), path),
                (Jv::Arr(ao), Jv::Arr(an)) => diff_arr(
                    ao,
                    an,
                    0,
                    if ao.len() >= an.len() {
                        ao.len() as int
                    } else {
                        an.len() as int
                    },
                    path,
                ),
                _ => seq![ChangeV::Modified { path, old_value: a, new_value: b }],
            }
        },
    }
}

#[via_fn]
proof fn diff_spec_dec(o: Option<Jv>, n: Option<Jv>, path: Seq<SegView>) {
}

/// The changes for the listed keys of an object pair, left to right.
pub open spec fn diff_obj(
    po: Seq<(Seq<char>, Jv)>,
    pn: Seq<(Seq<char>, Jv)>,
    keys: Seq<Seq<char>>,
    path: Seq<SegView>,
) -> Seq<ChangeV>
    decreases opt_height(Some(Jv::Obj(po))), 0int, keys.len(),
    via diff_obj_dec
{
    if keys.len() == 0 {
        Seq::empty()
    } else {
        diff_spec(
            opt_get(po, keys[0]),
            opt_get(pn, keys[0]),
            path.push(SegView::Key(keys[0])),
        ) + diff_obj(po, pn, keys.drop_first(), path)
    }
}

#[via_fn]
proof fn diff_obj_dec(
    po: Seq<(Seq<char>, Jv)>,
    pn: Seq<(Seq<char>, Jv)>,
    keys: Seq<Seq<char>>,
    path: Seq<SegView>,
) {
    if keys.len() > 0 {
        if obj_has(po, keys[0]) {
            lemma_obj_get_is_member(po, keys[0]);
            let i = choose|i: int| 0 <= i < po.len() && (#[trigger] po[i]).0 == keys[0]
                && po[i].1 == obj_get(po, keys[0]);
            lemma_obj_val_height(po, i);
        }
    }
}

/// The changes for the positions of an array pair, from `i` up to `len`.
pub open spec fn diff_arr(ao: Seq<Jv>, an: Seq<Jv>, i: int, len: int, path: Seq<SegView>) -> Seq<
    ChangeV,
>
    decreases opt_height(Some(Jv::Arr(ao))), 0int, len - i,
    via diff_arr_dec
{
    if i < 0 || i >= len {
        Seq::empty()
    } else {
        diff_spec(arr_get(ao, i), arr_get(an, i), path.push(SegView::Index(i as nat)))
            + diff_arr(ao, an, i + 1, len, path)
    }
}

#[via_fn]
proof fn diff_arr_dec(ao: Seq<Jv>, an: Seq<Jv>, i: int, len: int, path: Seq<SegView>) {
    if 0 <= i < len {
        if 0 <= i < ao.len() {
            lemma_arr_elem_height(ao, i);
        }
    }
}

/// Comparing a tree with itself records nothing.
pub proof fn lemma_diff_self_empty(x: Jv, path: Seq<SegView>)
    requires
        jv_wf(x),
    ensures
        diff_spec(Some(x), Some(x), path) == Seq::<ChangeV>::empty(),
{
    lemma_jv_eq_refl(x);
}

/// Comparing a well-formed tree with itself yields an empty change set:
/// all three lists of [`diff`]'s result are empty.
pub proof fn lemma_diff_self_lists_empty(x: Jv)
    requires
        jv_wf(x),
    ensures
        added_of(diff_spec(Some(x), Some(x), Seq::empty())) == Seq::<ChangeV>::empty(),
        removed_of(diff_spec(Some(x), Some(x), Seq::empty())) == Seq::<ChangeV>::empty(),
        modified_of(diff_spec(Some(x), Some(x), Seq::empty())) == Seq::<ChangeV>::empty(),
{
    lemma_diff_self_empty(x, Seq::empty());
}

/// Records one change, cloned from the given parts.
fn push_added(out: &mut Vec<Change>, path: &JsonPath, value: &JsonValue)
    ensures
        final(out)@.len() == old(out)@.len() + 1,
        change_views(final(out)@) == change_views(old(out)@).push(
            ChangeV::Added { path: path@, value: value@ },
        ),
{
    let c = Change::Added { path: path.clone(), value: value.clone() };
    out.push(c);
    proof {
        assert(change_views(out@) =~= change_views(old(out)@).push(
            ChangeV::Added { path: path@, value: value@ },
        ));
    }
}

fn push_removed(out: &mut Vec<Change>, path: &JsonPath, value: &JsonValue)
    ensures
        final(out)@.len() == old(out)@.len() + 1,
        change_views(final(out)@) == change_views(old(out)@).push(
            ChangeV::Removed { path: path@, value: value@ },
        ),
{
    let c = Change::Removed { path: path.clone(), value: value.clone() };
    out.push(c);
    proof {
        assert(change_views(out@) =~= change_views(old(out)@).push(
            ChangeV::Removed { path: path@, value: value@ },
        ));
    }
}

fn push_modified(out: &mut Vec<Change>, path: &JsonPath, old_v: &JsonValue, new_v: &JsonValue)
    ensures
        final(out)@.len() == old(out)@.len() + 1,
        change_views(final(out)@) == change_views(old(out)@).push(
            ChangeV::Modified { path: path@, old_value: old_v@, new_value: new_v@ },
        ),
{
    let c = Change::Modified {
        path: path.clone(),
        old_value: old_v.clone(),
        new_value: new_v.clone(),
    };
    out.push(c);
    proof {
        assert(change_views(out@) =~= change_views(old(out)@).push(
            ChangeV::Modified { path: path@, old_value: old_v@, new_value: new_v@ },
        ));
    }
}

/// Extends `path` by one segment, as a fresh path.
fn child_path(path: &JsonPath, seg: PathSegment) -> (r: JsonPath)
    ensures
        r@ == path@.push(seg@),
{
    let mut p = path.clone();
    p.push(seg);
    p
}

/// Walks one node pair, appending the changes [`diff_spec`] names for it.
/// At least one side must be present: a pair with neither is never a node
/// of either document, and the traversal never produces one.
pub fn traverse(old_node: Option<&JsonValue>, new_node: Option<&JsonValue>, path: &JsonPath, out: &mut Vec<
    Change,
>)
    requires
        old_node is Some || new_node is Some,
        opt_wf(opt_view(old_node)),
        opt_wf(opt_view(new_node)),
    ensures
        change_views(final(out)@) == change_views(old(out)@) + diff_spec(
            opt_view(old_node),
            opt_view(new_node),
            path@,
        ),
    decreases opt_height(opt_view(old_node)), opt_height(opt_view(new_node)), 1int,
{
    let ghost base = change_views(old(out)@);
    match (old_node, new_node) {
        (None, None) => {
            proof {
                assert(false);
            }
        },
        (None, Some(v)) => {
            push_added(out, path, v);
            proof {
                assert(base + diff_spec(opt_view(old_node), opt_view(new_node), path@) =~= base.push(
                    ChangeV::Added { path: path@, value: v@ },
                ));
            }
        },
        (Some(v), None) => {
            push_removed(out, path, v);
            proof {
                assert(base + diff_spec(opt_view(old_node), opt_view(new_node), path@) =~= base.push(
                    ChangeV::Removed { path: path@, value: v@ },
                ));
            }
        },
        (Some(a), Some(b)) => {
            if value_eq(a, b) {
                proof {
                    assert(base + diff_spec(opt_view(old_node), opt_view(new_node), path@) =~= base);
                }
            } else {
                match (a, b) {
                    (JsonValue::Obj(po), JsonValue::Obj(pn)) => {
                        traverse_objects(a, b, po, pn, path, out);
                    },
                    (JsonValue::Arr(ao), JsonValue::Arr(an)) => {
                        traverse_arrays(a, b, ao, an, path, out);
                    },
                    _ => {
                        push_modified(out, path, a, b);
                        proof {
                            assert(diff_spec(opt_view(old_node), opt_view(new_node), path@) =~= seq![
                                ChangeV::Modified {
                                    path: path@,
                                    old_value: a@,
                                    new_value: b@,
                                },
                            ]);
                            assert(base + diff_spec(opt_view(old_node), opt_view(new_node), path@)
                                =~= base.push(
                                ChangeV::Modified { path: path@, old_value: a@, new_value: b@ },
                            ));
                        }
                    },
                }
            }
        },
    }
}

/// Walks the members of two unequal objects in the engine's key order.
fn traverse_objects(
    a: &JsonValue,
    b: &JsonValue,
    po: &Vec<(String, JsonValue)>,
    pn: &Vec<(String, JsonValue)>,
    path: &JsonPath,
    out: &mut Vec<Change>,
)
    requires
        jv_wf(a@),
        jv_wf(b@),
        a@ == Jv::Obj(pairs_of(po@)),
        b@ == Jv::Obj(pairs_of(pn@)),
        !jv_eq(a@, b@),
    ensures
        change_views(final(out)@) == change_views(old(out)@) + diff_spec(
            Some(a@),
            Some(b@),
            path@,
        ),
    decreases opt_height(Some(a@)), opt_height(Some(b@)), 0int,
{
    let ghost base = change_views(old(out)@);
    let ghost pov = pairs_of(po@);
    let ghost pnv = pairs_of(pn@);
    let ghost allkeys = union_keys(pov, pnv);
    proof {
        lemma_pairs_of(po@);
        lemma_pairs_of(pn@);
        assert(diff_spec(Some(a@), Some(b@), path@) == diff_obj(pov, pnv, allkeys, path@));
    }
    // Phase one: the new object's keys, in its order.
    let n1 = pn.len();
    let mut i: usize = 0;
    proof {
        assert(keys_of(pnv).skip(0) =~= keys_of(pnv));
        assert(diff_obj(pov, pnv, keys_of(pnv).skip(0) + old_only_keys(pov, pnv), path@)
            == diff_obj(pov, pnv, allkeys, path@));
    }
    while i < n1
        invariant
            i <= n1,
            n1 == pn@.len(),
            jv_wf(a@),
            jv_wf(b@),
            a@ == Jv::Obj(pairs_of(po@)),
            b@ == Jv::Obj(pairs_of(pn@)),
            pov == pairs_of(po@),
            pnv == pairs_of(pn@),
            pov.len() == po@.len(),
            pnv.len() == pn@.len(),
            forall|k: int| 0 <= k < po@.len() ==> pairs_of(po@)[k]
                == ((#[trigger] po@[k]).0@, crate::value::jv_of(po@[k].1)),
            forall|k: int| 0 <= k < pn@.len() ==> pairs_of(pn@)[k]
                == ((#[trigger] pn@[k]).0@, crate::value::jv_of(pn@[k].1)),
            base == change_views(old(out)@),
            change_views(out@) + diff_obj(
                pov,
                pnv,
                keys_of(pnv).skip(i as int) + old_only_keys(pov, pnv),
                path@,
            ) == base + diff_obj(pov, pnv, allkeys, path@),
        decreases n1 - i,
    {
        let ghost keys_now = keys_of(pnv).skip(i as int) + old_only_keys(pov, pnv);
        let ghost k = pnv[i as int].0;
        let cp = child_path(path, PathSegment::Key(pn[i].0.clone()));
        let n_child: Option<&JsonValue> = Some(&pn[i].1);
        let o_child: Option<&JsonValue> = match obj_find(po, pn[i].0.as_str()) {
            Some(j) => Some(&po[j].1),
            None => None,
        };
        proof {
            assert(keys_now[0] == k) by {
                assert(keys_of(pnv).skip(i as int)[0] == keys_of(pnv)[i as int]);
            }
            assert(keys_now.drop_first() =~= keys_of(pnv).skip(i as int + 1) + old_only_keys(
                pov,
                pnv,
            ));
            lemma_obj_get_at(pnv, i as int);
            assert(opt_get(pnv, k) == Some(pnv[i as int].1));
            assert(opt_view(n_child) == opt_get(pnv, k));
            assert(opt_view(o_child) == opt_get(pov, k));
            assert(jv_wf(pnv[i as int].1));
            if obj_has(pov, k) {
                lemma_obj_get_is_member(pov, k);
                let w = choose|w: int| 0 <= w < pov.len() && (#[trigger] pov[w]).0 == k
                    && pov[w].1 == obj_get(pov, k);
                lemma_obj_val_height(pov, w);
                assert(jv_wf(obj_get(pov, k)));
            }
            assert(diff_obj(pov, pnv, keys_now, path@) == diff_spec(
                opt_get(pov, k),
                opt_get(pnv, k),
                path@.push(SegView::Key(k)),
            ) + diff_obj(pov, pnv, keys_now.drop_first(), path@));
        }
        let ghost prevout = change_views(out@);
        let ghost childcs = diff_spec(
            opt_get(pov, k),
            opt_get(pnv, k),
            path@.push(SegView::Key(k)),
        );
        let ghost restcs = diff_obj(pov, pnv, keys_now.drop_first(), path@);
        traverse(o_child, n_child, &cp, out);
        proof {
            assert((prevout + childcs) + restcs =~= prevout + (childcs + restcs));
            assert(diff_obj(
                pov,
                pnv,
                keys_of(pnv).skip(i as int + 1) + old_only_keys(pov, pnv),
                path@,
            ) == restcs);
        }
        i = i + 1;
    }
    // Phase two: the keys only the old object has, in its order.
    let n2 = po.len();
    let mut j: usize = 0;
    proof {
        assert(keys_of(pnv).skip(n1 as int) =~= Seq::<Seq<char>>::empty());
        assert(Seq::<Seq<char>>::empty() + old_only_keys(pov, pnv) =~= old_only_keys(
            pov,
            pnv,
        ));
        assert(pov.skip(0) =~= pov);
    }
    while j < n2
        invariant
            j <= n2,
            n2 == po@.len(),
            jv_wf(a@),
            jv_wf(b@),
            a@ == Jv::Obj(pairs_of(po@)),
            b@ == Jv::Obj(pairs_of(pn@)),
            pov == pairs_of(po@),
            pnv == pairs_of(pn@),
            pov.len() == po@.len(),
            pnv.len() == pn@.len(),
            forall|k: int| 0 <= k < po@.len() ==> pairs_of(po@)[k]
                == ((#[trigger] po@[k]).0@, crate::value::jv_of(po@[k].1)),
            forall|k: int| 0 <= k < pn@.len() ==> pairs_of(pn@)[k]
                == ((#[trigger] pn@[k]).0@, crate::value::jv_of(pn@[k].1)),
            base == change_views(old(out)@),
            change_views(out@) + diff_obj(
                pov,
                pnv,
                old_only_keys(pov.skip(j as int), pnv),
                path@,
            ) == base + diff_obj(pov, pnv, allkeys, path@),
        decreases n2 - j,
    {
        let ghost k = pov[j as int].0;
        proof {
            assert(pov.skip(j as int)[0] == pov[j as int]);
            assert(pov.skip(j as int).drop_first() =~= pov.skip(j as int + 1));
        }
        match obj_find(pn, po[j].0.as_str()) {
            Some(_) => {
                proof {
                    assert(obj_has(pnv, k));
                    assert(old_only_keys(pov.skip(j as int), pnv) == old_only_keys(
                        pov.skip(j as int + 1),
                        pnv,
                    ));
                }
            },
            None => {
                let cp = child_path(path, PathSegment::Key(po[j].0.clone()));
                let o_child: Option<&JsonValue> = Some(&po[j].1);
                proof {
                    assert(!obj_has(pnv, k));
                    assert(old_only_keys(pov.skip(j as int), pnv) == seq![k] + old_only_keys(
                        pov.skip(j as int + 1),
                        pnv,
                    ));
                    let keys_now = old_only_keys(pov.skip(j as int), pnv);
                    assert(keys_now[0] == k);
                    assert(keys_now.drop_first() =~= old_only_keys(pov.skip(j as int + 1), pnv));
                    lemma_obj_get_at(pov, j as int);
                    assert(opt_get(pov, k) == Some(pov[j as int].1));
                    assert(opt_view(o_child) == opt_get(pov, k));
                    assert(opt_get(pnv, k) is None);
                    lemma_obj_val_height(pov, j as int);
                    assert(jv_wf(pov[j as int].1));
                    assert(diff_obj(pov, pnv, keys_now, path@) == diff_spec(
                        opt_get(pov, k),
                        opt_get(pnv, k),
                        path@.push(SegView::Key(k)),
                    ) + diff_obj(pov, pnv, keys_now.drop_first(), path@));
                }
                let ghost prevout = change_views(out@);
                let ghost childcs = diff_spec(
                    opt_get(pov, k),
                    opt_get(pnv, k),
                    path@.push(SegView::Key(k)),
                );
                let ghost restcs = diff_obj(
                    pov,
                    pnv,
                    old_only_keys(pov.skip(j as int + 1), pnv),
                    path@,
                );
                proof {
                    assert(diff_obj(pov, pnv, old_only_keys(pov.skip(j as int), pnv), path@)
                        == childcs + restcs);
                }
                traverse(o_child, None, &cp, out);
                proof {
                    assert((prevout + childcs) + restcs =~= prevout + (childcs + restcs));
                }
            },
        }
        j = j + 1;
    }
    proof {
        assert(pov.skip(n2 as int) =~= Seq::<(Seq<char>, Jv)>::empty());
        assert(old_only_keys(Seq::<(Seq<char>, Jv)>::empty(), pnv) =~= Seq::<
            Seq<char>,
        >::empty());
        assert(change_views(out@) + Seq::<ChangeV>::empty() =~= change_views(out@));
    }
}

/// Walks the positions of two unequal arrays up to the longer length.
fn traverse_arrays(
    a: &JsonValue,
    b: &JsonValue,
    ao: &Vec<JsonValue>,
    an: &Vec<JsonValue>,
    path: &JsonPath,
    out: &mut Vec<Change>,
)
    requires
        jv_wf(a@),
        jv_wf(b@),
        a@ == Jv::Arr(elems_of(ao@)),
        b@ == Jv::Arr(elems_of(an@)),
        !jv_eq(a@, b@),
    ensures
        change_views(final(out)@) == change_views(old(out)@) + diff_spec(
            Some(a@),
            Some(b@),
            path@,
        ),
    decreases opt_height(Some(a@)), opt_height(Some(b@)), 0int,
{
    let ghost base = change_views(old(out)@);
    let ghost aov = elems_of(ao@);
    let ghost anv = elems_of(an@);
    proof {
        lemma_elems_of(ao@);
        lemma_elems_of(an@);
    }
    let max_len = if ao.len() >= an.len() {
        ao.len()
    } else {
        an.len()
    };
    proof {
        assert(diff_spec(Some(a@), Some(b@), path@) == diff_arr(
            aov,
            anv,
            0,
            max_len as int,
            path@,
        ));
    }
    let mut i: usize = 0;
    while i < max_len
        invariant
            i <= max_len,
            max_len == (if ao@.len() >= an@.len() {
                ao@.len()
            } else {
                an@.len()
            }),
            jv_wf(a@),
            jv_wf(b@),
            a@ == Jv::Arr(elems_of(ao@)),
            b@ == Jv::Arr(elems_of(an@)),
            aov == elems_of(ao@),
            anv == elems_of(an@),
            aov.len() == ao@.len(),
            anv.len() == an@.len(),
            forall|k: int| 0 <= k < ao@.len() ==> elems_of(ao@)[k] == crate::value::jv_of(
                #[trigger] ao@[k],
            ),
            forall|k: int| 0 <= k < an@.len() ==> elems_of(an@)[k] == crate::value::jv_of(
                #[trigger] an@[k],
            ),
            base == change_views(old(out)@),
            change_views(out@) + diff_arr(aov, anv, i as int, max_len as int, path@) == base
                + diff_arr(aov, anv, 0, max_len as int, path@),
        decreases max_len - i,
    {
        let cp = child_path(path, PathSegment::Index(i));
        let o_child: Option<&JsonValue> = if i < ao.len() {
            Some(&ao[i])
        } else {
            None
        };
        let n_child: Option<&JsonValue> = if i < an.len() {
            Some(&an[i])
        } else {
            None
        };
        proof {
            assert(opt_view(o_child) == arr_get(aov, i as int));
            assert(opt_view(n_child) == arr_get(anv, i as int));
            if (i as int) < aov.len() {
                lemma_arr_elem_height(aov, i as int);
                assert(jv_wf(aov[i as int]));
            }
            if (i as int) < anv.len() {
                assert(jv_wf(anv[i as int]));
            }
            assert(diff_arr(aov, anv, i as int, max_len as int, path@) == diff_spec(
                arr_get(aov, i as int),
                arr_get(anv, i as int),
                path@.push(SegView::Index(i as nat)),
            ) + diff_arr(aov, anv, i as int + 1, max_len as int, path@));
        }
        let ghost prevout = change_views(out@);
        let ghost childcs = diff_spec(
            arr_get(aov, i as int),
            arr_get(anv, i as int),
            path@.push(SegView::Index(i as nat)),
        );
        let ghost restcs = diff_arr(aov, anv, i as int + 1, max_len as int, path@);
        traverse(o_child, n_child, &cp, out);
        proof {
            assert((prevout + childcs) + restcs =~= prevout + (childcs + restcs));
        }
        i = i + 1;
    }
    proof {
        assert(change_views(out@) + Seq::<ChangeV>::empty() =~= change_views(out@));
    }
}

/// The changes of one kind, in order, out of a traversal-ordered list.
pub open spec fn added_of(cs: Seq<ChangeV>) -> Seq<ChangeV>
    decreases cs.len(),
{
    if cs.len() == 0 {
        Seq::empty()
    } else if cs.last() is Added {
        added_of(cs.drop_last()).push(cs.last())
    } else {
        added_of(cs.drop_last())
    }
}

pub open spec fn removed_of(cs: Seq<ChangeV>) -> Seq<ChangeV>
    decreases cs.len(),
{
    if cs.len() == 0 {
        Seq::empty()
    } else if cs.last() is Removed {
        removed_of(cs.drop_last()).push(cs.last())
    } else {
        removed_of(cs.drop_last())
    }
}

pub open spec fn modified_of(cs: Seq<ChangeV>) -> Seq<ChangeV>
    decreases cs.len(),
{
    if cs.len() == 0 {
        Seq::empty()
    } else if cs.last() is Modified {
        modified_of(cs.drop_last()).push(cs.last())
    } else {
        modified_of(cs.drop_last())
    }
}

/// Compares two documents.  The result carries, in traversal order, exactly
/// the changes [`diff_spec`] names, partitioned by kind, and the new document
/// as the "after" snapshot.
pub fn diff(old_doc: &JsonValue, new_doc: &JsonValue) -> (r: Changes)
    requires
        jv_wf(old_doc@),
        jv_wf(new_doc@),
    ensures
        change_views(r.added@) == added_of(diff_spec(Some(old_doc@), Some(new_doc@), Seq::empty())),
        change_views(r.removed@) == removed_of(
            diff_spec(Some(old_doc@), Some(new_doc@), Seq::empty()),
        ),
        change_views(r.modified@) == modified_of(
            diff_spec(Some(old_doc@), Some(new_doc@), Seq::empty()),
        ),
        r.after matches Some(after) && after@ == new_doc@,
{
    let ghost cs = diff_spec(Some(old_doc@), Some(new_doc@), Seq::empty());
    let mut flat: Vec<Change> = Vec::new();
    let root = JsonPath::new();
    proof {
        assert(change_views(flat@) =~= Seq::<ChangeV>::empty());
    }
    traverse(Some(old_doc), Some(new_doc), &root, &mut flat);
    proof {
        assert(Seq::<ChangeV>::empty() + cs =~= cs);
    }
    let mut r = Changes::new();
    r.after = Some(new_doc.clone());
    let n = flat.len();
    let mut i: usize = 0;
    proof {
        assert(change_views(flat@).subrange(0, 0) =~= Seq::<ChangeV>::empty());
        assert(added_of(Seq::<ChangeV>::empty()) =~= Seq::<ChangeV>::empty());
        assert(change_views(r.added@) =~= Seq::<ChangeV>::empty());
        assert(change_views(r.removed@) =~= Seq::<ChangeV>::empty());
        assert(change_views(r.modified@) =~= Seq::<ChangeV>::empty());
    }
    while i < n
        invariant
            i <= n,
            n == flat@.len(),
            change_views(flat@) == cs,
            change_views(r.added@) == added_of(cs.subrange(0, i as int)),
            change_views(r.removed@) == removed_of(cs.subrange(0, i as int)),
            change_views(r.modified@) == modified_of(cs.subrange(0, i as int)),
            r.after matches Some(after) && after@ == new_doc@,
        decreases n - i,
    {
        let c = flat[i].clone();
        proof {
            assert(c@ == cs[i as int]);
            assert(cs.subrange(0, i as int + 1).drop_last() =~= cs.subrange(0, i as int));
            assert(cs.subrange(0, i as int + 1).last() == cs[i as int]);
        }
        r.push(c);
        proof {
            if cs[i as int] is Added {
                assert(change_views(r.added@) =~= added_of(cs.subrange(0, i as int + 1)));
            } else {
                assert(change_views(r.added@) =~= added_of(cs.subrange(0, i as int + 1)));
            }
            if cs[i as int] is Removed {
                assert(change_views(r.removed@) =~= removed_of(cs.subrange(0, i as int + 1)));
            } else {
                assert(change_views(r.removed@) =~= removed_of(cs.subrange(0, i as int + 1)));
            }
            if cs[i as int] is Modified {
                assert(change_views(r.modified@) =~= modified_of(cs.subrange(0, i as int + 1)));
            } else {
                assert(change_views(r.modified@) =~= modified_of(cs.subrange(0, i as int + 1)));
            }
        }
        i = i + 1;
    }
    proof {
        assert(cs.subrange(0, n as int) =~= cs);
    }
    r
}


/// Well-formedness passes to an array element.
proof fn lemma_wf_arr_elem(s: Seq<Jv>, i: int)
    requires
        jv_wf(Jv::Arr(s)),
        0 <= i < s.len(),
    ensures
        jv_wf(s[i]),
{
    let v = Jv::Arr(s);
    assert(v->Arr_0 == s);
    assert(jv_wf(v));
    assert(forall|w: int| 0 <= w < s.len() ==> jv_wf(#[trigger] s[w]));
}

/// Well-formedness passes to an object member value.
proof fn lemma_wf_obj_val(ps: Seq<(Seq<char>, Jv)>, i: int)
    requires
        jv_wf(Jv::Obj(ps)),
        0 <= i < ps.len(),
    ensures
        jv_wf(ps[i].1),
{
    let v = Jv::Obj(ps);
    assert(v->Obj_0 == ps);
    assert(jv_wf(v));
    assert(forall|w: int| 0 <= w < ps.len() ==> jv_wf((#[trigger] ps[w]).1));
}

/// No two changes of the list speak of the same path.
pub open spec fn distinct_paths(cs: Seq<ChangeV>) -> bool {
    forall|i: int, j: int| 0 <= i < j < cs.len() ==> cpath(#[trigger] cs[i]) != cpath(
        #[trigger] cs[j],
    )
}

/// Every change of the list speaks of a path under `p`.
pub open spec fn all_under(cs: Seq<ChangeV>, p: Seq<SegView>) -> bool {
    forall|i: int| 0 <= i < cs.len() ==> crate::json_path::is_seg_prefix(
        p,
        cpath(#[trigger] cs[i]),
    )
}

/// Prefixes chain.
proof fn lemma_prefix_trans(p: Seq<SegView>, q: Seq<SegView>, r: Seq<SegView>)
    requires
        crate::json_path::is_seg_prefix(p, q),
        crate::json_path::is_seg_prefix(q, r),
    ensures
        crate::json_path::is_seg_prefix(p, r),
{
}

/// Keys listed by `old_only_keys` come from the old object, are absent from
/// the new one, and repeat no key when the old object's keys are distinct.
proof fn lemma_old_only_keys(po: Seq<(Seq<char>, Jv)>, pn: Seq<(Seq<char>, Jv)>)
    requires
        crate::value::keys_unique(po),
    ensures
        forall|w: int| 0 <= w < old_only_keys(po, pn).len() ==> obj_has(
            po,
            #[trigger] old_only_keys(po, pn)[w],
        ) && !obj_has(pn, old_only_keys(po, pn)[w]),
        forall|w1: int, w2: int| 0 <= w1 < w2 < old_only_keys(po, pn).len()
            ==> #[trigger] old_only_keys(po, pn)[w1] != #[trigger] old_only_keys(po, pn)[w2],
    decreases po.len(),
{
    if po.len() > 0 {
        let tail = po.drop_first();
        assert(forall|i: int| 0 <= i < tail.len() ==> #[trigger] tail[i] == po[i + 1]);
        assert(crate::value::keys_unique(tail));
        lemma_old_only_keys(tail, pn);
        let rec = old_only_keys(tail, pn);
        if obj_has(pn, po[0].0) {
            assert(old_only_keys(po, pn) == rec);
            assert forall|w: int| 0 <= w < old_only_keys(po, pn).len() implies obj_has(
                po,
                #[trigger] old_only_keys(po, pn)[w],
            ) && !obj_has(pn, old_only_keys(po, pn)[w]) by {
                assert(obj_has(tail, rec[w]));
                let u = choose|u: int| 0 <= u < tail.len() && (#[trigger] tail[u]).0 == rec[w];
                assert(po[u + 1].0 == rec[w]);
            }
        } else {
            let cur = old_only_keys(po, pn);
            assert(cur == seq![po[0].0] + rec);
            assert(cur[0] == po[0].0);
            assert(forall|w: int| 1 <= w < cur.len() ==> #[trigger] cur[w] == rec[w - 1]);
            assert forall|w: int| 0 <= w < cur.len() implies obj_has(po, #[trigger] cur[w])
                && !obj_has(pn, cur[w]) by {
                if w == 0 {
                    assert(po[0].0 == cur[0]);
                    assert(obj_has(po, cur[0]));
                } else {
                    assert(obj_has(tail, rec[w - 1]));
                    let u = choose|u: int| 0 <= u < tail.len() && (#[trigger] tail[u]).0 == rec[w - 1];
                    assert(po[u + 1].0 == cur[w]);
                    assert(obj_has(po, cur[w]));
                }
            }
            assert forall|w1: int, w2: int| 0 <= w1 < w2 < cur.len()
                implies #[trigger] cur[w1] != #[trigger] cur[w2] by {
                if w1 == 0 {
                    assert(cur[w2] == rec[w2 - 1]);
                    assert(obj_has(tail, rec[w2 - 1]));
                    let u = choose|u: int| 0 <= u < tail.len() && (#[trigger] tail[u]).0 == rec[w2 - 1];
                    assert(po[u + 1].0 == cur[w2]);
                    if cur[0] == cur[w2] {
                        assert(po[0].0 == po[u + 1].0);
                        assert(false);
                    }
                } else {
                    assert(cur[w1] == rec[w1 - 1] && cur[w2] == rec[w2 - 1]);
                }
            }
        }
    }
}

/// The keys the engine walks over two well-formed objects are pairwise
/// distinct.
proof fn lemma_union_keys_distinct(po: Seq<(Seq<char>, Jv)>, pn: Seq<(Seq<char>, Jv)>)
    requires
        crate::value::keys_unique(po),
        crate::value::keys_unique(pn),
    ensures
        forall|w1: int, w2: int| 0 <= w1 < w2 < union_keys(po, pn).len()
            ==> #[trigger] union_keys(po, pn)[w1] != #[trigger] union_keys(po, pn)[w2],
{
    lemma_old_only_keys(po, pn);
    let nk = keys_of(pn);
    let ok = old_only_keys(po, pn);
    let uk = union_keys(po, pn);
    assert(forall|w: int| 0 <= w < nk.len() ==> #[trigger] uk[w] == nk[w]);
    assert(forall|w: int| nk.len() <= w < uk.len() ==> #[trigger] uk[w] == ok[w - nk.len()]);
    assert forall|w1: int, w2: int| 0 <= w1 < w2 < uk.len() implies #[trigger] uk[w1]
        != #[trigger] uk[w2] by {
        if w2 < nk.len() {
            assert(uk[w1] == pn[w1].0 && uk[w2] == pn[w2].0);
        } else if w1 >= nk.len() {
            assert(uk[w1] == ok[w1 - nk.len()] && uk[w2] == ok[w2 - nk.len()]);
        } else {
            assert(uk[w1] == pn[w1].0);
            assert(obj_has(pn, pn[w1].0));
            assert(uk[w2] == ok[w2 - nk.len()]);
            assert(!obj_has(pn, ok[w2 - nk.len()]));
        }
    }
}

/// The changes of one node pair all sit under the node's path, and no two of
/// them share a path.
pub proof fn lemma_diff_spec_paths(o: Option<Jv>, n: Option<Jv>, path: Seq<SegView>)
    requires
        opt_wf(o),
        opt_wf(n),
    ensures
        all_under(diff_spec(o, n, path), path),
        distinct_paths(diff_spec(o, n, path)),
    decreases opt_height(o), 1int, 0int,
{
    let cs = diff_spec(o, n, path);
    match (o, n) {
        (None, None) => {},
        (None, Some(v)) => {
            assert(cpath(cs[0]) == path);
        },
        (Some(v), None) => {
            assert(cpath(cs[0]) == path);
        },
        (Some(a), Some(b)) => {
            if !jv_eq(a, b) {
                match (a, b) {
                    (Jv::Obj(po), Jv::Obj(pn)) => {
                        lemma_union_keys_distinct(po, pn);
                        lemma_diff_obj_paths(po, pn, union_keys(po, pn), path);
                    },
                    (Jv::Arr(ao), Jv::Arr(an)) => {
                        let len: int = if ao.len() >= an.len() {
                            ao.len() as int
                        } else {
                            an.len() as int
                        };
                        lemma_diff_arr_paths(ao, an, 0, len, path);
                    },
                    _ => {
                        assert(cpath(cs[0]) == path);
                    },
                }
            }
        },
    }
}

/// The changes for a list of distinct keys: each sits strictly under the
/// path, stepping through one of the keys, and no two share a path.
proof fn lemma_diff_obj_paths(
    po: Seq<(Seq<char>, Jv)>,
    pn: Seq<(Seq<char>, Jv)>,
    keys: Seq<Seq<char>>,
    path: Seq<SegView>,
)
    requires
        jv_wf(Jv::Obj(po)),
        jv_wf(Jv::Obj(pn)),
        forall|w1: int, w2: int| 0 <= w1 < w2 < keys.len() ==> #[trigger] keys[w1]
            != #[trigger] keys[w2],
    ensures
        forall|x: int|
            0 <= x < diff_obj(po, pn, keys, path).len() ==> {
                let cp = cpath(#[trigger] diff_obj(po, pn, keys, path)[x]);
                &&& crate::json_path::is_seg_prefix(path, cp)
                &&& cp.len() > path.len()
                &&& cp[path.len() as int] matches SegView::Key(kk) && keys.contains(kk)
            },
        distinct_paths(diff_obj(po, pn, keys, path)),
    decreases opt_height(Some(Jv::Obj(po))), 0int, keys.len(),
{
    if keys.len() > 0 {
        let k = keys[0];
        let q = path.push(SegView::Key(k));
        let og = opt_get(po, k);
        let ng = opt_get(pn, k);
        assert(opt_wf(og)) by {
            if obj_has(po, k) {
                lemma_obj_get_is_member(po, k);
                let u = choose|u: int| 0 <= u < po.len() && (#[trigger] po[u]).0 == k && po[u].1
                    == obj_get(po, k);
                lemma_wf_obj_val(po, u);
            }
        }
        assert(opt_wf(ng)) by {
            if obj_has(pn, k) {
                lemma_obj_get_is_member(pn, k);
                let u = choose|u: int| 0 <= u < pn.len() && (#[trigger] pn[u]).0 == k && pn[u].1
                    == obj_get(pn, k);
                lemma_wf_obj_val(pn, u);
            }
        }
        if obj_has(po, k) {
            lemma_obj_get_is_member(po, k);
            let u = choose|u: int| 0 <= u < po.len() && (#[trigger] po[u]).0 == k && po[u].1
                == obj_get(po, k);
            lemma_obj_val_height(po, u);
        }
        lemma_diff_spec_paths(og, ng, q);
        let child = diff_spec(og, ng, q);
        let tailkeys = keys.drop_first();
        assert(forall|w: int| 0 <= w < tailkeys.len() ==> #[trigger] tailkeys[w] == keys[w
            + 1]);
        lemma_diff_obj_paths(po, pn, tailkeys, path);
        let rest = diff_obj(po, pn, tailkeys, path);
        let cs = diff_obj(po, pn, keys, path);
        assert(cs == child + rest);
        assert(keys.contains(k)) by {
            assert(keys[0] == k);
        }
        assert forall|x: int| 0 <= x < cs.len() implies {
            let cp = cpath(#[trigger] cs[x]);
            &&& crate::json_path::is_seg_prefix(path, cp)
            &&& cp.len() > path.len()
            &&& cp[path.len() as int] matches SegView::Key(kk) && keys.contains(kk)
        } by {
            if x < child.len() {
                assert(cs[x] == child[x]);
                let cp = cpath(cs[x]);
                assert(crate::json_path::is_seg_prefix(q, cp));
                assert(q[path.len() as int] == SegView::Key(k));
                assert(cp[path.len() as int] == SegView::Key(k));
                lemma_prefix_trans(path, q, cp);
            } else {
                assert(cs[x] == rest[x - child.len()]);
                let cp = cpath(cs[x]);
                assert(cp[path.len() as int] matches SegView::Key(kk) && tailkeys.contains(
                    kk,
                ));
                let kk = cp[path.len() as int]->Key_0;
                let w = choose|w: int| 0 <= w < tailkeys.len() && #[trigger] tailkeys[w] == kk;
                assert(keys[w + 1] == kk);
                assert(keys.contains(kk));
            }
        }
        assert forall|i: int, j: int| 0 <= i < j < cs.len() implies cpath(#[trigger] cs[i])
            != cpath(#[trigger] cs[j]) by {
            if j < child.len() {
                assert(cs[i] == child[i] && cs[j] == child[j]);
            } else if i >= child.len() {
                assert(cs[i] == rest[i - child.len()] && cs[j] == rest[j - child.len()]);
            } else {
                assert(cs[i] == child[i] && cs[j] == rest[j - child.len()]);
                let pi = cpath(cs[i]);
                let pj = cpath(cs[j]);
                assert(crate::json_path::is_seg_prefix(q, pi));
                assert(pi[path.len() as int] == SegView::Key(k)) by {
                    assert(q[path.len() as int] == SegView::Key(k));
                }
                assert(pj[path.len() as int] matches SegView::Key(kk) && tailkeys.contains(
                    kk,
                ));
                let kk = pj[path.len() as int]->Key_0;
                let w = choose|w: int| 0 <= w < tailkeys.len() && #[trigger] tailkeys[w] == kk;
                assert(keys[w + 1] == kk);
                assert(k != kk);
            }
        }
    }
}

/// The changes for the positions from `i` on: each sits strictly under the
/// path, stepping through one of the positions, and no two share a path.
proof fn lemma_diff_arr_paths(ao: Seq<Jv>, an: Seq<Jv>, i: int, len: int, path: Seq<SegView>)
    requires
        jv_wf(Jv::Arr(ao)),
        jv_wf(Jv::Arr(an)),
        0 <= i,
    ensures
        forall|x: int|
            0 <= x < diff_arr(ao, an, i, len, path).len() ==> {
                let cp = cpath(#[trigger] diff_arr(ao, an, i, len, path)[x]);
                &&& crate::json_path::is_seg_prefix(path, cp)
                &&& cp.len() > path.len()
                &&& cp[path.len() as int] matches SegView::Index(w) && i <= w < len
            },
        distinct_paths(diff_arr(ao, an, i, len, path)),
    decreases opt_height(Some(Jv::Arr(ao))), 0int, len - i,
{
    if i < len {
        let q = path.push(SegView::Index(i as nat));
        let og = arr_get(ao, i);
        let ng = arr_get(an, i);
        assert(opt_wf(og) && opt_wf(ng)) by {
            if 0 <= i < ao.len() {
                lemma_wf_arr_elem(ao, i);
            }
            if 0 <= i < an.len() {
                lemma_wf_arr_elem(an, i);
            }
        }
        if 0 <= i < ao.len() {
            lemma_arr_elem_height(ao, i);
        }
        lemma_diff_spec_paths(og, ng, q);
        let child = diff_spec(og, ng, q);
        lemma_diff_arr_paths(ao, an, i + 1, len, path);
        let rest = diff_arr(ao, an, i + 1, len, path);
        let cs = diff_arr(ao, an, i, len, path);
        assert(cs == child + rest);
        assert forall|x: int| 0 <= x < cs.len() implies {
            let cp = cpath(#[trigger] cs[x]);
            &&& crate::json_path::is_seg_prefix(path, cp)
            &&& cp.len() > path.len()
            &&& cp[path.len() as int] matches SegView::Index(w) && i <= w < len
        } by {
            if x < child.len() {
                assert(cs[x] == child[x]);
                let cp = cpath(cs[x]);
                assert(crate::json_path::is_seg_prefix(q, cp));
                assert(q[path.len() as int] == SegView::Index(i as nat));
                assert(cp[path.len() as int] == SegView::Index(i as nat));
                lemma_prefix_trans(path, q, cp);
            } else {
                assert(cs[x] == rest[x - child.len()]);
            }
        }
        assert forall|x: int, y: int| 0 <= x < y < cs.len() implies cpath(#[trigger] cs[x])
            != cpath(#[trigger] cs[y]) by {
            if y < child.len() {
                assert(cs[x] == child[x] && cs[y] == child[y]);
            } else if x >= child.len() {
                assert(cs[x] == rest[x - child.len()] && cs[y] == rest[y - child.len()]);
            } else {
                assert(cs[x] == child[x] && cs[y] == rest[y - child.len()]);
                let px = cpath(cs[x]);
                let py = cpath(cs[y]);
                assert(crate::json_path::is_seg_prefix(q, px));
                assert(px[path.len() as int] == SegView::Index(i as nat)) by {
                    assert(q[path.len() as int] == SegView::Index(i as nat));
                }
                assert(py[path.len() as int] matches SegView::Index(w) && i + 1 <= w < len);
            }
        }
    }
}

/// Every change picked out by kind is one of the list's changes.
proof fn lemma_added_of_member(cs: Seq<ChangeV>, i: int)
    requires
        0 <= i < added_of(cs).len(),
    ensures
        exists|j: int| 0 <= j < cs.len() && #[trigger] cs[j] == added_of(cs)[i] && cs[j]
            is Added,
    decreases cs.len(),
{
    if cs.len() > 0 {
        let pre = cs.drop_last();
        assert(forall|w: int| 0 <= w < pre.len() ==> #[trigger] pre[w] == cs[w]);
        if cs.last() is Added && i == added_of(cs).len() - 1 {
            assert(cs[cs.len() - 1] == added_of(cs)[i]);
        } else {
            lemma_added_of_member(pre, i);
            let j = choose|j: int| 0 <= j < pre.len() && #[trigger] pre[j] == added_of(pre)[i]
                && pre[j] is Added;
            assert(cs[j] == added_of(cs)[i]);
        }
    }
}

proof fn lemma_removed_of_member(cs: Seq<ChangeV>, i: int)
    requires
        0 <= i < removed_of(cs).len(),
    ensures
        exists|j: int| 0 <= j < cs.len() && #[trigger] cs[j] == removed_of(cs)[i] && cs[j]
            is Removed,
    decreases cs.len(),
{
    if cs.len() > 0 {
        let pre = cs.drop_last();
        assert(forall|w: int| 0 <= w < pre.len() ==> #[trigger] pre[w] == cs[w]);
        if cs.last() is Removed && i == removed_of(cs).len() - 1 {
            assert(cs[cs.len() - 1] == removed_of(cs)[i]);
        } else {
            lemma_removed_of_member(pre, i);
            let j = choose|j: int| 0 <= j < pre.len() && #[trigger] pre[j] == removed_of(pre)[i]
                && pre[j] is Removed;
            assert(cs[j] == removed_of(cs)[i]);
        }
    }
}

proof fn lemma_modified_of_member(cs: Seq<ChangeV>, i: int)
    requires
        0 <= i < modified_of(cs).len(),
    ensures
        exists|j: int| 0 <= j < cs.len() && #[trigger] cs[j] == modified_of(cs)[i] && cs[j]
            is Modified,
    decreases cs.len(),
{
    if cs.len() > 0 {
        let pre = cs.drop_last();
        assert(forall|w: int| 0 <= w < pre.len() ==> #[trigger] pre[w] == cs[w]);
        if cs.last() is Modified && i == modified_of(cs).len() - 1 {
            assert(cs[cs.len() - 1] == modified_of(cs)[i]);
        } else {
            lemma_modified_of_member(pre, i);
            let j = choose|j: int| 0 <= j < pre.len() && #[trigger] pre[j] == modified_of(pre)[i] && pre[j] is Modified;
            assert(cs[j] == modified_of(cs)[i]);
        }
    }
}

/// Partition invariant: after a comparison of two well-formed documents, no
/// path appears in more than one of the added, removed and modified lists,
/// nor twice within any one of them.
pub proof fn lemma_diff_partition(a: Jv, b: Jv)
    requires
        jv_wf(a),
        jv_wf(b),
    ensures
        distinct_paths(diff_spec(Some(a), Some(b), Seq::empty())),
        ({
            let cs = diff_spec(Some(a), Some(b), Seq::empty());
            &&& forall|i: int, j: int| 0 <= i < added_of(cs).len() && 0 <= j < removed_of(
                cs,
            ).len() ==> cpath(#[trigger] added_of(cs)[i]) != cpath(#[trigger] removed_of(cs)[j])
            &&& forall|i: int, j: int| 0 <= i < added_of(cs).len() && 0 <= j < modified_of(
                cs,
            ).len() ==> cpath(#[trigger] added_of(cs)[i]) != cpath(
                #[trigger] modified_of(cs)[j],
            )
            &&& forall|i: int, j: int| 0 <= i < removed_of(cs).len() && 0 <= j < modified_of(
                cs,
            ).len() ==> cpath(#[trigger] removed_of(cs)[i]) != cpath(
                #[trigger] modified_of(cs)[j],
            )
        }),
{
    let cs = diff_spec(Some(a), Some(b), Seq::empty());
    lemma_diff_spec_paths(Some(a), Some(b), Seq::empty());
    assert forall|i: int, j: int| 0 <= i < added_of(cs).len() && 0 <= j < removed_of(cs).len()
        implies cpath(#[trigger] added_of(cs)[i]) != cpath(#[trigger] removed_of(cs)[j]) by {
        lemma_added_of_member(cs, i);
        lemma_removed_of_member(cs, j);
        let x = choose|x: int| 0 <= x < cs.len() && #[trigger] cs[x] == added_of(cs)[i] && cs[x]
            is Added;
        let y = choose|y: int| 0 <= y < cs.len() && #[trigger] cs[y] == removed_of(cs)[j]
            && cs[y] is Removed;
        assert(x != y);
    }
    assert forall|i: int, j: int| 0 <= i < added_of(cs).len() && 0 <= j < modified_of(cs).len()
        implies cpath(#[trigger] added_of(cs)[i]) != cpath(#[trigger] modified_of(cs)[j]) by {
        lemma_added_of_member(cs, i);
        lemma_modified_of_member(cs, j);
        let x = choose|x: int| 0 <= x < cs.len() && #[trigger] cs[x] == added_of(cs)[i] && cs[x]
            is Added;
        let y = choose|y: int| 0 <= y < cs.len() && #[trigger] cs[y] == modified_of(cs)[j]
            && cs[y] is Modified;
        assert(x != y);
    }
    assert forall|i: int, j: int| 0 <= i < removed_of(cs).len() && 0 <= j < modified_of(
        cs,
    ).len() implies cpath(#[trigger] removed_of(cs)[i]) != cpath(
        #[trigger] modified_of(cs)[j],
    ) by {
        lemma_removed_of_member(cs, i);
        lemma_modified_of_member(cs, j);
        let x = choose|x: int| 0 <= x < cs.len() && #[trigger] cs[x] == removed_of(cs)[i]
            && cs[x] is Removed;
        let y = choose|y: int| 0 <= y < cs.len() && #[trigger] cs[y] == modified_of(cs)[j]
            && cs[y] is Modified;
        assert(x != y);
    }
}
} // verus!
