//! Recursive sorting of object keys, for the key-sorted output switch.

use vstd::prelude::*;
use crate::strings::seq_lt;
use crate::strings::str_lt;
use crate::value::JsonValue;
use crate::value::Jv;
use crate::value::jv_height;
use crate::value::lemma_arr_elem_height;
use crate::value::lemma_obj_val_height;
use crate::value::lemma_elems_of;
use crate::value::lemma_pairs_of;

verus! {

/// Where a member stands when inserted before the first member with a
/// strictly greater key, keeping members already placed in order.
pub open spec fn insert_pair(s: Seq<(Seq<char>, Jv)>, p: (Seq<char>, Jv)) -> Seq<
    (Seq<char>, Jv),
>
    decreases s.len(),
{
    if s.len() == 0 {
        seq![p]
    } else if seq_lt(p.0, s[0].0) {
        seq![p] + s
    } else {
        seq![s[0]] + insert_pair(s.drop_first(), p)
    }
}

/// The first `i` members, each with its value sorted, insertion-sorted by
/// key.
pub open spec fn sort_pairs_upto(ps: Seq<(Seq<char>, Jv)>, i: int) -> Seq<(Seq<char>, Jv)>
    decreases jv_height(Jv::Obj(ps)), 0int, i,
    via sort_pairs_upto_dec
{
    if i <= 0 || i > ps.len() {
        Seq::empty()
    } else {
        insert_pair(sort_pairs_upto(ps, i - 1), (ps[i - 1].0, sort_jv(ps[i - 1].1)))
    }
}

#[via_fn]
proof fn sort_pairs_upto_dec(ps: Seq<(Seq<char>, Jv)>, i: int) {
    if 0 < i <= ps.len() {
        lemma_obj_val_height(ps, i - 1);
    }
}

/// The elements from position `i` on, each sorted.
pub open spec fn sort_elems_from(items: Seq<Jv>, i: int) -> Seq<Jv>
    decreases jv_height(Jv::Arr(items)), 0int, items.len() - i,
    via sort_elems_from_dec
{
    if i < 0 || i >= items.len() {
        Seq::empty()
    } else {
        seq![sort_jv(items[i])] + sort_elems_from(items, i + 1)
    }
}

#[via_fn]
proof fn sort_elems_from_dec(items: Seq<Jv>, i: int) {
    if 0 <= i < items.len() {
        lemma_arr_elem_height(items, i);
    }
}

/// The tree with every object's members sorted by key, at every level;
/// array order is kept.
pub open spec fn sort_jv(v: Jv) -> Jv
    decreases jv_height(v), 1int, 0int,
{
    match v {
        Jv::Arr(items) => Jv::Arr(sort_elems_from(items, 0)),
        Jv::Obj(ps) => Jv::Obj(sort_pairs_upto(ps, ps.len() as int)),
        _ => v,
    }
}

/// Sorts every object's keys alphabetically, at every level, as
/// [`sort_jv`] names it.
pub fn sort_json_value(v: &JsonValue) -> (r: JsonValue)
    ensures
        r@ == sort_jv(v@),
    decreases jv_height(v@), 1int,
{
    match v {
        JsonValue::Null => JsonValue::Null,
        JsonValue::Bool(b) => JsonValue::Bool(*b),
        JsonValue::Num(s) => JsonValue::Num(s.clone()),
        JsonValue::Str(s) => JsonValue::Str(s.clone()),
        JsonValue::Arr(items) => {
            proof {
                lemma_elems_of(items@);
            }
            let ghost iv = crate::value::elems_of(items@);
            let n = items.len();
            let mut out: Vec<JsonValue> = Vec::new();
            let mut i: usize = 0;
            proof {
                assert(crate::value::elems_of(out@) =~= Seq::<Jv>::empty());
            }
            while i < n
                invariant
                    i <= n,
                    n == items@.len(),
                    iv == crate::value::elems_of(items@),
                    v@ == Jv::Arr(iv),
                    iv.len() == n,
                    forall|k: int| 0 <= k < n ==> iv[k] == crate::value::jv_of(
                        #[trigger] items@[k],
                    ),
                    out@.len() == i,
                    forall|k: int| 0 <= k < i ==> crate::value::jv_of(#[trigger] out@[k])
                        == sort_jv(iv[k]),
                decreases n - i,
            {
                proof {
                    lemma_arr_elem_height(iv, i as int);
                }
                let s = sort_json_value(&items[i]);
                out.push(s);
                i = i + 1;
            }
            let r = JsonValue::Arr(out);
            proof {
                lemma_elems_of(out@);
                lemma_sort_elems_index(iv, 0);
                assert forall|k: int| 0 <= k < out@.len()
                    implies #[trigger] crate::value::elems_of(out@)[k] == sort_elems_from(
                    iv,
                    0,
                )[k] by {
                    assert(crate::value::elems_of(out@)[k] == crate::value::jv_of(out@[k]));
                    assert(sort_elems_from(iv, 0)[k] == sort_jv(iv[k]));
                }
                assert(crate::value::elems_of(out@) =~= sort_elems_from(iv, 0));
            }
            r
        },
        JsonValue::Obj(pairs) => {
            proof {
                lemma_pairs_of(pairs@);
            }
            let ghost pv = crate::value::pairs_of(pairs@);
            let n = pairs.len();
            let mut out: Vec<(String, JsonValue)> = Vec::new();
            let mut i: usize = 0;
            proof {
                assert(crate::value::pairs_of(out@) =~= Seq::<(Seq<char>, Jv)>::empty());
            }
            while i < n
                invariant
                    i <= n,
                    n == pairs@.len(),
                    pv == crate::value::pairs_of(pairs@),
                    v@ == Jv::Obj(pv),
                    pv.len() == n,
                    forall|k: int| 0 <= k < n ==> pv[k] == ((#[trigger] pairs@[k]).0@,
                    crate::value::jv_of(pairs@[k].1)),
                    crate::value::pairs_of(out@) == sort_pairs_upto(pv, i as int),
                decreases n - i,
            {
                proof {
                    lemma_obj_val_height(pv, i as int);
                }
                let k = pairs[i].0.clone();
                let sv = sort_json_value(&pairs[i].1);
                insert_pair_sorted(&mut out, k, sv);
                i = i + 1;
            }
            let r = JsonValue::Obj(out);
            proof {
                assert(sort_pairs_upto(pv, n as int) == crate::value::pairs_of(out@));
            }
            r
        },
    }
}

/// The sorted elements, position by position.
proof fn lemma_sort_elems_index(items: Seq<Jv>, i: int)
    requires
        0 <= i <= items.len(),
    ensures
        sort_elems_from(items, i).len() == items.len() - i,
        forall|k: int| 0 <= k < items.len() - i ==> #[trigger] sort_elems_from(items, i)[k]
            == sort_jv(items[i + k]),
    decreases items.len() - i,
{
    if i < items.len() {
        lemma_sort_elems_index(items, i + 1);
    }
}

/// Inserts a member before the first member with a strictly greater key.
fn insert_pair_sorted(out: &mut Vec<(String, JsonValue)>, key: String, val: JsonValue)
    ensures
        crate::value::pairs_of(final(out)@) == insert_pair(
            crate::value::pairs_of(old(out)@),
            (key@, val@),
        ),
{
    proof {
        lemma_pairs_of(old(out)@);
    }
    let n = out.len();
    let mut i: usize = 0;
    while i < n
        invariant
            i <= n,
            n == out@.len(),
            out@ == old(out)@,
            forall|w: int| 0 <= w < i ==> !seq_lt(key@, (#[trigger] out@[w]).0@),
        ensures
            i <= n,
            n == out@.len(),
            out@ == old(out)@,
            forall|w: int| 0 <= w < i ==> !seq_lt(key@, (#[trigger] out@[w]).0@),
            i < n ==> seq_lt(key@, out@[i as int].0@),
        decreases n - i,
    {
        if str_lt(key.as_str(), out[i].0.as_str()) {
            break;
        }
        i = i + 1;
    }
    out.insert(i, (key, val));
    proof {
        lemma_pairs_of(old(out)@);
        lemma_pairs_of(out@);
        assert forall|w: int| 0 <= w < i implies !seq_lt(
            key@,
            (#[trigger] crate::value::pairs_of(old(out)@)[w]).0,
        ) by {
            assert(crate::value::pairs_of(old(out)@)[w].0 == old(out)@[w].0@);
        }
        if (i as int) < old(out)@.len() {
            assert(crate::value::pairs_of(old(out)@)[i as int].0 == old(out)@[i as int].0@);
        }
        lemma_insert_pair_at(crate::value::pairs_of(old(out)@), (key@, val@), i as int);
        let ghost target = crate::value::pairs_of(old(out)@).insert(i as int, (key@, val@));
        assert forall|w: int| 0 <= w < out@.len()
            implies #[trigger] crate::value::pairs_of(out@)[w] == target[w] by {
            assert(crate::value::pairs_of(out@)[w] == (out@[w].0@, crate::value::jv_of(
                out@[w].1,
            )));
            if w < i {
                assert(out@[w] == old(out)@[w]);
                assert(crate::value::pairs_of(old(out)@)[w] == (old(out)@[w].0@,
                crate::value::jv_of(old(out)@[w].1)));
            } else if w > i {
                assert(out@[w] == old(out)@[w - 1]);
                assert(crate::value::pairs_of(old(out)@)[w - 1] == (old(out)@[w - 1].0@,
                crate::value::jv_of(old(out)@[w - 1].1)));
            }
        }
        assert(crate::value::pairs_of(out@) =~= target);
    }
}

/// Inserting before the first strictly greater key is what [`insert_pair`]
/// names.
proof fn lemma_insert_pair_at(s: Seq<(Seq<char>, Jv)>, p: (Seq<char>, Jv), i: int)
    requires
        0 <= i <= s.len(),
        forall|w: int| 0 <= w < i ==> !seq_lt(p.0, (#[trigger] s[w]).0),
        i < s.len() ==> seq_lt(p.0, s[i].0),
    ensures
        insert_pair(s, p) == s.insert(i, p),
    decreases s.len(),
{
    if s.len() == 0 {
        assert(insert_pair(s, p) =~= s.insert(0, p));
    } else if i == 0 {
        assert(insert_pair(s, p) =~= s.insert(0, p));
    } else {
        assert(!seq_lt(p.0, s[0].0));
        let tail = s.drop_first();
        assert(forall|w: int| 0 <= w < tail.len() ==> #[trigger] tail[w] == s[w + 1]);
        lemma_insert_pair_at(tail, p, i - 1);
        assert(insert_pair(s, p) == seq![s[0]] + tail.insert(i - 1, p));
        assert(seq![s[0]] + tail.insert(i - 1, p) =~= s.insert(i, p));
    }
}

} // verus!
