//! The JSON document model.
//!
//! A document is a tree of [`JsonValue`] nodes.  Object members keep their
//! insertion order; a well-formed object never repeats a key.  A number is
//! carried as its decimal rendering, so that two numbers are equal exactly
//! when their renderings coincide.
//!
//! In specifications a tree is abstracted as a [`Jv`], where strings become
//! `Seq<char>` and vectors become `Seq`.

use vstd::prelude::*;

verus! {

/// Specification-level JSON tree.
#[verifier::ext_equal]
pub enum Jv {
    Null,
    Bool(bool),
    Num(Seq<char>),
    Str(Seq<char>),
    Arr(Seq<Jv>),
    Obj(Seq<(Seq<char>, Jv)>),
}

/// A JSON document node.
#[derive(Debug, PartialEq)]
pub enum JsonValue {
    Null,
    Bool(bool),
    /// A number, held as its decimal rendering.
    Num(String),
    Str(String),
    Arr(Vec<JsonValue>),
    Obj(Vec<(String, JsonValue)>),
}

/// The abstraction of a sequence of array elements.
pub open spec fn elems_of(s: Seq<JsonValue>) -> Seq<Jv>
    decreases s,
{
    if s.len() == 0 {
        Seq::empty()
    } else {
        elems_of(s.drop_last()).push(jv_of(s.last()))
    }
}

/// The abstraction of a sequence of object members.
pub open spec fn pairs_of(s: Seq<(String, JsonValue)>) -> Seq<(Seq<char>, Jv)>
    decreases s,
{
    if s.len() == 0 {
        Seq::empty()
    } else {
        pairs_of(s.drop_last()).push((s.last().0@, jv_of(s.last().1)))
    }
}

/// The abstraction of one document node.
pub open spec fn jv_of(v: JsonValue) -> Jv
    decreases v,
{
    match v {
        JsonValue::Null => Jv::Null,
        JsonValue::Bool(b) => Jv::Bool(b),
        JsonValue::Num(s) => Jv::Num(s@),
        JsonValue::Str(s) => Jv::Str(s@),
        JsonValue::Arr(elems) => Jv::Arr(elems_of(elems@)),
        JsonValue::Obj(pairs) => Jv::Obj(pairs_of(pairs@)),
    }
}

impl View for JsonValue {
    type V = Jv;

    open spec fn view(&self) -> Jv {
        jv_of(*self)
    }
}

/// `elems_of` maps each element to its abstraction, position by position.
pub proof fn lemma_elems_of(s: Seq<JsonValue>)
    ensures
        elems_of(s).len() == s.len(),
        forall|i: int| 0 <= i < s.len() ==> elems_of(s)[i] == jv_of(#[trigger] s[i]),
    decreases s,
{
    if s.len() > 0 {
        lemma_elems_of(s.drop_last());
        assert(forall|i: int| 0 <= i < s.len() - 1 ==> s.drop_last()[i] == #[trigger] s[i]);
    }
}

/// `pairs_of` maps each member to its abstraction, position by position.
pub proof fn lemma_pairs_of(s: Seq<(String, JsonValue)>)
    ensures
        pairs_of(s).len() == s.len(),
        forall|i: int| 0 <= i < s.len() ==> pairs_of(s)[i]
            == ((#[trigger] s[i]).0@, jv_of(s[i].1)),
    decreases s,
{
    if s.len() > 0 {
        lemma_pairs_of(s.drop_last());
        assert(forall|i: int| 0 <= i < s.len() - 1 ==> s.drop_last()[i] == #[trigger] s[i]);
    }
}

/// One more element extends the abstraction by its view.
pub proof fn lemma_elems_of_push(s: Seq<JsonValue>, v: JsonValue)
    ensures
        elems_of(s.push(v)) == elems_of(s).push(jv_of(v)),
{
    assert(s.push(v).drop_last() =~= s);
    assert(s.push(v).last() == v);
}

/// One more member extends the abstraction by its view.
pub proof fn lemma_pairs_of_push(s: Seq<(String, JsonValue)>, p: (String, JsonValue))
    ensures
        pairs_of(s.push(p)) == pairs_of(s).push((p.0@, jv_of(p.1))),
{
    assert(s.push(p).drop_last() =~= s);
    assert(s.push(p).last() == p);
}

/// Height of a tree; containers stand strictly above their children.
pub open spec fn jv_height(v: Jv) -> nat
    decreases v,
{
    match v {
        Jv::Arr(s) => 1 + arr_height(s),
        Jv::Obj(ps) => 1 + obj_height(ps),
        _ => 0,
    }
}

pub open spec fn arr_height(s: Seq<Jv>) -> nat
    decreases s,
{
    if s.len() == 0 {
        0
    } else if jv_height(s.last()) > arr_height(s.drop_last()) {
        jv_height(s.last())
    } else {
        arr_height(s.drop_last())
    }
}

pub open spec fn obj_height(ps: Seq<(Seq<char>, Jv)>) -> nat
    decreases ps,
{
    if ps.len() == 0 {
        0
    } else if jv_height(ps.last().1) > obj_height(ps.drop_last()) {
        jv_height(ps.last().1)
    } else {
        obj_height(ps.drop_last())
    }
}

/// An array element sits strictly below the array.
pub proof fn lemma_arr_elem_height(s: Seq<Jv>, i: int)
    requires
        0 <= i < s.len(),
    ensures
        jv_height(s[i]) < jv_height(Jv::Arr(s)),
    decreases s,
{
    if i == s.len() - 1 {
        assert(s[i] == s.last());
    } else {
        lemma_arr_elem_height(s.drop_last(), i);
        assert(s.drop_last()[i] == s[i]);
    }
}

/// An object member's value sits strictly below the object.
pub proof fn lemma_obj_val_height(ps: Seq<(Seq<char>, Jv)>, i: int)
    requires
        0 <= i < ps.len(),
    ensures
        jv_height(ps[i].1) < jv_height(Jv::Obj(ps)),
    decreases ps,
{
    if i == ps.len() - 1 {
        assert(ps[i] == ps.last());
    } else {
        lemma_obj_val_height(ps.drop_last(), i);
        assert(ps.drop_last()[i] == ps[i]);
    }
}

/// No key occurs twice among the members.
pub open spec fn keys_unique(ps: Seq<(Seq<char>, Jv)>) -> bool {
    forall|i: int, j: int| 0 <= i < j < ps.len() ==> (#[trigger] ps[i]).0 != (#[trigger] ps[j]).0
}

/// Well-formedness: every object in the tree has pairwise distinct keys.
pub open spec fn jv_wf(v: Jv) -> bool
    decreases v,
{
    match v {
        Jv::Arr(s) => forall|i: int| 0 <= i < s.len() ==> jv_wf(#[trigger] s[i]),
        Jv::Obj(ps) => keys_unique(ps) && (forall|i: int|
            0 <= i < ps.len() ==> jv_wf((#[trigger] ps[i]).1)),
        _ => true,
    }
}

/// Whether some member carries the key.
pub open spec fn obj_has(ps: Seq<(Seq<char>, Jv)>, k: Seq<char>) -> bool {
    exists|i: int| 0 <= i < ps.len() && (#[trigger] ps[i]).0 == k
}

/// The value of the first member carrying the key, `Null` when there is none.
pub open spec fn obj_get(ps: Seq<(Seq<char>, Jv)>, k: Seq<char>) -> Jv
    decreases ps,
{
    if ps.len() == 0 {
        Jv::Null
    } else if ps[0].0 == k {
        ps[0].1
    } else {
        obj_get(ps.drop_first(), k)
    }
}

/// With distinct keys, looking a member's key up returns that member's value.
pub proof fn lemma_obj_get_at(ps: Seq<(Seq<char>, Jv)>, i: int)
    requires
        keys_unique(ps),
        0 <= i < ps.len(),
    ensures
        obj_has(ps, ps[i].0),
        obj_get(ps, ps[i].0) == ps[i].1,
    decreases ps,
{
    if i > 0 {
        assert(ps[0].0 != ps[i].0);
        assert(keys_unique(ps.drop_first())) by {
            assert(forall|a: int, b: int| 0 <= a < b < ps.len() - 1
                ==> (#[trigger] ps.drop_first()[a]).0 == ps[a + 1].0
                    && (#[trigger] ps.drop_first()[b]).0 == ps[b + 1].0);
        }
        lemma_obj_get_at(ps.drop_first(), i - 1);
        assert(ps.drop_first()[i - 1] == ps[i]);
    }
}

/// A found value is one of the member values.
pub proof fn lemma_obj_get_is_member(ps: Seq<(Seq<char>, Jv)>, k: Seq<char>)
    requires
        obj_has(ps, k),
    ensures
        exists|i: int| 0 <= i < ps.len() && (#[trigger] ps[i]).0 == k && ps[i].1 == obj_get(
            ps,
            k,
        ),
    decreases ps,
{
    if ps.len() > 0 && ps[0].0 != k {
        assert(forall|i: int| 0 <= i < ps.len() - 1
            ==> #[trigger] ps.drop_first()[i] == ps[i + 1]);
        let w = choose|w: int| 0 <= w < ps.len() && (#[trigger] ps[w]).0 == k;
        assert(ps.drop_first()[w - 1].0 == k);
        lemma_obj_get_is_member(ps.drop_first(), k);
        let j = choose|j: int| 0 <= j < ps.drop_first().len()
            && (#[trigger] ps.drop_first()[j]).0 == k
            && ps.drop_first()[j].1 == obj_get(ps.drop_first(), k);
        assert(ps[j + 1].0 == k && ps[j + 1].1 == obj_get(ps, k));
    }
}

/// Deep equality of two trees: scalars by value, numbers and strings by their
/// characters, arrays position by position, objects as key-value maps with the
/// member order left out of account.
pub open spec fn jv_eq(a: Jv, b: Jv) -> bool
    decreases a,
{
    match (a, b) {
        (Jv::Null, Jv::Null) => true,
        (Jv::Bool(x), Jv::Bool(y)) => x == y,
        (Jv::Num(x), Jv::Num(y)) => x == y,
        (Jv::Str(x), Jv::Str(y)) => x == y,
        (Jv::Arr(x), Jv::Arr(y)) => x.len() == y.len() && (forall|i: int|
            0 <= i < x.len() ==> jv_eq(#[trigger] x[i], y[i])),
        (Jv::Obj(x), Jv::Obj(y)) => (forall|i: int|
            0 <= i < x.len() ==> obj_has(y, (#[trigger] x[i]).0) && jv_eq(
                x[i].1,
                obj_get(y, x[i].0),
            )) && (forall|j: int| 0 <= j < y.len() ==> obj_has(x, (#[trigger] y[j]).0)),
        _ => false,
    }
}

/// On well-formed trees, deep equality is reflexive.
pub proof fn lemma_jv_eq_refl(a: Jv)
    requires
        jv_wf(a),
    ensures
        jv_eq(a, a),
    decreases a,
{
    match a {
        Jv::Arr(x) => {
            assert forall|i: int| 0 <= i < x.len() implies jv_eq(#[trigger] x[i], x[i]) by {
                lemma_jv_eq_refl(x[i]);
            }
        },
        Jv::Obj(x) => {
            assert forall|i: int| 0 <= i < x.len() implies obj_has(x, (#[trigger] x[i]).0)
                && jv_eq(x[i].1, obj_get(x, x[i].0)) by {
                lemma_obj_get_at(x, i);
                lemma_jv_eq_refl(x[i].1);
            }
        },
        _ => {},
    }
}

impl Clone for JsonValue {
    /// A clone abstracts to the same tree.
    fn clone(&self) -> (res: Self)
        ensures
            res@ == self@,
        decreases jv_height(self@),
    {
        match self {
            JsonValue::Null => JsonValue::Null,
            JsonValue::Bool(b) => JsonValue::Bool(*b),
            JsonValue::Num(s) => JsonValue::Num(s.clone()),
            JsonValue::Str(s) => JsonValue::Str(s.clone()),
            JsonValue::Arr(elems) => {
                let mut out: Vec<JsonValue> = Vec::new();
                let mut i: usize = 0;
                proof {
                    lemma_elems_of(elems@);
                }
                while i < elems.len()
                    invariant
                        i <= elems.len(),
                        out@.len() == i,
                        jv_of(*self) == Jv::Arr(elems_of(elems@)),
                        elems_of(elems@).len() == elems@.len(),
                        forall|k: int| 0 <= k < elems@.len()
                            ==> elems_of(elems@)[k] == jv_of(#[trigger] elems@[k]),
                        forall|k: int| 0 <= k < i ==> jv_of(#[trigger] out@[k])
                            == elems_of(elems@)[k],
                    decreases elems.len() - i,
                {
                    proof {
                        lemma_arr_elem_height(elems_of(elems@), i as int);
                    }
                    let c = elems[i].clone();
                    out.push(c);
                    i = i + 1;
                }
                let r = JsonValue::Arr(out);
                proof {
                    lemma_elems_of(out@);
                    assert forall|k: int| 0 <= k < out@.len()
                        implies #[trigger] elems_of(out@)[k] == elems_of(elems@)[k] by {
                        assert(elems_of(out@)[k] == jv_of(out@[k]));
                    }
                    assert(elems_of(out@) =~= elems_of(elems@));
                }
                r
            },
            JsonValue::Obj(pairs) => {
                let mut out: Vec<(String, JsonValue)> = Vec::new();
                let mut i: usize = 0;
                proof {
                    lemma_pairs_of(pairs@);
                }
                while i < pairs.len()
                    invariant
                        i <= pairs.len(),
                        out@.len() == i,
                        jv_of(*self) == Jv::Obj(pairs_of(pairs@)),
                        pairs_of(pairs@).len() == pairs@.len(),
                        forall|k: int| 0 <= k < pairs@.len() ==> pairs_of(pairs@)[k]
                            == ((#[trigger] pairs@[k]).0@, jv_of(pairs@[k].1)),
                        forall|k: int| 0 <= k < i ==> ((#[trigger] out@[k]).0@, jv_of(out@[k].1))
                            == pairs_of(pairs@)[k],
                    decreases pairs.len() - i,
                {
                    proof {
                        lemma_obj_val_height(pairs_of(pairs@), i as int);
                    }
                    let k = pairs[i].0.clone();
                    let v = pairs[i].1.clone();
                    out.push((k, v));
                    i = i + 1;
                }
                let r = JsonValue::Obj(out);
                proof {
                    lemma_pairs_of(out@);
                    assert forall|k: int| 0 <= k < out@.len()
                        implies #[trigger] pairs_of(out@)[k] == pairs_of(pairs@)[k] by {
                        assert(pairs_of(out@)[k] == (out@[k].0@, jv_of(out@[k].1)));
                    }
                    assert(pairs_of(out@) =~= pairs_of(pairs@));
                }
                r
            },
        }
    }
}

/// Finds the first member of `pairs` whose key equals `key`.
pub fn obj_find(pairs: &Vec<(String, JsonValue)>, key: &str) -> (r: Option<usize>)
    ensures
        match r {
            Some(i) => i < pairs@.len() && pairs@[i as int].0@ == key@ && obj_has(
                pairs_of(pairs@),
                key@,
            ) && obj_get(pairs_of(pairs@), key@) == jv_of(pairs@[i as int].1)
                && (forall|j: int| 0 <= j < i ==> (#[trigger] pairs@[j]).0@ != key@),
            None => !obj_has(pairs_of(pairs@), key@),
        },
{
    proof {
        lemma_pairs_of(pairs@);
    }
    let n = pairs.len();
    let mut i: usize = 0;
    while i < n
        invariant
            i <= n,
            n == pairs@.len(),
            pairs_of(pairs@).len() == pairs@.len(),
            forall|k: int| 0 <= k < pairs@.len() ==> pairs_of(pairs@)[k]
                == ((#[trigger] pairs@[k]).0@, jv_of(pairs@[k].1)),
            forall|j: int| 0 <= j < i ==> (#[trigger] pairs@[j]).0@ != key@,
        decreases n - i,
    {
        if str_eq(pairs[i].0.as_str(), key) {
            proof {
                assert forall|j: int| 0 <= j < i
                    implies (#[trigger] pairs_of(pairs@)[j]).0 != key@ by {
                    assert(pairs_of(pairs@)[j] == (pairs@[j].0@, jv_of(pairs@[j].1)));
                }
                lemma_first_match(pairs_of(pairs@), key@, i as int);
            }
            return Some(i);
        }
        i = i + 1;
    }
    proof {
        assert forall|j: int| 0 <= j < pairs_of(pairs@).len()
            implies (#[trigger] pairs_of(pairs@)[j]).0 != key@ by {
            assert(pairs_of(pairs@)[j].0 == pairs@[j].0@);
        }
    }
    None
}

/// With no earlier match, the lookup stops at position `i`.
proof fn lemma_first_match(ps: Seq<(Seq<char>, Jv)>, k: Seq<char>, i: int)
    requires
        0 <= i < ps.len(),
        ps[i].0 == k,
        forall|j: int| 0 <= j < i ==> (#[trigger] ps[j]).0 != k,
    ensures
        obj_has(ps, k),
        obj_get(ps, k) == ps[i].1,
    decreases i,
{
    if i > 0 {
        assert(forall|j: int| 0 <= j < ps.len() - 1
            ==> #[trigger] ps.drop_first()[j] == ps[j + 1]);
        lemma_first_match(ps.drop_first(), k, i - 1);
    }
}

/// Decides whether two strings hold the same characters.
pub fn str_eq(a: &str, b: &str) -> (r: bool)
    ensures
        r == (a@ == b@),
{
    let x = a.to_owned();
    let y = b.to_owned();
    x == y
}

/// Decides deep equality of two trees.
pub fn value_eq(a: &JsonValue, b: &JsonValue) -> (r: bool)
    ensures
        r == jv_eq(a@, b@),
    decreases jv_height(a@),
{
    match (a, b) {
        (JsonValue::Null, JsonValue::Null) => true,
        (JsonValue::Bool(x), JsonValue::Bool(y)) => x == y,
        (JsonValue::Num(x), JsonValue::Num(y)) => str_eq(x.as_str(), y.as_str()),
        (JsonValue::Str(x), JsonValue::Str(y)) => str_eq(x.as_str(), y.as_str()),
        (JsonValue::Arr(x), JsonValue::Arr(y)) => {
            proof {
                lemma_elems_of(x@);
                lemma_elems_of(y@);
            }
            if x.len() != y.len() {
                return false;
            }
            let n = x.len();
            let mut i: usize = 0;
            while i < n
                invariant
                    i <= n,
                    n == x@.len() && n == y@.len(),
                    a@ == Jv::Arr(elems_of(x@)) && b@ == Jv::Arr(elems_of(y@)),
                    elems_of(x@).len() == n && elems_of(y@).len() == n,
                    forall|k: int| 0 <= k < n
                        ==> elems_of(x@)[k] == jv_of(#[trigger] x@[k]),
                    forall|k: int| 0 <= k < n
                        ==> elems_of(y@)[k] == jv_of(#[trigger] y@[k]),
                    forall|k: int| 0 <= k < i ==> jv_eq(
                        #[trigger] elems_of(x@)[k],
                        elems_of(y@)[k],
                    ),
                decreases n - i,
            {
                proof {
                    lemma_arr_elem_height(elems_of(x@), i as int);
                }
                if !value_eq(&x[i], &y[i]) {
                    return false;
                }
                i = i + 1;
            }
            true
        },
        (JsonValue::Obj(x), JsonValue::Obj(y)) => {
            proof {
                lemma_pairs_of(x@);
                lemma_pairs_of(y@);
            }
            let n = x.len();
            let mut i: usize = 0;
            while i < n
                invariant
                    i <= n,
                    n == x@.len(),
                    a@ == Jv::Obj(pairs_of(x@)) && b@ == Jv::Obj(pairs_of(y@)),
                    pairs_of(x@).len() == n,
                    pairs_of(y@).len() == y@.len(),
                    forall|k: int| 0 <= k < n ==> pairs_of(x@)[k]
                        == ((#[trigger] x@[k]).0@, jv_of(x@[k].1)),
                    forall|k: int| 0 <= k < y@.len() ==> pairs_of(y@)[k]
                        == ((#[trigger] y@[k]).0@, jv_of(y@[k].1)),
                    forall|k: int| 0 <= k < i ==> obj_has(
                        pairs_of(y@),
                        (#[trigger] pairs_of(x@)[k]).0,
                    ) && jv_eq(pairs_of(x@)[k].1, obj_get(pairs_of(y@), pairs_of(x@)[k].0)),
                decreases n - i,
            {
                match obj_find(y, x[i].0.as_str()) {
                    Some(_) => {
                        proof {
                            lemma_obj_val_height(pairs_of(x@), i as int);
                        }
                        let found = obj_lookup(y, x[i].0.as_str());
                        if !value_eq(&x[i].1, found) {
                            return false;
                        }
                    },
                    None => {
                        return false;
                    },
                }
                i = i + 1;
            }
            let m = y.len();
            let mut j: usize = 0;
            while j < m
                invariant
                    j <= m,
                    m == y@.len(),
                    n == x@.len(),
                    a@ == Jv::Obj(pairs_of(x@)) && b@ == Jv::Obj(pairs_of(y@)),
                    pairs_of(x@).len() == n,
                    pairs_of(y@).len() == m,
                    forall|k: int| 0 <= k < n ==> pairs_of(x@)[k]
                        == ((#[trigger] x@[k]).0@, jv_of(x@[k].1)),
                    forall|k: int| 0 <= k < m ==> pairs_of(y@)[k]
                        == ((#[trigger] y@[k]).0@, jv_of(y@[k].1)),
                    forall|k: int| 0 <= k < n ==> obj_has(
                        pairs_of(y@),
                        (#[trigger] pairs_of(x@)[k]).0,
                    ) && jv_eq(pairs_of(x@)[k].1, obj_get(pairs_of(y@), pairs_of(x@)[k].0)),
                    forall|k: int| 0 <= k < j ==> obj_has(
                        pairs_of(x@),
                        (#[trigger] pairs_of(y@)[k]).0,
                    ),
                decreases m - j,
            {
                match obj_find(x, y[j].0.as_str()) {
                    Some(_) => {},
                    None => {
                        return false;
                    },
                }
                j = j + 1;
            }
            true
        },
        _ => {
            proof {
                lemma_mixed_not_eq(a@, b@);
            }
            false
        },
    }
}

/// Returns a reference to the value of the first member carrying the key.
fn obj_lookup<'a>(pairs: &'a Vec<(String, JsonValue)>, key: &str) -> (r: &'a JsonValue)
    requires
        obj_has(pairs_of(pairs@), key@),
    ensures
        r@ == obj_get(pairs_of(pairs@), key@),
{
    proof {
        lemma_pairs_of(pairs@);
    }
    let n = pairs.len();
    let mut i: usize = 0;
    loop
        invariant
            i <= n,
            n == pairs@.len(),
            obj_has(pairs_of(pairs@), key@),
            pairs_of(pairs@).len() == pairs@.len(),
            forall|k: int| 0 <= k < pairs@.len() ==> pairs_of(pairs@)[k]
                == ((#[trigger] pairs@[k]).0@, jv_of(pairs@[k].1)),
            forall|j: int| 0 <= j < i ==> (#[trigger] pairs@[j]).0@ != key@,
        decreases n - i,
    {
        if i >= n {
            proof {
                let w = choose|w: int| 0 <= w < pairs_of(pairs@).len()
                    && (#[trigger] pairs_of(pairs@)[w]).0 == key@;
                assert(pairs@[w].0@ == key@);
                assert(false);
            }
            return &pairs[0].1;
        }
        if str_eq(pairs[i].0.as_str(), key) {
            proof {
                assert forall|j: int| 0 <= j < i
                    implies (#[trigger] pairs_of(pairs@)[j]).0 != key@ by {
                    assert(pairs_of(pairs@)[j] == (pairs@[j].0@, jv_of(pairs@[j].1)));
                }
                lemma_first_match(pairs_of(pairs@), key@, i as int);
            }
            return &pairs[i].1;
        }
        i = i + 1;
    }
}

/// Trees of different kinds are never deeply equal.
proof fn lemma_mixed_not_eq(a: Jv, b: Jv)
    requires
        !(a is Null && b is Null),
        !(a is Bool && b is Bool),
        !(a is Num && b is Num),
        !(a is Str && b is Str),
        !(a is Arr && b is Arr),
        !(a is Obj && b is Obj),
    ensures
        !jv_eq(a, b),
{
}

/// Decides well-formedness: every object in the tree has pairwise distinct
/// keys.
pub fn well_formed(v: &JsonValue) -> (r: bool)
    ensures
        r == jv_wf(v@),
    decreases jv_height(v@), 1int,
{
    match v {
        JsonValue::Arr(items) => {
            proof {
                lemma_elems_of(items@);
                assert(v@->Arr_0 == elems_of(items@));
            }
            let ghost iv = elems_of(items@);
            let n = items.len();
            let mut i: usize = 0;
            while i < n
                invariant
                    i <= n,
                    n == items@.len(),
                    iv == elems_of(items@),
                    v@ == Jv::Arr(iv),
                    iv.len() == n,
                    forall|k: int| 0 <= k < n ==> iv[k] == jv_of(#[trigger] items@[k]),
                    forall|k: int| 0 <= k < i ==> jv_wf(#[trigger] iv[k]),
                decreases n - i,
            {
                proof {
                    lemma_arr_elem_height(iv, i as int);
                }
                if !well_formed(&items[i]) {
                    proof {
                        assert(v@->Arr_0 == iv);
                    }
                    return false;
                }
                i = i + 1;
            }
            proof {
                assert(v@->Arr_0 == iv);
            }
            true
        },
        JsonValue::Obj(pairs) => {
            proof {
                lemma_pairs_of(pairs@);
                assert(v@->Obj_0 == pairs_of(pairs@));
            }
            let ghost pv = pairs_of(pairs@);
            let n = pairs.len();
            let mut i: usize = 0;
            while i < n
                invariant
                    i <= n,
                    n == pairs@.len(),
                    pv == pairs_of(pairs@),
                    v@ == Jv::Obj(pv),
                    pv.len() == n,
                    forall|k: int| 0 <= k < n ==> pv[k] == ((#[trigger] pairs@[k]).0@, jv_of(
                        pairs@[k].1,
                    )),
                    forall|a: int, b: int| 0 <= a < b < n && a < i ==> (#[trigger] pv[a]).0
                        != (#[trigger] pv[b]).0,
                    forall|k: int| 0 <= k < i ==> jv_wf((#[trigger] pv[k]).1),
                decreases n - i,
            {
                let mut j: usize = i + 1;
                while j < n
                    invariant
                        i < j <= n,
                        i < n,
                        n == pairs@.len(),
                        pv == pairs_of(pairs@),
                        v@ == Jv::Obj(pv),
                        pv.len() == n,
                        forall|k: int| 0 <= k < n ==> pv[k] == ((#[trigger] pairs@[k]).0@,
                        jv_of(pairs@[k].1)),
                        forall|b: int| i < b < j ==> (#[trigger] pv[b]).0 != pv[i as int].0,
                    decreases n - j,
                {
                    if str_eq(pairs[i].0.as_str(), pairs[j].0.as_str()) {
                        proof {
                            assert(pv[i as int].0 == pv[j as int].0);
                            assert(v@ == Jv::Obj(pairs_of(pairs@)));
                            assert(v@->Obj_0 == pv);
                            assert(!keys_unique(pv));
                        }
                        return false;
                    }
                    j = j + 1;
                }
                proof {
                    lemma_obj_val_height(pv, i as int);
                }
                if !well_formed(&pairs[i].1) {
                    proof {
                        assert(v@->Obj_0 == pv);
                    }
                    return false;
                }
                i = i + 1;
            }
            proof {
                assert(v@->Obj_0 == pv);
                assert(keys_unique(pv));
            }
            true
        },
        _ => true,
    }
}

} // verus!
