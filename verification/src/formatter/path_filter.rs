//! String-path utilities over documents: reading a value out of a nested
//! path in dot notation, writing a value in at such a path, and the small
//! scanners both lean on.
//!
//! These work on raw path text, not on typed paths; a whole path that
//! happens to be a single key of a flat object is looked up as that key
//! first, so keys holding dots keep working.

use vstd::prelude::*;
use crate::strings::all_digits;
use crate::strings::digits_val;
use crate::strings::is_digit;
use crate::strings::lemma_digits_val_push;
use crate::strings::push_char;
use crate::strings::str_chars;
use crate::value::JsonValue;
use crate::value::Jv;
use crate::value::jv_of;
use crate::value::lemma_pairs_of;
use crate::value::lemma_elems_of;
use crate::value::obj_find;
use crate::value::obj_get;
use crate::value::obj_has;
use crate::value::pairs_of;
use crate::value::elems_of;

verus! {

/// The first position at or after `i` holding `c`, or the length.
pub open spec fn find_from(s: Seq<char>, i: int, c: char) -> int
    decreases s.len() - i,
{
    if i < 0 || i >= s.len() {
        s.len() as int
    } else if s[i] == c {
        i
    } else {
        find_from(s, i + 1, c)
    }
}

/// Bounds and meaning of [`find_from`].
pub proof fn lemma_find_from(s: Seq<char>, i: int, c: char)
    requires
        0 <= i <= s.len(),
    ensures
        i <= find_from(s, i, c) <= s.len(),
        find_from(s, i, c) < s.len() ==> s[find_from(s, i, c)] == c,
        forall|w: int| i <= w < find_from(s, i, c) ==> (#[trigger] s[w]) != c,
    decreases s.len() - i,
{
    if i < s.len() && s[i] != c {
        lemma_find_from(s, i + 1, c);
    }
}

/// Whether `c` carries the Unicode white-space property, the set `trim`
/// strips.
pub open spec fn is_white(c: char) -> bool {
    ||| c == ' '
    ||| c == '\t'
    ||| c == '\n'
    ||| c == '\r'
    ||| c == '\u{b}'
    ||| c == '\u{c}'
    ||| c == '\u{85}'
    ||| c == '\u{a0}'
    ||| c == '\u{1680}'
    ||| ('\u{2000}' <= c && c <= '\u{200a}')
    ||| c == '\u{2028}'
    ||| c == '\u{2029}'
    ||| c == '\u{202f}'
    ||| c == '\u{205f}'
    ||| c == '\u{3000}'
}

/// The first position at or after `i` holding something other than white
/// space, or the length.
pub open spec fn skip_white(s: Seq<char>, i: int) -> int
    decreases s.len() - i,
{
    if i < 0 || i >= s.len() {
        s.len() as int
    } else if is_white(s[i]) {
        skip_white(s, i + 1)
    } else {
        i
    }
}

/// One past the last non-white position before `e`, or zero.
pub open spec fn rskip_white(s: Seq<char>, e: int) -> int
    decreases e,
{
    if e <= 0 || e > s.len() {
        0
    } else if is_white(s[e - 1]) {
        rskip_white(s, e - 1)
    } else {
        e
    }
}

/// The input with its leading and trailing white space stripped.
pub open spec fn trimmed(s: Seq<char>) -> Seq<char> {
    let a = skip_white(s, 0);
    let b = rskip_white(s, s.len() as int);
    if a < b {
        s.subrange(a, b)
    } else {
        Seq::empty()
    }
}

/// What [`parse_array_index`] yields: the index read out of a leading
/// bracket group, zero where none can be read, and the text after the
/// group, a separating dot dropped.
pub open spec fn pai_spec(s: Seq<char>) -> (nat, Seq<char>) {
    if !(s.len() > 0 && s[0] == '[') {
        (0nat, s)
    } else {
        let e = find_from(s, 0, ']');
        if e >= s.len() {
            (0nat, s)
        } else {
            let idx = s.subrange(1, e);
            let v: nat = if idx.len() > 0 && all_digits(idx) && digits_val(idx) <= usize::MAX {
                digits_val(idx)
            } else {
                0
            };
            let rest = if e + 1 < s.len() && s[e + 1] == '.' {
                s.subrange(e + 2, s.len() as int)
            } else {
                s.subrange(e + 1, s.len() as int)
            };
            (v, rest)
        }
    }
}

/// What [`parse_first_segment`] yields: the first segment's text, whether
/// it is an array index, and the remaining text.
pub open spec fn pfs_spec(s: Seq<char>) -> (Seq<char>, bool, Seq<char>) {
    let len = s.len() as int;
    let e0 = find_from(s, 0, ']');
    let t = if s.len() > 0 && s[0] == '[' && e0 < len {
        trimmed(s.subrange(1, e0))
    } else {
        Seq::empty()
    };
    if s.len() > 0 && s[0] == '[' && e0 < len && t.len() > 0 && all_digits(t) {
        let after = s.subrange(e0 + 1, len);
        let rest = if after.len() > 0 && after[0] == '.' {
            after.drop_first()
        } else {
            after
        };
        (t, true, rest)
    } else {
        let b = find_from(s, 0, '[');
        if b < len && e0 < len {
            let after = s.subrange(e0 + 1, len);
            let rest = if after.len() > 0 {
                if after[0] == '.' {
                    after.drop_first()
                } else {
                    after
                }
            } else {
                Seq::empty()
            };
            (s.subrange(0, b), false, rest)
        } else {
            let d = find_from(s, 0, '.');
            if d < len {
                (s.subrange(0, d), false, s.subrange(d + 1, len))
            } else {
                (s, false, Seq::empty())
            }
        }
    }
}

/// The remaining text of a nonempty path is strictly shorter.
pub proof fn lemma_pfs_shorter(s: Seq<char>)
    requires
        s.len() > 0,
    ensures
        pfs_spec(s).2.len() < s.len(),
{
    lemma_find_from(s, 0, ']');
    lemma_find_from(s, 0, '[');
    lemma_find_from(s, 0, '.');
}

/// The remaining text never grows.
pub proof fn lemma_pai_no_longer(s: Seq<char>)
    ensures
        pai_spec(s).1.len() <= s.len(),
{
    if s.len() > 0 && s[0] == '[' {
        lemma_find_from(s, 0, ']');
    }
}

/// What [`get_value_at_path`] yields for a document and a path text.
pub open spec fn get_value_spec(v: Jv, path: Seq<char>) -> Option<Jv>
    decreases path.len(),
    via get_value_spec_dec
{
    if path.len() == 0 {
        Some(v)
    } else if v is Obj && obj_has(v->Obj_0, path) {
        Some(obj_get(v->Obj_0, path))
    } else {
        let len = path.len() as int;
        let d = find_from(path, 0, '.');
        if d < len {
            let key = path.subrange(0, d);
            let rest = path.subrange(d + 1, len);
            let b = find_from(key, 0, '[');
            if b < key.len() {
                let an = key.subrange(0, b);
                let idx = pai_spec(key.subrange(b, key.len() as int)).0;
                if v is Obj && obj_has(v->Obj_0, an) && obj_get(v->Obj_0, an) is Arr && idx
                    < obj_get(v->Obj_0, an)->Arr_0.len() {
                    get_value_spec(obj_get(v->Obj_0, an)->Arr_0[idx as int], rest)
                } else {
                    None
                }
            } else {
                if v is Obj && obj_has(v->Obj_0, key) {
                    get_value_spec(obj_get(v->Obj_0, key), rest)
                } else {
                    None
                }
            }
        } else {
            let b = find_from(path, 0, '[');
            if b < len {
                let an = path.subrange(0, b);
                let idx = pai_spec(path.subrange(b, len)).0;
                if v is Obj && obj_has(v->Obj_0, an) && obj_get(v->Obj_0, an) is Arr && idx
                    < obj_get(v->Obj_0, an)->Arr_0.len() {
                    Some(obj_get(v->Obj_0, an)->Arr_0[idx as int])
                } else {
                    None
                }
            } else {
                if v is Obj && obj_has(v->Obj_0, path) {
                    Some(obj_get(v->Obj_0, path))
                } else {
                    None
                }
            }
        }
    }
}

#[via_fn]
proof fn get_value_spec_dec(v: Jv, path: Seq<char>) {
    if path.len() > 0 {
        lemma_find_from(path, 0, '.');
    }
}

/// Pads the array with nulls until position `index` exists.
pub open spec fn pad_nulls(s: Seq<Jv>, index: int) -> Seq<Jv>
    decreases index + 1 - s.len(),
{
    if s.len() > index {
        s
    } else {
        pad_nulls(s.push(Jv::Null), index)
    }
}

/// The members with the member under `k` set to `v`: replaced in place when
/// the key exists, appended otherwise.
pub open spec fn obj_set(ps: Seq<(Seq<char>, Jv)>, k: Seq<char>, v: Jv) -> Seq<
    (Seq<char>, Jv),
>
    decreases ps.len(),
{
    if ps.len() == 0 {
        seq![(k, v)]
    } else if ps[0].0 == k {
        seq![(k, v)] + ps.drop_first()
    } else {
        seq![ps[0]] + obj_set(ps.drop_first(), k, v)
    }
}

/// What [`insert_value_at_path`] leaves in the target map.  A path that is
/// itself a key of the source object is written as that one key.  Otherwise
/// the first segment is ensured, the final segment receives the source
/// value at the original path (a path ending in a bracket group with no dot
/// after it receives the whole array), and an intermediate segment is
/// stepped into, scalars being replaced by fresh objects on the way.
pub open spec fn insert_spec(
    target: Seq<(Seq<char>, Jv)>,
    path: Seq<char>,
    source: Jv,
    orig: Seq<char>,
) -> Seq<(Seq<char>, Jv)>
    decreases path.len(),
    via insert_spec_dec
{
    if path.len() == 0 {
        target
    } else if source is Obj && obj_has(source->Obj_0, orig) {
        match get_value_spec(source, orig) {
            Some(val) => obj_set(target, orig, val),
            None => target,
        }
    } else {
        let pf = pfs_spec(path);
        let seg = pf.0;
        let is_arr = pf.1;
        let remaining = pf.2;
        let is_final = remaining.len() == 0;
        let dflt: Jv = if is_final {
            Jv::Null
        } else if is_arr {
            Jv::Arr(Seq::empty())
        } else {
            Jv::Obj(Seq::empty())
        };
        let base = if obj_has(target, seg) {
            target
        } else {
            target.push((seg, dflt))
        };
        let entry = obj_get(base, seg);
        if is_final {
            let newv: Jv = if orig.len() > 0 && orig.last() == ']' {
                let b = find_from(orig, 0, '[');
                if b < orig.len() {
                    let after = orig.subrange(b, orig.len() as int);
                    if find_from(after, 0, '.') < after.len() {
                        match get_value_spec(source, orig) {
                            Some(v2) => v2,
                            None => entry,
                        }
                    } else {
                        match get_value_spec(source, orig.subrange(0, b)) {
                            Some(v2) => v2,
                            None => entry,
                        }
                    }
                } else {
                    entry
                }
            } else {
                match get_value_spec(source, orig) {
                    Some(v2) => v2,
                    None => entry,
                }
            };
            obj_set(base, seg, newv)
        } else {
            match entry {
                Jv::Obj(m) => obj_set(base, seg, Jv::Obj(insert_spec(m, remaining, source, path))),
                Jv::Arr(a) => {
                    let pr = pai_spec(remaining);
                    let idx = pr.0;
                    let rest2 = pr.1;
                    let a2 = pad_nulls(a, idx as int);
                    let m: Seq<(Seq<char>, Jv)> = if a2[idx as int] is Obj {
                        a2[idx as int]->Obj_0
                    } else {
                        Seq::empty()
                    };
                    obj_set(
                        base,
                        seg,
                        Jv::Arr(a2.update(idx as int, Jv::Obj(insert_spec(m, rest2, source, path)))),
                    )
                },
                _ => obj_set(
                    base,
                    seg,
                    Jv::Obj(insert_spec(Seq::empty(), remaining, source, orig)),
                ),
            }
        }
    }
}

#[via_fn]
proof fn insert_spec_dec(
    target: Seq<(Seq<char>, Jv)>,
    path: Seq<char>,
    source: Jv,
    orig: Seq<char>,
) {
    if path.len() > 0 && !(source is Obj && obj_has(source->Obj_0, orig)) {
        lemma_pfs_shorter(path);
        lemma_pai_no_longer(pfs_spec(path).2);
    }
}

/// Where the scan stopped on the needle, that is the first occurrence.
pub proof fn lemma_find_from_exact(s: Seq<char>, i: int, k: int, c: char)
    requires
        0 <= i <= k < s.len(),
        s[k] == c,
        forall|w: int| i <= w < k ==> (#[trigger] s[w]) != c,
    ensures
        find_from(s, i, c) == k,
    decreases k - i,
{
    if i < k {
        lemma_find_from_exact(s, i + 1, k, c);
    }
}

/// Where the scan ran off the end, there is no occurrence.
pub proof fn lemma_find_from_none(s: Seq<char>, i: int, c: char)
    requires
        0 <= i <= s.len(),
        forall|w: int| i <= w < s.len() ==> (#[trigger] s[w]) != c,
    ensures
        find_from(s, i, c) == s.len(),
    decreases s.len() - i,
{
    if i < s.len() {
        lemma_find_from_none(s, i + 1, c);
    }
}

/// The first position in `cs[lo..hi]` holding `c`, absolute; `hi` when none.
fn find_in(cs: &Vec<char>, lo: usize, hi: usize, c: char) -> (k: usize)
    requires
        lo <= hi <= cs@.len(),
    ensures
        lo <= k <= hi,
        k - lo == find_from(cs@.subrange(lo as int, hi as int), 0, c),
        k < hi ==> cs@[k as int] == c,
        forall|w: int| lo <= w < k ==> (#[trigger] cs@[w]) != c,
{
    let ghost sub = cs@.subrange(lo as int, hi as int);
    let mut k: usize = lo;
    while k < hi
        invariant
            lo <= k <= hi,
            hi <= cs@.len(),
            sub == cs@.subrange(lo as int, hi as int),
            forall|w: int| lo <= w < k ==> (#[trigger] cs@[w]) != c,
        decreases hi - k,
    {
        if cs[k] == c {
            proof {
                assert(sub[k - lo] == cs@[k as int]);
                assert forall|w: int| 0 <= w < k - lo implies (#[trigger] sub[w]) != c by {
                    assert(sub[w] == cs@[lo + w]);
                }
                lemma_find_from_exact(sub, 0, k as int - lo, c);
            }
            return k;
        }
        k = k + 1;
    }
    proof {
        assert forall|w: int| 0 <= w < sub.len() implies (#[trigger] sub[w]) != c by {
            assert(sub[w] == cs@[lo + w]);
        }
        lemma_find_from_none(sub, 0, c);
    }
    hi
}

/// Whether `c` carries the Unicode white-space property.
fn is_white_exec(c: char) -> (r: bool)
    ensures
        r == is_white(c),
{
    let u = c as u32;
    u == 32 || u == 9 || u == 10 || u == 13 || u == 0xb || u == 0xc || u == 0x85 || u == 0xa0
        || u == 0x1680 || (0x2000 <= u && u <= 0x200a) || u == 0x2028 || u == 0x2029 || u
        == 0x202f || u == 0x205f || u == 0x3000
}

/// Pads `arr` with nulls until position `index` exists.
pub fn ensure_array_length(arr: &mut Vec<JsonValue>, index: usize)
    ensures
        elems_of(final(arr)@) == pad_nulls(elems_of(old(arr)@), index as int),
        final(arr)@.len() > index,
{
    while arr.len() <= index
        invariant
            pad_nulls(elems_of(arr@), index as int) == pad_nulls(
                elems_of(old(arr)@),
                index as int,
            ),
        decreases index + 1 - arr@.len(),
    {
        let ghost prevvec = arr@;
        arr.push(JsonValue::Null);
        proof {
            crate::value::lemma_elems_of_push(prevvec, JsonValue::Null);
            crate::value::lemma_elems_of(prevvec);
            assert(elems_of(arr@) == elems_of(prevvec).push(Jv::Null));
            assert(elems_of(prevvec).len() == prevvec.len());
        }
    }
    proof {
        crate::value::lemma_elems_of(arr@);
        assert(elems_of(arr@).len() == arr@.len());
        assert(pad_nulls(elems_of(arr@), index as int) == elems_of(arr@));
    }
}

/// Reads a leading `[n]` group: the index it names, zero when it names
/// none, and the text after the group, a separating dot dropped.
pub fn parse_array_index(path: &str) -> (r: (usize, String))
    ensures
        r.0 as nat == pai_spec(path@).0,
        r.1@ == pai_spec(path@).1,
{
    let cs = str_chars(path);
    let n = cs.len();
    if n == 0 || cs[0] != '[' {
        return (0, path.to_owned());
    }
    let e = find_in(&cs, 0, n, ']');
    proof {
        assert(cs@.subrange(0 as int, n as int) =~= cs@);
    }
    if e == n {
        proof {
            assert(find_from(path@, 0, ']') == n);
        }
        return (0, path.to_owned());
    }
    let v = match digits_value_range(&cs, 1, e) {
        Some(v) => v,
        None => 0,
    };
    let rest = if e + 1 < n && cs[e + 1] == '.' {
        copy_chars(&cs, e + 2, n)
    } else {
        copy_chars(&cs, e + 1, n)
    };
    proof {
        assert(find_from(path@, 0, ']') == e);
    }
    (v, rest)
}

/// The decimal value of `cs[lo..hi]`, when it is a nonempty digit run whose
/// value fits the machine.
fn digits_value_range(cs: &Vec<char>, lo: usize, hi: usize) -> (r: Option<usize>)
    requires
        lo <= hi <= cs@.len(),
    ensures
        ({
            let sub = cs@.subrange(lo as int, hi as int);
            match r {
                Some(v) => sub.len() > 0 && all_digits(sub) && digits_val(sub) <= usize::MAX
                    && v as nat == digits_val(sub),
                None => !(sub.len() > 0 && all_digits(sub) && digits_val(sub) <= usize::MAX),
            }
        }),
{
    let ghost sub = cs@.subrange(lo as int, hi as int);
    if lo == hi {
        return None;
    }
    let mut acc: usize = 0;
    let mut t: usize = lo;
    proof {
        assert(cs@.subrange(lo as int, lo as int) =~= Seq::<char>::empty());
    }
    while t < hi
        invariant
            lo <= t <= hi,
            hi <= cs@.len(),
            sub == cs@.subrange(lo as int, hi as int),
            forall|w: int| lo <= w < t ==> is_digit(#[trigger] cs@[w]),
            acc as nat == digits_val(cs@.subrange(lo as int, t as int)),
        decreases hi - t,
    {
        let c = cs[t];
        if !is_digit_pf(c) {
            proof {
                assert(sub[t - lo] == cs@[t as int]);
                assert(!all_digits(sub));
            }
            return None;
        }
        let d = char_digit_pf(c);
        proof {
            assert(cs@.subrange(lo as int, t + 1 as int) =~= cs@.subrange(
                lo as int,
                t as int,
            ).push(cs@[t as int]));
            lemma_digits_val_push(cs@.subrange(lo as int, t as int), cs@[t as int]);
        }
        if acc > (usize::MAX - d as usize) / 10 {
            proof {
                crate::json_path::lemma_mul10_overflow(acc as int, d as int);
                lemma_digits_grow(cs@, lo as int, t as int + 1, hi as int);
            }
            return None;
        }
        acc = acc * 10 + d as usize;
        t = t + 1;
    }
    proof {
        assert(sub =~= cs@.subrange(lo as int, hi as int));
        assert forall|w: int| 0 <= w < sub.len() implies is_digit(#[trigger] sub[w]) by {
            assert(sub[w] == cs@[lo + w]);
        }
    }
    Some(acc)
}

/// Whether `c` is a decimal digit.
fn is_digit_pf(c: char) -> (r: bool)
    ensures
        r == is_digit(c),
{
    let u = c as u32;
    48 <= u && u <= 57
}

/// The numeric value of a digit character.
fn char_digit_pf(c: char) -> (d: u8)
    requires
        is_digit(c),
    ensures
        d < 10,
        d as nat == crate::strings::digit_val(c),
{
    (c as u32 - '0' as u32) as u8
}

/// Once a digit prefix overflows, the whole run overflows.
proof fn lemma_digits_grow(s: Seq<char>, a: int, t: int, k: int)
    requires
        0 <= a <= t <= k <= s.len(),
        digits_val(s.subrange(a, t)) > usize::MAX,
    ensures
        !(digits_val(s.subrange(a, k)) <= usize::MAX),
    decreases k - t,
{
    if t < k {
        assert(s.subrange(a, t + 1) =~= s.subrange(a, t).push(s[t]));
        lemma_digits_val_push(s.subrange(a, t), s[t]);
        lemma_digits_grow(s, a, t + 1, k);
    }
}

/// Copies the characters `cs[a..b]` into a fresh string.
fn copy_chars(cs: &Vec<char>, a: usize, b: usize) -> (r: String)
    requires
        a <= b <= cs@.len(),
    ensures
        r@ == cs@.subrange(a as int, b as int),
{
    let mut out = String::new();
    let mut t: usize = a;
    proof {
        assert(out@ =~= cs@.subrange(a as int, a as int));
    }
    while t < b
        invariant
            a <= t <= b,
            b <= cs@.len(),
            out@ == cs@.subrange(a as int, t as int),
        decreases b - t,
    {
        push_char(&mut out, cs[t]);
        proof {
            assert(cs@.subrange(a as int, t + 1 as int) =~= cs@.subrange(a as int, t as int).push(
                cs@[t as int],
            ));
        }
        t = t + 1;
    }
    out
}

/// Reads the first segment of a path text: the segment's text, whether it
/// is an array index, and the remaining text.
pub fn parse_first_segment(path: &str) -> (r: (String, bool, String))
    ensures
        r.0@ == pfs_spec(path@).0,
        r.1 == pfs_spec(path@).1,
        r.2@ == pfs_spec(path@).2,
{
    let cs = str_chars(path);
    let n = cs.len();
    let e0 = find_in(&cs, 0, n, ']');
    proof {
        assert(cs@.subrange(0 as int, n as int) =~= cs@);
        assert(find_from(cs@, 0, ']') == e0);
    }
    if n > 0 && cs[0] == '[' && e0 < n {
        // Trim the bracket contents and test for digits.
        let mut a: usize = 1;
        while a < e0 && is_white_exec(cs[a])
            invariant
                1 <= a <= e0,
                e0 < n,
                n == cs@.len(),
                skip_white(cs@.subrange(1, e0 as int), 0) == skip_white(
                    cs@.subrange(1, e0 as int),
                    a - 1,
                ),
            decreases e0 - a,
        {
            proof {
                assert(cs@.subrange(1, e0 as int)[a - 1] == cs@[a as int]);
            }
            a = a + 1;
        }
        let mut b: usize = e0;
        while b > a && is_white_exec(cs[b - 1])
            invariant
                1 <= a <= b <= e0,
                e0 < n,
                n == cs@.len(),
                rskip_white(cs@.subrange(1, e0 as int), e0 - 1) == rskip_white(
                    cs@.subrange(1, e0 as int),
                    b - 1,
                ),
            decreases b,
        {
            proof {
                assert(cs@.subrange(1, e0 as int)[b - 2] == cs@[b - 1]);
            }
            b = b - 1;
        }
        let ghost raw = cs@.subrange(1, e0 as int);
        proof {
            assert(raw.len() == e0 - 1);
            if a < e0 {
                assert(raw[a - 1] == cs@[a as int]);
                assert(skip_white(raw, a - 1) == a - 1);
            } else {
                assert(skip_white(raw, a - 1) == raw.len());
            }
            if b > a {
                assert(raw[b - 2] == cs@[b - 1]);
                assert(rskip_white(raw, b - 1) == b - 1);
            } else if b == a {
                if a < e0 {
                    assert(rskip_white(raw, b - 1) <= b - 1) by {
                        lemma_rskip_white_le(raw, b - 1);
                    }
                } else {
                    assert(rskip_white(raw, b - 1) <= b - 1) by {
                        lemma_rskip_white_le(raw, b - 1);
                    }
                }
            }
        }
        if b > a {
            // The trimmed text is cs[a..b]; test it for digits.
            proof {
                assert(trimmed(raw) =~= cs@.subrange(a as int, b as int)) by {
                    assert(skip_white(raw, 0) == a - 1);
                    assert(rskip_white(raw, raw.len() as int) == b - 1);
                    assert(raw.subrange(a - 1, b - 1) =~= cs@.subrange(a as int, b as int));
                }
            }
            let mut all_dig = true;
            let mut t: usize = a;
            while t < b && all_dig
                invariant
                    1 <= a <= t <= b,
                    b <= n,
                    n == cs@.len(),
                    all_dig ==> forall|w: int| a <= w < t ==> is_digit(#[trigger] cs@[w]),
                    !all_dig ==> !all_digits(cs@.subrange(a as int, b as int)),
                decreases b - t + (if all_dig { 1int } else { 0int }),
            {
                if !is_digit_pf(cs[t]) {
                    proof {
                        assert(cs@.subrange(a as int, b as int)[t - a] == cs@[t as int]);
                    }
                    all_dig = false;
                } else {
                    t = t + 1;
                }
            }
            if all_dig {
                proof {
                    assert(all_digits(cs@.subrange(a as int, b as int))) by {
                        assert(forall|w: int| 0 <= w < b - a ==> #[trigger] cs@.subrange(
                            a as int,
                            b as int,
                        )[w] == cs@[a + w]);
                    }
                }
                let seg = copy_chars(&cs, a, b);
                let rest = if e0 + 1 < n && cs[e0 + 1] == '.' {
                    copy_chars(&cs, e0 + 2, n)
                } else {
                    copy_chars(&cs, e0 + 1, n)
                };
                proof {
                    let after = cs@.subrange(e0 + 1, n as int);
                    if after.len() > 0 && after[0] == '.' {
                        assert(after[0] == cs@[e0 + 1]);
                        assert(after.drop_first() =~= cs@.subrange(e0 + 2, n as int));
                    } else {
                        if e0 + 1 < n {
                            assert(after[0] == cs@[e0 + 1]);
                        }
                    }
                }
                return (seg, true, rest);
            }
            proof {
                assert(!(trimmed(raw).len() > 0 && all_digits(trimmed(raw))));
            }
        } else {
            proof {
                assert(trimmed(raw).len() == 0) by {
                    assert(skip_white(raw, 0) == skip_white(raw, a - 1));
                    assert(rskip_white(raw, raw.len() as int) == rskip_white(raw, b - 1));
                    lemma_rskip_white_le(raw, b - 1);
                    lemma_skip_white_ge(raw, a - 1);
                }
            }
        }
    }
    // Key (possibly before a bracket group), or plain dot split.
    let bpos = find_in(&cs, 0, n, '[');
    proof {
        assert(cs@.subrange(0 as int, n as int) =~= cs@);
        assert(find_from(cs@, 0, '[') == bpos);
    }
    if bpos < n && e0 < n {
        let seg = copy_chars(&cs, 0, bpos);
        let rest = if e0 + 1 < n {
            if cs[e0 + 1] == '.' {
                copy_chars(&cs, e0 + 2, n)
            } else {
                copy_chars(&cs, e0 + 1, n)
            }
        } else {
            String::new()
        };
        proof {
            let after = cs@.subrange(e0 + 1, n as int);
            if after.len() > 0 {
                assert(after[0] == cs@[e0 + 1]);
                if after[0] == '.' {
                    assert(after.drop_first() =~= cs@.subrange(e0 + 2, n as int));
                }
            }
        }
        return (seg, false, rest);
    }
    let d = find_in(&cs, 0, n, '.');
    proof {
        assert(find_from(cs@, 0, '.') == d);
    }
    if d < n {
        let seg = copy_chars(&cs, 0, d);
        let rest = copy_chars(&cs, d + 1, n);
        return (seg, false, rest);
    }
    proof {
        assert(cs@.subrange(0 as int, n as int) =~= cs@);
    }
    (path.to_owned(), false, String::new())
}

/// The backward white scan never moves right.
proof fn lemma_rskip_white_le(s: Seq<char>, e: int)
    ensures
        rskip_white(s, e) <= (if e >= 0 {
            e
        } else {
            0
        }),
    decreases e,
{
    if 0 < e <= s.len() && is_white(s[e - 1]) {
        lemma_rskip_white_le(s, e - 1);
    }
}

/// The forward white scan never moves left.
proof fn lemma_skip_white_ge(s: Seq<char>, i: int)
    ensures
        skip_white(s, i) >= (if i <= s.len() {
            i
        } else {
            0
        }),
    decreases s.len() - i,
{
    if 0 <= i < s.len() && is_white(s[i]) {
        lemma_skip_white_ge(s, i + 1);
    }
}

/// With distinct keys untouched, setting replaces the first match in place.
proof fn lemma_obj_set_at(ps: Seq<(Seq<char>, Jv)>, k: Seq<char>, i: int, v: Jv)
    requires
        0 <= i < ps.len(),
        ps[i].0 == k,
        forall|w: int| 0 <= w < i ==> (#[trigger] ps[w]).0 != k,
    ensures
        obj_set(ps, k, v) == ps.update(i, (k, v)),
    decreases i,
{
    if i == 0 {
        assert(obj_set(ps, k, v) =~= ps.update(0, (k, v)));
    } else {
        let tail = ps.drop_first();
        assert(forall|w: int| 0 <= w < tail.len() ==> #[trigger] tail[w] == ps[w + 1]);
        lemma_obj_set_at(tail, k, i - 1, v);
        assert(obj_set(ps, k, v) == seq![ps[0]] + tail.update(i - 1, (k, v)));
        assert(seq![ps[0]] + tail.update(i - 1, (k, v)) =~= ps.update(i, (k, v)));
    }
}

/// Setting a member to the value it already holds changes nothing.
proof fn lemma_obj_set_same(ps: Seq<(Seq<char>, Jv)>, k: Seq<char>, i: int)
    requires
        0 <= i < ps.len(),
        ps[i].0 == k,
        forall|w: int| 0 <= w < i ==> (#[trigger] ps[w]).0 != k,
    ensures
        obj_set(ps, k, ps[i].1) == ps,
{
    lemma_obj_set_at(ps, k, i, ps[i].1);
    assert(ps.update(i, (k, ps[i].1)) =~= ps);
}

/// With the key absent, setting appends.
proof fn lemma_obj_set_absent(ps: Seq<(Seq<char>, Jv)>, k: Seq<char>, v: Jv)
    requires
        !obj_has(ps, k),
    ensures
        obj_set(ps, k, v) == ps.push((k, v)),
    decreases ps.len(),
{
    if ps.len() == 0 {
        assert(obj_set(ps, k, v) =~= ps.push((k, v)));
    } else {
        assert(ps[0].0 != k);
        let tail = ps.drop_first();
        assert(forall|w: int| 0 <= w < tail.len() ==> #[trigger] tail[w] == ps[w + 1]);
        assert(!obj_has(tail, k)) by {
            if obj_has(tail, k) {
                let u = choose|u: int| 0 <= u < tail.len() && (#[trigger] tail[u]).0 == k;
                assert(ps[u + 1].0 == k);
            }
        }
        lemma_obj_set_absent(tail, k, v);
        assert(obj_set(ps, k, v) == seq![ps[0]] + tail.push((k, v)));
        assert(seq![ps[0]] + tail.push((k, v)) =~= ps.push((k, v)));
    }
}

/// The abstraction of an update is the update of the abstraction.
proof fn lemma_pairs_of_update(s: Seq<(String, JsonValue)>, i: int, p: (String, JsonValue))
    requires
        0 <= i < s.len(),
    ensures
        pairs_of(s.update(i, p)) == pairs_of(s).update(i, (p.0@, jv_of(p.1))),
{
    lemma_pairs_of(s);
    lemma_pairs_of(s.update(i, p));
    assert forall|w: int| 0 <= w < s.len() implies #[trigger] pairs_of(s.update(i, p))[w]
        == pairs_of(s).update(i, (p.0@, jv_of(p.1)))[w] by {
        assert(pairs_of(s.update(i, p))[w] == (s.update(i, p)[w].0@, jv_of(
            s.update(i, p)[w].1,
        )));
        if w != i {
            assert(s.update(i, p)[w] == s[w]);
            assert(pairs_of(s)[w] == (s[w].0@, jv_of(s[w].1)));
        }
    }
    assert(pairs_of(s.update(i, p)) =~= pairs_of(s).update(i, (p.0@, jv_of(p.1))));
}

/// The abstraction of an element update is the update of the abstraction.
proof fn lemma_elems_of_update(s: Seq<JsonValue>, i: int, v: JsonValue)
    requires
        0 <= i < s.len(),
    ensures
        elems_of(s.update(i, v)) == elems_of(s).update(i, jv_of(v)),
{
    lemma_elems_of(s);
    lemma_elems_of(s.update(i, v));
    assert forall|w: int| 0 <= w < s.len() implies #[trigger] elems_of(s.update(i, v))[w]
        == elems_of(s).update(i, jv_of(v))[w] by {
        assert(elems_of(s.update(i, v))[w] == jv_of(s.update(i, v)[w]));
        if w != i {
            assert(s.update(i, v)[w] == s[w]);
            assert(elems_of(s)[w] == jv_of(s[w]));
        }
    }
    assert(elems_of(s.update(i, v)) =~= elems_of(s).update(i, jv_of(v)));
}

/// Replaces the value of the member at `ix`, keeping its key.
fn set_member_value(target: &mut Vec<(String, JsonValue)>, ix: usize, v: JsonValue)
    requires
        ix < old(target)@.len(),
    ensures
        final(target)@ == old(target)@.update(ix as int, (old(target)@[ix as int].0, v)),
        pairs_of(final(target)@) == pairs_of(old(target)@).update(
            ix as int,
            (old(target)@[ix as int].0@, jv_of(v)),
        ),
{
    let ghost before = target@;
    let taken = target.remove(ix);
    let k = taken.0;
    target.insert(ix, (k, v));
    proof {
        assert(target@ =~= before.update(ix as int, (before[ix as int].0, target@[ix as int].1)));
        lemma_pairs_of_update(before, ix as int, target@[ix as int]);
    }
}

/// Writes one member by key, replacing the first match or appending.
fn obj_set_exec(target: &mut Vec<(String, JsonValue)>, key: &str, v: JsonValue)
    ensures
        pairs_of(final(target)@) == obj_set(pairs_of(old(target)@), key@, jv_of(v)),
{
    proof {
        lemma_pairs_of(old(target)@);
    }
    let ghost ps = pairs_of(old(target)@);
    match obj_find(target, key) {
        Some(ix) => {
            proof {
                assert forall|w: int| 0 <= w < ix implies (#[trigger] ps[w]).0 != key@ by {
                    assert(ps[w] == (old(target)@[w].0@, jv_of(old(target)@[w].1)));
                }
                assert(ps[ix as int].0 == key@) by {
                    assert(ps[ix as int] == (old(target)@[ix as int].0@, jv_of(
                        old(target)@[ix as int].1,
                    )));
                }
            }
            set_member_value(target, ix, v);
            proof {
                lemma_obj_set_at(ps, key@, ix as int, jv_of(target@[ix as int].1));
            }
        },
        None => {
            let ghost beforepush = target@;
            let kc = key.to_owned();
            target.push((kc, v));
            proof {
                crate::value::lemma_pairs_of_push(beforepush, target@.last());
                lemma_obj_set_absent(ps, key@, jv_of(target@.last().1));
            }
        },
    }
}

/// Reads the value a path text names out of a document, as
/// [`get_value_spec`] names it.
pub fn get_value_at_path(value: &JsonValue, path: &str) -> (r: Option<JsonValue>)
    ensures
        match r {
            Some(v) => get_value_spec(value@, path@) == Some(v@),
            None => get_value_spec(value@, path@) is None,
        },
    decreases path@.len(),
{
    let cs = str_chars(path);
    let n = cs.len();
    if n == 0 {
        return Some(value.clone());
    }
    // A whole path that is itself a key of a flat object wins.
    if let JsonValue::Obj(pairs) = value {
        proof {
            lemma_pairs_of(pairs@);
            assert(value@->Obj_0 == pairs_of(pairs@));
        }
        if let Some(ix) = obj_find(pairs, path) {
            return Some(pairs[ix].1.clone());
        }
    }
    proof {
        assert(cs@.subrange(0 as int, n as int) =~= cs@);
    }
    let d = find_in(&cs, 0, n, '.');
    proof {
        assert(find_from(path@, 0, '.') == d);
    }
    if d < n {
        let rest = copy_chars(&cs, d + 1, n);
        let ghost key = path@.subrange(0, d as int);
        let b = find_in(&cs, 0, d, '[');
        proof {
            assert(key =~= cs@.subrange(0 as int, d as int));
            assert(find_from(key, 0, '[') == b);
        }
        if b < d {
            let an = copy_chars(&cs, 0, b);
            let istr = copy_chars(&cs, b, d);
            let pr = parse_array_index(istr.as_str());
            let idx = pr.0;
            proof {
                assert(istr@ =~= key.subrange(b as int, key.len() as int));
                assert(an@ =~= key.subrange(0, b as int));
            }
            if let JsonValue::Obj(pairs) = value {
                proof {
                    lemma_pairs_of(pairs@);
                    assert(value@->Obj_0 == pairs_of(pairs@));
                }
                if let Some(ix) = obj_find(pairs, an.as_str()) {
                    if let JsonValue::Arr(items) = &pairs[ix].1 {
                        proof {
                            lemma_elems_of(items@);
                            assert(obj_get(value@->Obj_0, an@) == jv_of(pairs@[ix as int].1));
                            assert(jv_of(pairs@[ix as int].1)->Arr_0 == elems_of(items@));
                        }
                        if idx < items.len() {
                            return get_value_at_path(&items[idx], rest.as_str());
                        }
                    }
                }
            }
            return None;
        } else {
            let keystr = copy_chars(&cs, 0, d);
            if let JsonValue::Obj(pairs) = value {
                proof {
                    lemma_pairs_of(pairs@);
                    assert(value@->Obj_0 == pairs_of(pairs@));
                }
                if let Some(ix) = obj_find(pairs, keystr.as_str()) {
                    return get_value_at_path(&pairs[ix].1, rest.as_str());
                }
            }
            return None;
        }
    } else {
        let b = find_in(&cs, 0, n, '[');
        proof {
            assert(find_from(path@, 0, '[') == b);
        }
        if b < n {
            let an = copy_chars(&cs, 0, b);
            let istr = copy_chars(&cs, b, n);
            let pr = parse_array_index(istr.as_str());
            let idx = pr.0;
            proof {
                assert(istr@ =~= path@.subrange(b as int, path@.len() as int));
            }
            if let JsonValue::Obj(pairs) = value {
                proof {
                    lemma_pairs_of(pairs@);
                    assert(value@->Obj_0 == pairs_of(pairs@));
                }
                if let Some(ix) = obj_find(pairs, an.as_str()) {
                    if let JsonValue::Arr(items) = &pairs[ix].1 {
                        proof {
                            lemma_elems_of(items@);
                            assert(obj_get(value@->Obj_0, an@) == jv_of(pairs@[ix as int].1));
                            assert(jv_of(pairs@[ix as int].1)->Arr_0 == elems_of(items@));
                        }
                        if idx < items.len() {
                            return Some(items[idx].clone());
                        }
                    }
                }
            }
            return None;
        } else {
            if let JsonValue::Obj(pairs) = value {
                proof {
                    lemma_pairs_of(pairs@);
                    assert(value@->Obj_0 == pairs_of(pairs@));
                }
                if let Some(ix) = obj_find(pairs, path) {
                    return Some(pairs[ix].1.clone());
                }
            }
            return None;
        }
    }
}

/// Writes the source value in at the given path, as [`insert_spec`] names
/// it: nested containers are created on the way, arrays are padded with
/// nulls, and a scalar standing in the way gives way to a fresh object.
#[verifier::rlimit(80)]
pub fn insert_value_at_path(
    target: &mut Vec<(String, JsonValue)>,
    path: &str,
    source_value: &JsonValue,
    original_path: &str,
)
    ensures
        pairs_of(final(target)@) == insert_spec(
            pairs_of(old(target)@),
            path@,
            source_value@,
            original_path@,
        ),
    decreases path@.len(),
{
    proof {
        lemma_pairs_of(old(target)@);
    }
    let ghost t0 = pairs_of(old(target)@);
    if path.is_empty() {
        return;
    }
    // A path that is itself a key of the source object is written directly.
    let mut whole_key = false;
    if let JsonValue::Obj(smap) = source_value {
        proof {
            lemma_pairs_of(smap@);
            assert(source_value@->Obj_0 == pairs_of(smap@));
        }
        if let Some(_) = obj_find(smap, original_path) {
            whole_key = true;
        }
    }
    if whole_key {
        match get_value_at_path(source_value, original_path) {
            Some(val) => {
                obj_set_exec(target, original_path, val);
            },
            None => {},
        }
        return;
    }
    let pf = parse_first_segment(path);
    let seg = pf.0;
    let is_arr = pf.1;
    let remaining = pf.2;
    proof {
        lemma_pfs_shorter(path@);
    }
    let is_final = remaining.as_str().is_empty();
    let ghost dflt_v: Jv = if is_final {
        Jv::Null
    } else if is_arr {
        Jv::Arr(Seq::empty())
    } else {
        Jv::Obj(Seq::empty())
    };
    let ghost base = (if obj_has(t0, seg@) {
        t0
    } else {
        t0.push((seg@, dflt_v))
    });
    let had = match obj_find(target, seg.as_str()) {
        Some(_) => true,
        None => false,
    };
    if !had {
        let ghost beforepush = target@;
        let dflt: JsonValue = if is_final {
            JsonValue::Null
        } else if is_arr {
            JsonValue::Arr(Vec::new())
        } else {
            JsonValue::Obj(Vec::new())
        };
        proof {
            match &dflt {
                JsonValue::Arr(inner) => {
                    assert(elems_of(inner@) =~= Seq::<Jv>::empty());
                },
                JsonValue::Obj(inner) => {
                    assert(pairs_of(inner@) =~= Seq::<(Seq<char>, Jv)>::empty());
                },
                _ => {},
            }
            assert(jv_of(dflt) == dflt_v);
        }
        let segc = seg.clone();
        target.push((segc, dflt));
        proof {
            crate::value::lemma_pairs_of_push(beforepush, target@.last());
            assert(pairs_of(target@) =~= base);
        }
    }
    proof {
        assert(pairs_of(target@) == base);
        lemma_pairs_of(target@);
    }
    let ghost prevec = target@;
    let ix = match obj_find(target, seg.as_str()) {
        Some(i) => i,
        None => {
            proof {
                if !obj_has(t0, seg@) {
                    assert(base[base.len() - 1].0 == seg@);
                    assert(obj_has(base, seg@));
                }
                assert(false);
            }
            return;
        },
    };
    let ghost entry = obj_get(base, seg@);
    proof {
        assert(jv_of(prevec[ix as int].1) == entry);
        assert(prevec[ix as int].0@ == seg@);
        assert forall|w: int| 0 <= w < ix implies (#[trigger] base[w]).0 != seg@ by {
            assert(base[w] == (prevec[w].0@, jv_of(prevec[w].1)));
        }
        assert(base[ix as int].0 == seg@) by {
            assert(base[ix as int] == (prevec[ix as int].0@, jv_of(prevec[ix as int].1)));
        }
    }
    if is_final {
        // Fetch what the original path names in the source.
        let ocs = str_chars(original_path);
        let on = ocs.len();
        let mut newv_opt: Option<JsonValue> = None;
        if on > 0 && ocs[on - 1] == ']' {
            proof {
                assert(ocs@.subrange(0 as int, on as int) =~= ocs@);
                assert(original_path@.last() == ']');
            }
            let b = find_in(&ocs, 0, on, '[');
            proof {
                assert(find_from(original_path@, 0, '[') == b);
            }
            if b < on {
                let dotp = find_in(&ocs, b, on, '.');
                proof {
                    let after = original_path@.subrange(b as int, on as int);
                    assert(find_from(after, 0, '.') == dotp - b);
                }
                if dotp < on {
                    newv_opt = get_value_at_path(source_value, original_path);
                } else {
                    let an = copy_chars(&ocs, 0, b);
                    newv_opt = get_value_at_path(source_value, an.as_str());
                }
            }
        } else {
            newv_opt = get_value_at_path(source_value, original_path);
        }
        match newv_opt {
            Some(nv) => {
                proof {
                    lemma_obj_set_at(base, seg@, ix as int, jv_of(nv));
                }
                set_member_value(target, ix, nv);
            },
            None => {
                proof {
                    lemma_obj_set_same(base, seg@, ix as int);
                    assert(entry == base[ix as int].1);
                }
            },
        }
        return;
    }
    // Step into the entry.
    let taken = target.remove(ix);
    let k_stored = taken.0;
    let entryv = taken.1;
    let ghost removedvec = target@;
    proof {
        assert(jv_of(entryv) == entry);
        assert(k_stored@ == seg@);
        lemma_obj_set_at(base, seg@, ix as int, entry);
    }
    match entryv {
        JsonValue::Obj(mut m) => {
            proof {
                lemma_pairs_of(m@);
                assert(entry == Jv::Obj(pairs_of(m@)));
                assert(entry->Obj_0 == pairs_of(m@));
            }
            insert_value_at_path(&mut m, remaining.as_str(), source_value, path);
            let rebuilt = JsonValue::Obj(m);
            target.insert(ix, (k_stored, rebuilt));
            proof {
                assert(target@ =~= prevec.update(ix as int, target@[ix as int]));
                lemma_pairs_of_update(prevec, ix as int, target@[ix as int]);
                lemma_obj_set_at(base, seg@, ix as int, jv_of(target@[ix as int].1));
            }
        },
        JsonValue::Arr(mut a) => {
            proof {
                lemma_elems_of(a@);
                assert(entry == Jv::Arr(elems_of(a@)));
                assert(entry->Arr_0 == elems_of(a@));
            }
            let pr = parse_array_index(remaining.as_str());
            let idx = pr.0;
            let rest2 = pr.1;
            proof {
                lemma_pai_no_longer(remaining@);
            }
            ensure_array_length(&mut a, idx);
            let ghost a2 = elems_of(a@);
            let ghost avec = a@;
            proof {
                lemma_elems_of(a@);
                assert(a2.len() == a@.len());
            }
            let elem = a.remove(idx);
            proof {
                assert(jv_of(elem) == a2[idx as int]);
            }
            let mut m: Vec<(String, JsonValue)> = match elem {
                JsonValue::Obj(im) => im,
                _ => Vec::new(),
            };
            proof {
                lemma_pairs_of(m@);
                if a2[idx as int] is Obj {
                    assert(a2[idx as int]->Obj_0 == pairs_of(m@));
                } else {
                    assert(pairs_of(m@) =~= Seq::<(Seq<char>, Jv)>::empty());
                }
            }
            insert_value_at_path(&mut m, rest2.as_str(), source_value, path);
            let ghost m_after = pairs_of(m@);
            a.insert(idx, JsonValue::Obj(m));
            proof {
                assert(a@ =~= avec.update(idx as int, a@[idx as int]));
                lemma_elems_of_update(avec, idx as int, a@[idx as int]);
                assert(jv_of(a@[idx as int]) == Jv::Obj(m_after));
            }
            let rebuilt = JsonValue::Arr(a);
            proof {
                assert(jv_of(rebuilt) == Jv::Arr(a2.update(idx as int, Jv::Obj(m_after))));
            }
            target.insert(ix, (k_stored, rebuilt));
            proof {
                assert(target@ =~= prevec.update(ix as int, target@[ix as int]));
                lemma_pairs_of_update(prevec, ix as int, target@[ix as int]);
                lemma_obj_set_at(base, seg@, ix as int, jv_of(target@[ix as int].1));
            }
        },
        _ => {
            let mut m: Vec<(String, JsonValue)> = Vec::new();
            proof {
                assert(pairs_of(m@) =~= Seq::<(Seq<char>, Jv)>::empty());
            }
            insert_value_at_path(&mut m, remaining.as_str(), source_value, original_path);
            target.insert(ix, (k_stored, JsonValue::Obj(m)));
            proof {
                assert(target@ =~= prevec.update(ix as int, target@[ix as int]));
                lemma_pairs_of_update(prevec, ix as int, target@[ix as int]);
                lemma_obj_set_at(base, seg@, ix as int, jv_of(target@[ix as int].1));
            }
        },
    }
}

} // verus!
