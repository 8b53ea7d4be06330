//! Character-level string helpers shared by the path parsers and renderers:
//! conversion between `&str` and `Vec<char>`, decimal rendering and reading of
//! indices, and lexicographic ordering of strings by code point.

use vstd::prelude::*;
use vstd::string::StrSliceExecFns;

verus! {

/// Relies on `String::push`: appends exactly one character to the string.
#[verifier::external_body]
pub(crate) fn push_char(s: &mut String, c: char)
    ensures
        final(s)@ == old(s)@.push(c),
{
    s.push(c);
}

/// The characters of a string slice, in order.
pub fn str_chars(s: &str) -> (r: Vec<char>)
    ensures
        r@ == s@,
{
    let n = s.unicode_len();
    let mut r: Vec<char> = Vec::new();
    let mut i: usize = 0;
    while i < n
        invariant
            i <= n,
            n == s@.len(),
            r@ == s@.subrange(0, i as int),
        decreases n - i,
    {
        let c = s.get_char(i);
        r.push(c);
        proof {
            assert(r@ =~= s@.subrange(0, i + 1 as int));
        }
        i = i + 1;
    }
    proof {
        assert(r@ =~= s@);
    }
    r
}

/// The decimal digit character for a value below ten.
pub open spec fn digit_char(d: nat) -> char {
    if d == 0 {
        '0'
    } else if d == 1 {
        '1'
    } else if d == 2 {
        '2'
    } else if d == 3 {
        '3'
    } else if d == 4 {
        '4'
    } else if d == 5 {
        '5'
    } else if d == 6 {
        '6'
    } else if d == 7 {
        '7'
    } else if d == 8 {
        '8'
    } else {
        '9'
    }
}

/// The canonical decimal rendering of a natural number, most significant digit first.
pub open spec fn dec_digits(n: nat) -> Seq<char>
    decreases n,
{
    if n < 10 {
        seq![digit_char(n)]
    } else {
        dec_digits(n / 10).push(digit_char(n % 10))
    }
}

pub open spec fn is_digit(c: char) -> bool {
    '0' <= c && c <= '9'
}

pub open spec fn digit_val(c: char) -> nat {
    (c as nat - '0' as nat) as nat
}

/// The value of a digit string read as a decimal number.
pub open spec fn digits_val(s: Seq<char>) -> nat
    decreases s.len(),
{
    if s.len() == 0 {
        0
    } else {
        digits_val(s.drop_last()) * 10 + digit_val(s.last())
    }
}

pub open spec fn all_digits(s: Seq<char>) -> bool {
    forall|i: int| 0 <= i < s.len() ==> is_digit(#[trigger] s[i])
}

/// The decimal rendering of `n` consists of digits, is nonempty, and has no
/// leading zero unless it is exactly "0"; reading it back yields `n`.
pub proof fn lemma_dec_digits(n: nat)
    ensures
        dec_digits(n).len() >= 1,
        all_digits(dec_digits(n)),
        digits_val(dec_digits(n)) == n,
        n > 0 ==> dec_digits(n)[0] != '0',
        n == 0 ==> dec_digits(n) =~= seq!['0'],
    decreases n,
{
    if n < 10 {
        assert(dec_digits(n) =~= seq![digit_char(n)]);
        assert(digits_val(Seq::<char>::empty()) == 0);
        assert(seq![digit_char(n)].drop_last() =~= Seq::<char>::empty());
        assert(seq![digit_char(n)].last() == digit_char(n));
        assert(digits_val(seq![digit_char(n)]) == digit_val(digit_char(n)));
    } else {
        lemma_dec_digits(n / 10);
        let d = dec_digits(n / 10);
        assert(dec_digits(n) =~= d.push(digit_char(n % 10)));
        assert(dec_digits(n).drop_last() =~= d);
        assert(dec_digits(n)[0] == d[0]);
        assert(forall|i: int|
            0 <= i < dec_digits(n).len() ==> is_digit(#[trigger] dec_digits(n)[i]));
    }
}

/// Appends the decimal rendering of `n` to `out`.
pub fn push_usize_dec(out: &mut String, n: usize)
    ensures
        final(out)@ == old(out)@ + dec_digits(n as nat),
    decreases n,
{
    if n < 10 {
        let c = digit_char_exec(n as u8);
        push_char(out, c);
        proof {
            assert(out@ =~= old(out)@ + dec_digits(n as nat));
        }
    } else {
        push_usize_dec(out, n / 10);
        let c = digit_char_exec((n % 10) as u8);
        push_char(out, c);
        proof {
            assert(out@ =~= old(out)@ + dec_digits(n as nat));
        }
    }
}

/// The digit character for a value below ten.
pub fn digit_char_exec(d: u8) -> (c: char)
    requires
        d < 10,
    ensures
        c == digit_char(d as nat),
{
    match d {
        0 => '0',
        1 => '1',
        2 => '2',
        3 => '3',
        4 => '4',
        5 => '5',
        6 => '6',
        7 => '7',
        8 => '8',
        _ => '9',
    }
}

/// The decimal rendering of `n` as a fresh string.
pub fn usize_to_dec(n: usize) -> (r: String)
    ensures
        r@ == dec_digits(n as nat),
{
    let mut s = String::new();
    push_usize_dec(&mut s, n);
    proof {
        assert(s@ =~= dec_digits(n as nat));
    }
    s
}

/// Reading one more digit multiplies the value by ten and adds the digit.
pub proof fn lemma_digits_val_push(s: Seq<char>, c: char)
    ensures
        digits_val(s.push(c)) == digits_val(s) * 10 + digit_val(c),
{
    assert(s.push(c).drop_last() =~= s);
    assert(s.push(c).last() == c);
}

/// Strict lexicographic order on character sequences, by code point.
pub open spec fn seq_lt(a: Seq<char>, b: Seq<char>) -> bool
    decreases a.len(),
{
    if b.len() == 0 {
        false
    } else if a.len() == 0 {
        true
    } else if a[0] != b[0] {
        (a[0] as u32) < (b[0] as u32)
    } else {
        seq_lt(a.drop_first(), b.drop_first())
    }
}

/// Decides `seq_lt` on two strings.
pub fn str_lt(a: &str, b: &str) -> (r: bool)
    ensures
        r == seq_lt(a@, b@),
{
    let av = str_chars(a);
    let bv = str_chars(b);
    proof {
        assert(av@.skip(0) =~= a@);
        assert(bv@.skip(0) =~= b@);
    }
    chars_lt(&av, &bv, 0)
}

/// Where `x` stands in `s` when inserted before the first strictly greater
/// entry, keeping entries already placed in order.
pub open spec fn insert_sorted(s: Seq<Seq<char>>, x: Seq<char>) -> Seq<Seq<char>>
    decreases s.len(),
{
    if s.len() == 0 {
        seq![x]
    } else if seq_lt(x, s[0]) {
        seq![x] + s
    } else {
        seq![s[0]] + insert_sorted(s.drop_first(), x)
    }
}

/// Insertion sort of a sequence of strings, by [`seq_lt`].
pub open spec fn sort_seqs(s: Seq<Seq<char>>) -> Seq<Seq<char>>
    decreases s.len(),
{
    if s.len() == 0 {
        Seq::empty()
    } else {
        insert_sorted(sort_seqs(s.drop_last()), s.last())
    }
}

/// Drops each entry that equals its predecessor.
pub open spec fn dedup_adjacent(s: Seq<Seq<char>>) -> Seq<Seq<char>>
    decreases s.len(),
{
    if s.len() == 0 {
        Seq::empty()
    } else if s.len() >= 2 && s.last() == s[s.len() - 2] {
        dedup_adjacent(s.drop_last())
    } else {
        dedup_adjacent(s.drop_last()).push(s.last())
    }
}

/// Sorts the strings by code point and drops adjacent duplicates, as
/// [`sort_seqs`] and [`dedup_adjacent`] name it.
pub fn sort_dedup_strings(items: Vec<String>) -> (r: Vec<String>)
    ensures
        str_views(r@) == dedup_adjacent(sort_seqs(str_views(items@))),
{
    let sorted = sort_strings(items);
    let mut out: Vec<String> = Vec::new();
    let n = sorted.len();
    let mut i: usize = 0;
    proof {
        assert(str_views(sorted@).subrange(0, 0) =~= Seq::<Seq<char>>::empty());
        assert(str_views(out@) =~= Seq::<Seq<char>>::empty());
    }
    while i < n
        invariant
            i <= n,
            n == sorted@.len(),
            str_views(out@) == dedup_adjacent(str_views(sorted@).subrange(0, i as int)),
        decreases n - i,
    {
        let ghost pre = str_views(sorted@).subrange(0, i as int);
        let ghost cur = str_views(sorted@).subrange(0, i as int + 1);
        proof {
            assert(cur.drop_last() =~= pre);
            assert(cur.last() == sorted@[i as int]@);
            if pre.len() > 0 {
                lemma_dedup_last(pre);
                assert(cur[cur.len() - 2] == pre.last());
            }
        }
        let keep: bool = if out.len() == 0 {
            true
        } else {
            !crate::value::str_eq(out[out.len() - 1].as_str(), sorted[i].as_str())
        };
        if keep {
            proof {
                if cur.len() >= 2 {
                    assert(pre.len() > 0);
                    assert(str_views(out@).len() > 0);
                    assert(str_views(out@).last() == dedup_adjacent(pre).last());
                    assert(out@[out@.len() - 1]@ == pre.last());
                    assert(cur.last() != cur[cur.len() - 2]);
                }
            }
            let s = sorted[i].clone();
            out.push(s);
            proof {
                assert(str_views(out@) =~= dedup_adjacent(pre).push(cur.last()));
            }
        } else {
            proof {
                assert(out@.len() > 0);
                assert(pre.len() > 0);
                assert(out@[out@.len() - 1]@ == dedup_adjacent(pre).last());
                assert(cur.last() == cur[cur.len() - 2]);
                assert(dedup_adjacent(cur) == dedup_adjacent(pre));
            }
        }
        i = i + 1;
    }
    proof {
        assert(str_views(sorted@).subrange(0, n as int) =~= str_views(sorted@));
    }
    out
}

/// The views of a vector of strings.
pub open spec fn str_views(s: Seq<String>) -> Seq<Seq<char>> {
    Seq::new(s.len(), |i: int| s[i]@)
}

/// The dedup of a nonempty list ends with the list's last entry.
proof fn lemma_dedup_last(s: Seq<Seq<char>>)
    requires
        s.len() > 0,
    ensures
        dedup_adjacent(s).len() > 0,
        dedup_adjacent(s).last() == s.last(),
    decreases s.len(),
{
    if s.len() >= 2 && s.last() == s[s.len() - 2] {
        lemma_dedup_last(s.drop_last());
        assert(s.drop_last().last() == s[s.len() - 2]);
    }
}

/// Sorts the strings by code point, as [`sort_seqs`] names it.
pub fn sort_strings(items: Vec<String>) -> (r: Vec<String>)
    ensures
        str_views(r@) == sort_seqs(str_views(items@)),
{
    let mut out: Vec<String> = Vec::new();
    let n = items.len();
    let mut i: usize = 0;
    proof {
        assert(str_views(items@).subrange(0, 0) =~= Seq::<Seq<char>>::empty());
        assert(str_views(out@) =~= Seq::<Seq<char>>::empty());
        assert(sort_seqs(Seq::<Seq<char>>::empty()) =~= Seq::<Seq<char>>::empty());
    }
    while i < n
        invariant
            i <= n,
            n == items@.len(),
            str_views(out@) == sort_seqs(str_views(items@).subrange(0, i as int)),
        decreases n - i,
    {
        let ghost pre = str_views(items@).subrange(0, i as int);
        let ghost cur = str_views(items@).subrange(0, i as int + 1);
        proof {
            assert(cur.drop_last() =~= pre);
            assert(cur.last() == items@[i as int]@);
        }
        let x = items[i].clone();
        insert_string_sorted(&mut out, x);
        i = i + 1;
    }
    proof {
        assert(str_views(items@).subrange(0, n as int) =~= str_views(items@));
    }
    out
}

/// Inserts `x` before the first strictly greater entry.
fn insert_string_sorted(out: &mut Vec<String>, x: String)
    ensures
        str_views(final(out)@) == insert_sorted(str_views(old(out)@), x@),
{
    let n = out.len();
    let mut i: usize = 0;
    while i < n
        invariant
            i <= n,
            n == out@.len(),
            out@ == old(out)@,
            forall|w: int| 0 <= w < i ==> !seq_lt(x@, (#[trigger] out@[w])@),
        ensures
            i <= n,
            n == out@.len(),
            out@ == old(out)@,
            forall|w: int| 0 <= w < i ==> !seq_lt(x@, (#[trigger] out@[w])@),
            i < n ==> seq_lt(x@, out@[i as int]@),
        decreases n - i,
    {
        if str_lt(x.as_str(), out[i].as_str()) {
            break;
        }
        i = i + 1;
    }
    out.insert(i, x);
    proof {
        assert forall|w: int| 0 <= w < i implies !seq_lt(
            x@,
            #[trigger] str_views(old(out)@)[w],
        ) by {
            assert(str_views(old(out)@)[w] == old(out)@[w]@);
        }
        if (i as int) < str_views(old(out)@).len() {
            assert(str_views(old(out)@)[i as int] == old(out)@[i as int]@);
        }
        lemma_insert_sorted_at(str_views(old(out)@), x@, i as int);
        assert(str_views(out@) =~= str_views(old(out)@).insert(i as int, x@));
    }
}

/// Inserting before the first strictly greater entry is what
/// [`insert_sorted`] names.
proof fn lemma_insert_sorted_at(s: Seq<Seq<char>>, x: Seq<char>, i: int)
    requires
        0 <= i <= s.len(),
        forall|w: int| 0 <= w < i ==> !seq_lt(x, #[trigger] s[w]),
        i < s.len() ==> seq_lt(x, s[i]),
    ensures
        insert_sorted(s, x) == s.insert(i, x),
    decreases s.len(),
{
    if s.len() == 0 {
        assert(insert_sorted(s, x) =~= s.insert(0, x));
    } else if i == 0 {
        assert(insert_sorted(s, x) =~= s.insert(0, x));
    } else {
        assert(!seq_lt(x, s[0]));
        let tail = s.drop_first();
        assert(forall|w: int| 0 <= w < tail.len() ==> #[trigger] tail[w] == s[w + 1]);
        lemma_insert_sorted_at(tail, x, i - 1);
        assert(insert_sorted(s, x) == seq![s[0]] + tail.insert(i - 1, x));
        assert(seq![s[0]] + tail.insert(i - 1, x) =~= s.insert(i, x));
    }
}

fn chars_lt(a: &Vec<char>, b: &Vec<char>, i: usize) -> (r: bool)
    requires
        i <= a.len(),
        i <= b.len(),
    ensures
        r == seq_lt(a@.skip(i as int), b@.skip(i as int)),
    decreases a.len() - i,
{
    proof {
        let sa = a@.skip(i as int);
        let sb = b@.skip(i as int);
        if sa.len() > 0 {
            assert(sa[0] == a@[i as int]);
            assert(sa.drop_first() =~= a@.skip(i as int + 1));
        }
        if sb.len() > 0 {
            assert(sb[0] == b@[i as int]);
            assert(sb.drop_first() =~= b@.skip(i as int + 1));
        }
    }
    if i == b.len() {
        false
    } else if i == a.len() {
        true
    } else {
        let ca = a[i];
        let cb = b[i];
        if ca != cb {
            (ca as u32) < (cb as u32)
        } else {
            chars_lt(a, b, i + 1)
        }
    }
}

} // verus!
