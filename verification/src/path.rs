//! Helpers over dot-notation path text: joining a parent path with a key or
//! an index, and taking a path text apart from the right.

use vstd::prelude::*;
use vstd::string::StringExecFns;
use crate::strings::dec_digits;
use crate::strings::push_char;
use crate::strings::push_usize_dec;
use crate::strings::str_chars;

verus! {

/// The last position holding `c`, or `-1` when there is none.
pub open spec fn rfind(s: Seq<char>, c: char) -> int
    decreases s.len(),
{
    if s.len() == 0 {
        -1
    } else if s.last() == c {
        s.len() - 1
    } else {
        rfind(s.drop_last(), c)
    }
}

/// Bounds and meaning of [`rfind`].
pub proof fn lemma_rfind(s: Seq<char>, c: char)
    ensures
        -1 <= rfind(s, c) < s.len(),
        rfind(s, c) >= 0 ==> s[rfind(s, c)] == c,
        forall|w: int| rfind(s, c) < w < s.len() ==> (#[trigger] s[w]) != c,
    decreases s.len(),
{
    if s.len() > 0 && s.last() != c {
        lemma_rfind(s.drop_last(), c);
        assert forall|w: int| rfind(s, c) < w < s.len() implies (#[trigger] s[w]) != c by {
            if w < s.len() - 1 {
                assert(s.drop_last()[w] == s[w]);
            }
        }
    }
}

/// `parent` and `key` joined by a dot; a root parent joins without one.
pub fn join_path(parent: &str, key: &str) -> (r: String)
    ensures
        r@ == (if parent@.len() == 0 {
            key@
        } else {
            parent@ + seq!['.'] + key@
        }),
{
    if parent.is_empty() {
        key.to_owned()
    } else {
        let mut out = parent.to_owned();
        push_char(&mut out, '.');
        out.append(key);
        proof {
            assert(out@ =~= parent@ + seq!['.'] + key@);
        }
        out
    }
}

/// `parent` with `[index]` appended.
pub fn join_array_path(parent: &str, index: usize) -> (r: String)
    ensures
        r@ == parent@ + seq!['['] + dec_digits(index as nat) + seq![']'],
{
    let mut out = parent.to_owned();
    push_char(&mut out, '[');
    push_usize_dec(&mut out, index);
    push_char(&mut out, ']');
    proof {
        assert(out@ =~= parent@ + seq!['['] + dec_digits(index as nat) + seq![']']);
    }
    out
}

/// What [`parent_path`] yields: everything before the last segment, or the
/// empty text.
pub open spec fn parent_path_spec(s: Seq<char>) -> Seq<char> {
    if s.len() == 0 {
        Seq::empty()
    } else if s.last() == ']' && rfind(s, '[') >= 0 {
        s.subrange(0, rfind(s, '['))
    } else if rfind(s, '.') >= 0 {
        s.subrange(0, rfind(s, '.'))
    } else {
        Seq::empty()
    }
}

/// The path text with its last segment dropped: a trailing bracket group or
/// the text after the last dot; a single segment leaves the empty text.
pub fn parent_path(path: &str) -> (r: String)
    ensures
        r@ == parent_path_spec(path@),
{
    let cs = str_chars(path);
    let n = cs.len();
    if n == 0 {
        return String::new();
    }
    proof {
        lemma_rfind(path@, '[');
        lemma_rfind(path@, '.');
    }
    if cs[n - 1] == ']' {
        if let Some(b) = rfind_exec(&cs, '[') {
            return copy_range(&cs, 0, b);
        }
    }
    if let Some(d) = rfind_exec(&cs, '.') {
        return copy_range(&cs, 0, d);
    }
    String::new()
}

/// What [`last_segment`] yields.
pub open spec fn last_segment_spec(s: Seq<char>) -> Seq<char> {
    if s.len() == 0 {
        Seq::empty()
    } else if s.last() == ']' && rfind(s, '[') >= 0 {
        s.subrange(rfind(s, '['), s.len() as int)
    } else if rfind(s, '.') >= 0 {
        s.subrange(rfind(s, '.') + 1, s.len() as int)
    } else {
        s
    }
}

/// The last segment of the path text: a trailing bracket group with its
/// brackets, or the text after the last dot, or the whole text.
pub fn last_segment(path: &str) -> (r: String)
    ensures
        r@ == last_segment_spec(path@),
{
    let cs = str_chars(path);
    let n = cs.len();
    if n == 0 {
        return String::new();
    }
    proof {
        lemma_rfind(path@, '[');
        lemma_rfind(path@, '.');
    }
    if cs[n - 1] == ']' {
        if let Some(b) = rfind_exec(&cs, '[') {
            return copy_range(&cs, b, n);
        }
    }
    if let Some(d) = rfind_exec(&cs, '.') {
        return copy_range(&cs, d + 1, n);
    }
    proof {
        assert(path@.subrange(0, n as int) =~= path@);
    }
    copy_range(&cs, 0, n)
}

/// The last position holding `c`, if any.
fn rfind_exec(cs: &Vec<char>, c: char) -> (r: Option<usize>)
    ensures
        match r {
            Some(i) => rfind(cs@, c) == i,
            None => rfind(cs@, c) == -1,
        },
{
    proof {
        lemma_rfind(cs@, c);
    }
    let mut i: usize = cs.len();
    while i > 0
        invariant
            i <= cs@.len(),
            forall|w: int| i <= w < cs@.len() ==> (#[trigger] cs@[w]) != c,
        decreases i,
    {
        i = i - 1;
        if cs[i] == c {
            proof {
                lemma_rfind_exact(cs@, c, i as int);
            }
            return Some(i);
        }
    }
    proof {
        lemma_rfind_none(cs@, c);
    }
    None
}

/// Where a scan from the right stops on the needle, that is the last
/// occurrence.
proof fn lemma_rfind_exact(s: Seq<char>, c: char, i: int)
    requires
        0 <= i < s.len(),
        s[i] == c,
        forall|w: int| i < w < s.len() ==> (#[trigger] s[w]) != c,
    ensures
        rfind(s, c) == i,
    decreases s.len(),
{
    if i < s.len() - 1 {
        assert(s.last() != c);
        assert(forall|w: int| 0 <= w < s.len() - 1 ==> #[trigger] s.drop_last()[w] == s[w]);
        lemma_rfind_exact(s.drop_last(), c, i);
    }
}

/// Where no position holds the needle, there is no occurrence.
proof fn lemma_rfind_none(s: Seq<char>, c: char)
    requires
        forall|w: int| 0 <= w < s.len() ==> (#[trigger] s[w]) != c,
    ensures
        rfind(s, c) == -1,
    decreases s.len(),
{
    if s.len() > 0 {
        assert(forall|w: int| 0 <= w < s.len() - 1 ==> #[trigger] s.drop_last()[w] == s[w]);
        lemma_rfind_none(s.drop_last(), c);
    }
}

/// Copies the characters `cs[a..b]` into a fresh string.
fn copy_range(cs: &Vec<char>, a: usize, b: usize) -> (r: String)
    requires
        a <= b <= cs@.len(),
    ensures
        r@ == cs@.subrange(a as int, b as int),
{
    let mut out = String::new();
    let mut t: usize = a;
    proof {
        assert(out@ =~= cs@.subrange(a as int, a as int));
    }
    while t < b
        invariant
            a <= t <= b,
            b <= cs@.len(),
            out@ == cs@.subrange(a as int, t as int),
        decreases b - t,
    {
        push_char(&mut out, cs[t]);
        proof {
            assert(cs@.subrange(a as int, t + 1 as int) =~= cs@.subrange(a as int, t as int).push(
                cs@[t as int],
            ));
        }
        t = t + 1;
    }
    out
}

} // verus!
