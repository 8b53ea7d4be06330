//! A structured parser for path expressions such as `user.items[0].name`,
//! used by callers that want segment lists with positioned errors.
//!
//! Unlike the scanner behind [`crate::json_path::JsonPath::parse_str`], this
//! one refuses a stray `]` as an unclosed bracket and reports a bad index
//! with the whole text found between the brackets.

use vstd::prelude::*;
use crate::formatter::path_filter::find_from;
use crate::formatter::path_filter::lemma_find_from;
use crate::json_path::PathSegment;
use crate::json_path::SegView;
use crate::json_path::seg_views;
use crate::strings::all_digits;
use crate::strings::digits_val;
use crate::strings::is_digit;
use crate::strings::lemma_digits_val_push;
use crate::strings::push_char;
use crate::strings::str_chars;

verus! {

/// A failure while reading a path expression.
#[derive(Debug, Clone, PartialEq, Eq)]
pub enum ParseError {
    /// The bracket group held no readable index; `found` is the text
    /// between the brackets.
    InvalidArrayIndex { position: usize, found: String },
    /// A bracket group never closes, or a stray `]` stands alone.
    UnclosedBracket { position: usize },
    /// Reserved for an empty path segment; the scanner never yields one.
    EmptySegment { position: usize },
}

/// Specification-level parse failure, with unbounded positions.
#[verifier::ext_equal]
pub enum PpErrView {
    InvalidArrayIndex { position: int, found: Seq<char> },
    UnclosedBracket { position: int },
    EmptySegment { position: int },
}

impl View for ParseError {
    type V = PpErrView;

    open spec fn view(&self) -> PpErrView {
        match self {
            ParseError::InvalidArrayIndex { position, found } => PpErrView::InvalidArrayIndex {
                position: *position as int,
                found: found@,
            },
            ParseError::UnclosedBracket { position } => PpErrView::UnclosedBracket {
                position: *position as int,
            },
            ParseError::EmptySegment { position } => PpErrView::EmptySegment {
                position: *position as int,
            },
        }
    }
}

/// How many consecutive characters at `i` belong to a key: anything but
/// `.`, `[` and `]`.
pub open spec fn key3_len(s: Seq<char>, i: int) -> nat
    decreases s.len() - i,
{
    if 0 <= i < s.len() && s[i] != '.' && s[i] != '[' && s[i] != ']' {
        1 + key3_len(s, i + 1)
    } else {
        0
    }
}

/// The key run starting at `i` stays inside the input, avoids the three
/// delimiters, and ends at the input's end or at one of them.
pub proof fn lemma_key3_len(s: Seq<char>, i: int)
    requires
        0 <= i <= s.len(),
    ensures
        i + key3_len(s, i) <= s.len(),
        forall|k: int| i <= k < i + key3_len(s, i) ==> (#[trigger] s[k]) != '.' && s[k] != '['
            && s[k] != ']',
        i + key3_len(s, i) == s.len() || s[i + key3_len(s, i)] == '.' || s[i + key3_len(s, i)]
            == '[' || s[i + key3_len(s, i)] == ']',
    decreases s.len() - i,
{
    if i < s.len() && s[i] != '.' && s[i] != '[' && s[i] != ']' {
        lemma_key3_len(s, i + 1);
    }
}

/// Reads segments from position `i` on: a dot is skipped, a bracket group
/// must hold a readable index, a stray `]` is refused, and any other run of
/// characters is a key.
pub open spec fn pp_from(s: Seq<char>, i: int) -> Result<Seq<SegView>, PpErrView>
    decreases s.len() - i,
    via pp_from_dec
{
    if i < 0 || i >= s.len() {
        Ok(Seq::empty())
    } else if s[i] == '.' {
        pp_from(s, i + 1)
    } else if s[i] == '[' {
        let e = find_from(s, i + 1, ']');
        if e >= s.len() {
            Err(PpErrView::UnclosedBracket { position: i })
        } else {
            let idx = s.subrange(i + 1, e);
            if idx.len() > 0 && all_digits(idx) && digits_val(idx) <= usize::MAX {
                match pp_from(s, e + 1) {
                    Ok(rest) => Ok(seq![SegView::Index(digits_val(idx))] + rest),
                    Err(er) => Err(er),
                }
            } else {
                Err(PpErrView::InvalidArrayIndex { position: i + 1, found: idx })
            }
        }
    } else if s[i] == ']' {
        Err(PpErrView::UnclosedBracket { position: i })
    } else {
        let j = i + key3_len(s, i) as int;
        match pp_from(s, j) {
            Ok(rest) => Ok(seq![SegView::Key(s.subrange(i, j))] + rest),
            Err(er) => Err(er),
        }
    }
}

#[via_fn]
proof fn pp_from_dec(s: Seq<char>, i: int) {
    if 0 <= i < s.len() {
        if s[i] == '[' {
            lemma_find_from(s, i + 1, ']');
        } else if s[i] != '.' && s[i] != ']' {
            lemma_key3_len(s, i);
        }
    }
}

/// A parsed path expression: the segments it named.
pub struct PathParser {
    segments: Vec<PathSegment>,
}

impl PathParser {
    /// The segments this parse named.
    pub closed spec fn segs(&self) -> Seq<SegView> {
        seg_views(self.segments@)
    }

    /// Reads a whole path expression.  The result, on either side, is
    /// exactly what [`pp_from`] names for the input.
    pub fn parse(path: &str) -> (r: Result<PathParser, ParseError>)
        ensures
            match r {
                Ok(p) => pp_from(path@, 0) == Ok::<Seq<SegView>, PpErrView>(p.segs()),
                Err(e) => pp_from(path@, 0) == Err::<Seq<SegView>, PpErrView>(e@),
            },
    {
        let cs = str_chars(path);
        let ghost sq = path@;
        let n = cs.len();
        let mut segs: Vec<PathSegment> = Vec::new();
        let mut i: usize = 0;
        proof {
            assert(seg_views(segs@) =~= Seq::<SegView>::empty());
        }
        while i < n
            invariant
                i <= n,
                n == sq.len(),
                cs@ == sq,
                sq == path@,
                match pp_from(sq, i as int) {
                    Ok(rest) => pp_from(sq, 0) == Ok::<Seq<SegView>, PpErrView>(
                        seg_views(segs@) + rest,
                    ),
                    Err(e) => pp_from(sq, 0) == Err::<Seq<SegView>, PpErrView>(e),
                },
            decreases n - i,
        {
            let ghost front = seg_views(segs@);
            let c = cs[i];
            if c == '.' {
                i = i + 1;
            } else if c == '[' {
                // Scan to the closing bracket.
                let mut k: usize = i + 1;
                while k < n && cs[k] != ']'
                    invariant
                        i + 1 <= k <= n,
                        n == sq.len(),
                        cs@ == sq,
                        forall|w: int| i + 1 <= w < k ==> (#[trigger] sq[w]) != ']',
                    decreases n - k,
                {
                    k = k + 1;
                }
                proof {
                    lemma_find_from(sq, i as int + 1, ']');
                    assert(find_from(sq, i as int + 1, ']') == k as int) by {
                        if k < n {
                            lemma_find_from_exact(sq, i as int + 1, k as int, ']');
                        } else {
                            lemma_find_from_none(sq, i as int + 1, ']');
                        }
                    }
                }
                if k == n {
                    return Err(ParseError::UnclosedBracket { position: i });
                }
                let ghost idxg = sq.subrange(i as int + 1, k as int);
                // Read the digits, watching for overflow.
                let mut acc: Option<usize> = if k == i + 1 {
                    None
                } else {
                    Some(0)
                };
                let mut t: usize = i + 1;
                proof {
                    assert(sq.subrange(i as int + 1, i as int + 1) =~= Seq::<char>::empty());
                }
                while t < k
                    invariant
                        i + 1 <= t <= k,
                        k < n,
                        n == sq.len(),
                        cs@ == sq,
                        idxg == sq.subrange(i as int + 1, k as int),
                        match acc {
                            Some(v) => k > i + 1 && (forall|w: int|
                                i + 1 <= w < t ==> is_digit(#[trigger] sq[w])) && v
                                == digits_val(sq.subrange(i as int + 1, t as int)) && v
                                <= usize::MAX,
                            None => !(idxg.len() > 0 && all_digits(idxg) && digits_val(idxg)
                                <= usize::MAX),
                        },
                    decreases k - t,
                {
                    let c2 = cs[t];
                    proof {
                        assert(idxg[t - i - 1] == sq[t as int]);
                    }
                    if !is_digit_exec2(c2) {
                        proof {
                            assert(!all_digits(idxg));
                        }
                        acc = None;
                        t = k;
                    } else {
                        let d = char_digit2(c2);
                        proof {
                            assert(sq.subrange(i as int + 1, t + 1 as int) =~= sq.subrange(
                                i as int + 1,
                                t as int,
                            ).push(sq[t as int]));
                            lemma_digits_val_push(
                                sq.subrange(i as int + 1, t as int),
                                sq[t as int],
                            );
                        }
                        acc = match acc {
                            Some(v) => {
                                if v > (usize::MAX - d as usize) / 10 {
                                    proof {
                                        crate::json_path::lemma_mul10_overflow(
                                            v as int,
                                            d as int,
                                        );
                                        lemma_digits_prefix_overflow(
                                            sq,
                                            i as int + 1,
                                            t as int + 1,
                                            k as int,
                                        );
                                    }
                                    None
                                } else {
                                    Some(v * 10 + d as usize)
                                }
                            },
                            None => None,
                        };
                        t = t + 1;
                    }
                }
                match acc {
                    None => {
                        let found = chars_to_string2(&cs, i + 1, k);
                        return Err(ParseError::InvalidArrayIndex { position: i + 1, found });
                    },
                    Some(v) => {
                        proof {
                            assert(idxg.len() > 0);
                            assert(all_digits(idxg)) by {
                                assert(forall|w: int| 0 <= w < idxg.len()
                                    ==> #[trigger] idxg[w] == sq[i + 1 + w]);
                            }
                            assert(digits_val(idxg) == v);
                        }
                        segs.push(PathSegment::Index(v));
                        proof {
                            assert(seg_views(segs@) =~= front.push(SegView::Index(v as nat)));
                            let rest_res = pp_from(sq, k as int + 1);
                            if rest_res is Ok {
                                assert(front + (seq![SegView::Index(digits_val(idxg))]
                                    + rest_res->Ok_0) =~= front.push(SegView::Index(v as nat))
                                    + rest_res->Ok_0);
                            }
                        }
                        i = k + 1;
                    },
                }
            } else if c == ']' {
                return Err(ParseError::UnclosedBracket { position: i });
            } else {
                // Scan and copy the key run.
                let mut key = String::new();
                let mut k: usize = i;
                while k < n && cs[k] != '.' && cs[k] != '[' && cs[k] != ']'
                    invariant
                        i <= k <= n,
                        n == sq.len(),
                        cs@ == sq,
                        key3_len(sq, i as int) == (k - i) + key3_len(sq, k as int),
                        key@ == sq.subrange(i as int, k as int),
                    decreases n - k,
                {
                    push_char(&mut key, cs[k]);
                    proof {
                        assert(sq.subrange(i as int, k + 1 as int) =~= sq.subrange(
                            i as int,
                            k as int,
                        ).push(sq[k as int]));
                    }
                    k = k + 1;
                }
                proof {
                    assert(key3_len(sq, k as int) == 0);
                    assert(key3_len(sq, i as int) == k - i);
                }
                segs.push(PathSegment::Key(key));
                proof {
                    assert(seg_views(segs@) =~= front.push(
                        SegView::Key(sq.subrange(i as int, k as int)),
                    ));
                    let rest_res = pp_from(sq, k as int);
                    if rest_res is Ok {
                        assert(front + (seq![SegView::Key(sq.subrange(i as int, k as int))]
                            + rest_res->Ok_0) =~= front.push(
                            SegView::Key(sq.subrange(i as int, k as int)),
                        ) + rest_res->Ok_0);
                    }
                }
                i = k;
            }
        }
        proof {
            assert(pp_from(sq, i as int) == Ok::<Seq<SegView>, PpErrView>(Seq::empty()));
            assert(seg_views(segs@) + Seq::<SegView>::empty() =~= seg_views(segs@));
        }
        Ok(PathParser { segments: segs })
    }

    /// The parsed segments.
    pub fn into_segments(self) -> (r: Vec<PathSegment>)
        ensures
            seg_views(r@) == self.segs(),
    {
        self.segments
    }
}

/// Within a digit prefix that already overflows, the whole group overflows.
proof fn lemma_digits_prefix_overflow(s: Seq<char>, a: int, t: int, k: int)
    requires
        0 <= a <= t <= k <= s.len(),
        digits_val(s.subrange(a, t)) > usize::MAX,
    ensures
        !(digits_val(s.subrange(a, k)) <= usize::MAX),
    decreases k - t,
{
    if t < k {
        assert(s.subrange(a, t + 1) =~= s.subrange(a, t).push(s[t]));
        lemma_digits_val_push(s.subrange(a, t), s[t]);
        lemma_digits_prefix_overflow(s, a, t + 1, k);
    }
}

/// Where the scan stopped on the needle, that is the first occurrence.
proof fn lemma_find_from_exact(s: Seq<char>, i: int, k: int, c: char)
    requires
        0 <= i <= k < s.len(),
        s[k] == c,
        forall|w: int| i <= w < k ==> (#[trigger] s[w]) != c,
    ensures
        find_from(s, i, c) == k,
    decreases k - i,
{
    if i < k {
        lemma_find_from_exact(s, i + 1, k, c);
    }
}

/// Where the scan ran off the end, there is no occurrence.
proof fn lemma_find_from_none(s: Seq<char>, i: int, c: char)
    requires
        0 <= i <= s.len(),
        forall|w: int| i <= w < s.len() ==> (#[trigger] s[w]) != c,
    ensures
        find_from(s, i, c) == s.len(),
    decreases s.len() - i,
{
    if i < s.len() {
        lemma_find_from_none(s, i + 1, c);
    }
}

/// Whether `c` is a decimal digit.
fn is_digit_exec2(c: char) -> (r: bool)
    ensures
        r == is_digit(c),
{
    let u = c as u32;
    48 <= u && u <= 57
}

/// The numeric value of a digit character.
fn char_digit2(c: char) -> (d: u8)
    requires
        is_digit(c),
    ensures
        d < 10,
        d as nat == crate::strings::digit_val(c),
{
    (c as u32 - '0' as u32) as u8
}

/// Copies the characters `cs[i..k]` into a fresh string.
fn chars_to_string2(cs: &Vec<char>, i: usize, k: usize) -> (r: String)
    requires
        i <= k <= cs@.len(),
    ensures
        r@ == cs@.subrange(i as int, k as int),
{
    let mut out = String::new();
    let mut t: usize = i;
    proof {
        assert(out@ =~= cs@.subrange(i as int, i as int));
    }
    while t < k
        invariant
            i <= t <= k,
            k <= cs@.len(),
            out@ == cs@.subrange(i as int, t as int),
        decreases k - t,
    {
        push_char(&mut out, cs[t]);
        proof {
            assert(cs@.subrange(i as int, t + 1 as int) =~= cs@.subrange(i as int, t as int).push(
                cs@[t as int],
            ));
        }
        t = t + 1;
    }
    out
}

} // verus!
