//! Typed JSON paths.
//!
//! A [`JsonPath`] names a location inside a JSON document as a sequence of
//! [`PathSegment`]s, each an object key or an array index.  The empty sequence
//! names the document root.  A path has two textual forms that both round-trip
//! through the segment sequence: dot notation (`users[0].email`) and the
//! RFC 6901 JSON Pointer form (`/users/0/email`).

use vstd::prelude::*;
use vstd::string::StringExecFns;
use crate::strings::all_digits;
use crate::strings::dec_digits;
use crate::strings::digit_val;
use crate::strings::digits_val;
use crate::strings::is_digit;
use crate::strings::lemma_dec_digits;
use crate::strings::lemma_digits_val_push;
use crate::strings::push_char;
use crate::strings::push_usize_dec;
use crate::strings::str_chars;

verus! {

/// Specification-level path segment.
#[verifier::ext_equal]
pub enum SegView {
    Key(Seq<char>),
    Index(nat),
}

/// A single segment in a path: an object property key or an array index.
#[derive(Debug, PartialEq, Eq, Hash)]
pub enum PathSegment {
    Key(String),
    Index(usize),
}

impl View for PathSegment {
    type V = SegView;

    open spec fn view(&self) -> SegView {
        match self {
            PathSegment::Key(k) => SegView::Key(k@),
            PathSegment::Index(i) => SegView::Index(*i as nat),
        }
    }
}

impl Clone for PathSegment {
    /// A clone abstracts to the same segment.
    fn clone(&self) -> (res: Self)
        ensures
            res@ == self@,
    {
        match self {
            PathSegment::Key(k) => PathSegment::Key(k.clone()),
            PathSegment::Index(i) => PathSegment::Index(*i),
        }
    }
}

/// Decides whether two segments denote the same key or index.
pub fn seg_eq(a: &PathSegment, b: &PathSegment) -> (r: bool)
    ensures
        r == (a@ == b@),
{
    match (a, b) {
        (PathSegment::Key(x), PathSegment::Key(y)) => crate::value::str_eq(x.as_str(), y.as_str()),
        (PathSegment::Index(x), PathSegment::Index(y)) => x == y,
        _ => false,
    }
}

/// The abstraction of a segment vector.
pub open spec fn seg_views(s: Seq<PathSegment>) -> Seq<SegView> {
    Seq::new(s.len(), |i: int| s[i]@)
}

/// A typed path into a JSON document.
#[derive(Debug, PartialEq, Eq, Hash)]
pub struct JsonPath {
    segments: Vec<PathSegment>,
}

impl View for JsonPath {
    type V = Seq<SegView>;

    closed spec fn view(&self) -> Seq<SegView> {
        seg_views(self.segments@)
    }
}

/// Segment-wise prefix: `p` is a prefix of `q`.
pub open spec fn is_seg_prefix(p: Seq<SegView>, q: Seq<SegView>) -> bool {
    p.len() <= q.len() && (forall|i: int| 0 <= i < p.len() ==> p[i] == q[i])
}

/// Dot-notation rendering of one segment; the leading dot is left off the
/// first segment of a path.
pub open spec fn render_seg_dot(seg: SegView, first: bool) -> Seq<char> {
    match seg {
        SegView::Key(k) => if first {
            k
        } else {
            seq!['.'] + k
        },
        SegView::Index(n) => seq!['['] + dec_digits(n) + seq![']'],
    }
}

/// Dot-notation rendering of the segments from position `i` on.
pub open spec fn render_dot_from(p: Seq<SegView>, i: int) -> Seq<char>
    decreases p.len() - i,
{
    if i < 0 || i >= p.len() {
        Seq::empty()
    } else {
        render_seg_dot(p[i], i == 0) + render_dot_from(p, i + 1)
    }
}

/// Canonical dot-notation rendering of a path; the root renders as the empty
/// string.
pub open spec fn render_dot(p: Seq<SegView>) -> Seq<char> {
    render_dot_from(p, 0)
}

/// RFC 6901 escaping of a key: `~` becomes `~0` and `/` becomes `~1`.
pub open spec fn escape_ptr(k: Seq<char>) -> Seq<char>
    decreases k.len(),
{
    if k.len() == 0 {
        Seq::empty()
    } else {
        (if k[0] == '~' {
            seq!['~', '0']
        } else if k[0] == '/' {
            seq!['~', '1']
        } else {
            seq![k[0]]
        }) + escape_ptr(k.drop_first())
    }
}

/// JSON-Pointer rendering of one segment, always led by a slash.
pub open spec fn render_seg_ptr(seg: SegView) -> Seq<char> {
    match seg {
        SegView::Key(k) => seq!['/'] + escape_ptr(k),
        SegView::Index(n) => seq!['/'] + dec_digits(n),
    }
}

/// JSON-Pointer rendering of the segments from position `i` on.
pub open spec fn render_ptr_from(p: Seq<SegView>, i: int) -> Seq<char>
    decreases p.len() - i,
{
    if i < 0 || i >= p.len() {
        Seq::empty()
    } else {
        render_seg_ptr(p[i]) + render_ptr_from(p, i + 1)
    }
}

/// RFC 6901 rendering of a path; the root renders as the empty string.
pub open spec fn render_pointer(p: Seq<SegView>) -> Seq<char> {
    render_ptr_from(p, 0)
}

impl JsonPath {
    /// The empty path, naming the document root.
    pub fn new() -> (r: Self)
        ensures
            r@ == Seq::<SegView>::empty(),
    {
        let r = JsonPath { segments: Vec::new() };
        proof {
            assert(r@ =~= Seq::<SegView>::empty());
        }
        r
    }

    /// A path made of the given segments.
    pub fn from_segments(segments: Vec<PathSegment>) -> (r: Self)
        ensures
            r@ == seg_views(segments@),
    {
        JsonPath { segments }
    }

    /// The segments of this path.
    pub fn segments(&self) -> (r: &Vec<PathSegment>)
        ensures
            seg_views(r@) == self@,
    {
        &self.segments
    }

    /// Whether this path is the root.
    pub fn is_empty(&self) -> (r: bool)
        ensures
            r == (self@.len() == 0),
    {
        self.segments.len() == 0
    }

    /// The number of segments.
    pub fn len(&self) -> (r: usize)
        ensures
            r == self@.len(),
    {
        self.segments.len()
    }

    /// Appends one segment.
    pub fn push(&mut self, segment: PathSegment)
        ensures
            final(self)@ == old(self)@.push(segment@),
    {
        let ghost sv = segment@;
        self.segments.push(segment);
        proof {
            assert(self@ =~= old(self)@.push(sv));
        }
    }

    /// The path shortened by its last segment: all segments but the last,
    /// the root for a one-segment path.  Only the root itself has no parent.
    pub fn parent(&self) -> (r: Option<Self>)
        ensures
            match r {
                Some(p) => self@.len() >= 1 && p@ == self@.drop_last(),
                None => self@.len() == 0,
            },
    {
        if self.segments.len() == 0 {
            None
        } else {
            let mut out: Vec<PathSegment> = Vec::new();
            let n = self.segments.len() - 1;
            let mut i: usize = 0;
            while i < n
                invariant
                    i <= n,
                    n == self.segments@.len() - 1,
                    out@.len() == i,
                    forall|k: int| 0 <= k < i ==> (#[trigger] out@[k])@ == self.segments@[k]@,
                decreases n - i,
            {
                let s = self.seg_at(i);
                out.push(s);
                i = i + 1;
            }
            let r = JsonPath { segments: out };
            proof {
                assert(r@ =~= self@.drop_last());
            }
            Some(r)
        }
    }

    /// A copy of the segment at `i`.
    fn seg_at(&self, i: usize) -> (r: PathSegment)
        requires
            i < self.segments@.len(),
        ensures
            r@ == self@[i as int],
    {
        self.segments[i].clone()
    }

    /// Whether `prefix`'s segments are a component-wise prefix of this path's.
    pub fn matches_prefix(&self, prefix: &JsonPath) -> (r: bool)
        ensures
            r == is_seg_prefix(prefix@, self@),
    {
        let pn = prefix.segments.len();
        if pn > self.segments.len() {
            return false;
        }
        let mut i: usize = 0;
        while i < pn
            invariant
                i <= pn,
                pn == prefix.segments@.len(),
                pn <= self.segments@.len(),
                forall|k: int| 0 <= k < i ==> prefix@[k] == self@[k],
            decreases pn - i,
        {
            if !seg_eq(&prefix.segments[i], &self.segments[i]) {
                proof {
                    assert(prefix@[i as int] == prefix.segments@[i as int]@);
                    assert(self@[i as int] == self.segments@[i as int]@);
                }
                return false;
            }
            i = i + 1;
        }
        true
    }

    /// The first `n` segments as a new path; `None` when `n` is zero or
    /// exceeds the length.
    pub fn prefix(&self, n: usize) -> (r: Option<Self>)
        ensures
            match r {
                Some(p) => 1 <= n <= self@.len() && p@ == self@.subrange(0, n as int),
                None => n == 0 || n > self@.len(),
            },
    {
        if n == 0 || n > self.segments.len() {
            return None;
        }
        let mut out: Vec<PathSegment> = Vec::new();
        let mut i: usize = 0;
        while i < n
            invariant
                i <= n,
                n <= self.segments@.len(),
                out@.len() == i,
                forall|k: int| 0 <= k < i ==> (#[trigger] out@[k])@ == self.segments@[k]@,
            decreases n - i,
        {
            let s = self.seg_at(i);
            out.push(s);
            i = i + 1;
        }
        let r = JsonPath { segments: out };
        proof {
            assert(r@ =~= self@.subrange(0, n as int));
        }
        Some(r)
    }

    /// The dot-notation rendering of this path.
    pub fn to_string(&self) -> (r: String)
        ensures
            r@ == render_dot(self@),
    {
        let mut out = String::new();
        let n = self.segments.len();
        let mut i: usize = 0;
        proof {
            assert(out@ + render_dot_from(self@, 0) =~= render_dot_from(self@, 0));
        }
        while i < n
            invariant
                i <= n,
                n == self.segments@.len(),
                render_dot(self@) == out@ + render_dot_from(self@, i as int),
            decreases n - i,
        {
            let ghost pre = out@;
            match &self.segments[i] {
                PathSegment::Key(k) => {
                    if i > 0 {
                        push_char(&mut out, '.');
                    }
                    out.append(k.as_str());
                },
                PathSegment::Index(idx) => {
                    push_char(&mut out, '[');
                    push_usize_dec(&mut out, *idx);
                    push_char(&mut out, ']');
                },
            }
            proof {
                assert(out@ =~= pre + render_seg_dot(self@[i as int], i == 0));
                assert(render_dot(self@) == out@ + render_dot_from(self@, i as int + 1)) by {
                    assert(pre + render_seg_dot(self@[i as int], i == 0) + render_dot_from(
                        self@,
                        i as int + 1,
                    ) =~= pre + (render_seg_dot(self@[i as int], i == 0) + render_dot_from(
                        self@,
                        i as int + 1,
                    )));
                }
            }
            i = i + 1;
        }
        proof {
            assert(out@ + render_dot_from(self@, n as int) =~= out@);
        }
        out
    }

    /// The RFC 6901 JSON-Pointer rendering of this path.
    pub fn to_json_pointer(&self) -> (r: String)
        ensures
            r@ == render_pointer(self@),
    {
        let mut out = String::new();
        let n = self.segments.len();
        let mut i: usize = 0;
        proof {
            assert(out@ + render_ptr_from(self@, 0) =~= render_ptr_from(self@, 0));
        }
        while i < n
            invariant
                i <= n,
                n == self.segments@.len(),
                render_pointer(self@) == out@ + render_ptr_from(self@, i as int),
            decreases n - i,
        {
            let ghost pre = out@;
            push_char(&mut out, '/');
            match &self.segments[i] {
                PathSegment::Key(k) => {
                    push_escaped(&mut out, k.as_str());
                },
                PathSegment::Index(idx) => {
                    push_usize_dec(&mut out, *idx);
                },
            }
            proof {
                assert(out@ =~= pre + render_seg_ptr(self@[i as int]));
                assert(render_pointer(self@) == out@ + render_ptr_from(self@, i as int + 1)) by {
                    assert(pre + render_seg_ptr(self@[i as int]) + render_ptr_from(
                        self@,
                        i as int + 1,
                    ) =~= pre + (render_seg_ptr(self@[i as int]) + render_ptr_from(
                        self@,
                        i as int + 1,
                    )));
                }
            }
            i = i + 1;
        }
        proof {
            assert(out@ + render_ptr_from(self@, n as int) =~= out@);
        }
        out
    }
}

impl Clone for JsonPath {
    /// A clone abstracts to the same segment sequence.
    fn clone(&self) -> (res: Self)
        ensures
            res@ == self@,
    {
        let mut out: Vec<PathSegment> = Vec::new();
        let n = self.segments.len();
        let mut i: usize = 0;
        while i < n
            invariant
                i <= n,
                n == self.segments@.len(),
                out@.len() == i,
                forall|k: int| 0 <= k < i ==> (#[trigger] out@[k])@ == self.segments@[k]@,
            decreases n - i,
        {
            let s = self.segments[i].clone();
            out.push(s);
            i = i + 1;
        }
        let r = JsonPath { segments: out };
        proof {
            assert(r@ =~= self@);
        }
        r
    }
}

/// Appends the RFC 6901 escaping of `k` to `out`.
fn push_escaped(out: &mut String, k: &str)
    ensures
        final(out)@ == old(out)@ + escape_ptr(k@),
{
    let cs = str_chars(k);
    let n = cs.len();
    let mut i: usize = 0;
    proof {
        assert(k@.skip(0) =~= k@);
    }
    while i < n
        invariant
            i <= n,
            n == k@.len(),
            cs@ == k@,
            old(out)@ + escape_ptr(k@) == out@ + escape_ptr(k@.skip(i as int)),
        decreases n - i,
    {
        let ghost pre = out@;
        let c = cs[i];
        if c == '~' {
            push_char(out, '~');
            push_char(out, '0');
        } else if c == '/' {
            push_char(out, '~');
            push_char(out, '1');
        } else {
            push_char(out, c);
        }
        proof {
            let tail = k@.skip(i as int);
            assert(tail[0] == k@[i as int]);
            assert(tail.drop_first() =~= k@.skip(i as int + 1));
            assert(escape_ptr(tail) == (if tail[0] == '~' {
                seq!['~', '0']
            } else if tail[0] == '/' {
                seq!['~', '1']
            } else {
                seq![tail[0]]
            }) + escape_ptr(tail.drop_first()));
            assert(pre + escape_ptr(tail) =~= out@ + escape_ptr(k@.skip(i as int + 1)));
        }
        i = i + 1;
    }
    proof {
        assert(k@.skip(n as int) =~= Seq::<char>::empty());
        assert(out@ + escape_ptr(k@.skip(n as int)) =~= out@);
    }
}

/// A failure while reading a dot-notation path.
#[derive(Debug, Clone, PartialEq, Eq)]
pub enum ParseError {
    /// The input was nonempty yet yielded no segments.
    EmptyPath,
    /// A bracket group held no digits, or the digits exceed the machine's
    /// index range; `found` is the character that stopped the number.
    InvalidArrayIndex { position: usize, found: char },
    /// A bracket group reached the end of the input unclosed.
    UnclosedBracket { position: usize },
    /// A character that cannot begin or continue a segment.
    UnexpectedCharacter(char, usize),
}

/// Specification-level parse failure, with unbounded positions.
#[verifier::ext_equal]
pub enum PerrView {
    EmptyPath,
    InvalidArrayIndex { position: int, found: char },
    UnclosedBracket { position: int },
    UnexpectedCharacter(char, int),
}

impl View for ParseError {
    type V = PerrView;

    open spec fn view(&self) -> PerrView {
        match self {
            ParseError::EmptyPath => PerrView::EmptyPath,
            ParseError::InvalidArrayIndex { position, found } => PerrView::InvalidArrayIndex {
                position: *position as int,
                found: *found,
            },
            ParseError::UnclosedBracket { position } => PerrView::UnclosedBracket {
                position: *position as int,
            },
            ParseError::UnexpectedCharacter(c, p) => PerrView::UnexpectedCharacter(
                *c,
                *p as int,
            ),
        }
    }
}

/// How many consecutive digits stand at position `i`.
pub open spec fn digits_len(s: Seq<char>, i: int) -> nat
    decreases s.len() - i,
{
    if 0 <= i < s.len() && is_digit(s[i]) {
        1 + digits_len(s, i + 1)
    } else {
        0
    }
}

/// How many consecutive key characters (anything but `.` and `[`) stand at
/// position `i`.
pub open spec fn key_len(s: Seq<char>, i: int) -> nat
    decreases s.len() - i,
{
    if 0 <= i < s.len() && s[i] != '.' && s[i] != '[' {
        1 + key_len(s, i + 1)
    } else {
        0
    }
}

/// The digit run starting at `i` stays inside the input, holds only digits,
/// and ends at the input's end or at a non-digit.
pub proof fn lemma_digits_len(s: Seq<char>, i: int)
    requires
        0 <= i <= s.len(),
    ensures
        i + digits_len(s, i) <= s.len(),
        forall|k: int| i <= k < i + digits_len(s, i) ==> is_digit(#[trigger] s[k]),
        i + digits_len(s, i) == s.len() || !is_digit(s[i + digits_len(s, i)]),
    decreases s.len() - i,
{
    if i < s.len() && is_digit(s[i]) {
        lemma_digits_len(s, i + 1);
    }
}

/// The key run starting at `i` stays inside the input, holds no `.` or `[`,
/// and ends at the input's end or at one of those two characters.
pub proof fn lemma_key_len(s: Seq<char>, i: int)
    requires
        0 <= i <= s.len(),
    ensures
        i + key_len(s, i) <= s.len(),
        forall|k: int| i <= k < i + key_len(s, i) ==> (#[trigger] s[k]) != '.' && s[k] != '[',
        i + key_len(s, i) == s.len() || s[i + key_len(s, i)] == '.' || s[i + key_len(s, i)]
            == '[',
    decreases s.len() - i,
{
    if i < s.len() && s[i] != '.' && s[i] != '[' {
        lemma_key_len(s, i + 1);
    }
}

/// Nonnegative count of the characters left from position `i` on.
pub open spec fn rem_chars(s: Seq<char>, i: int) -> int {
    if i <= s.len() {
        s.len() - i
    } else {
        0
    }
}

/// Reads segments from position `i` on; `pos` is the running position counter
/// reported in errors.  Mirrors a single left-to-right scan: a dot is skipped,
/// a bracket group must hold digits closed by `]`, a bare `]` is refused, and
/// any other character opens a key that runs to the next `.` or `[`.
pub open spec fn parse_dot_from(s: Seq<char>, i: int, pos: int) -> Result<
    Seq<SegView>,
    PerrView,
>
    decreases rem_chars(s, i),
{
    if i < 0 || i >= s.len() {
        Ok(Seq::empty())
    } else if s[i] == '.' {
        parse_dot_from(s, i + 1, pos + 1)
    } else if s[i] == '[' {
        let ndig = digits_len(s, i + 1) as int;
        let j = i + 1 + ndig;
        let pos1 = pos + 1 + ndig;
        if ndig == 0 {
            Err(PerrView::InvalidArrayIndex {
                position: pos1,
                found: if j < s.len() {
                    s[j]
                } else {
                    ' '
                },
            })
        } else if j >= s.len() {
            Err(PerrView::UnclosedBracket { position: pos1 })
        } else if s[j] != ']' {
            Err(PerrView::UnexpectedCharacter(s[j], pos1))
        } else if digits_val(s.subrange(i + 1, j)) > usize::MAX {
            Err(PerrView::InvalidArrayIndex { position: pos + 1, found: s[i + 1] })
        } else {
            match parse_dot_from(s, j + 1, pos1 + 1) {
                Ok(rest) => Ok(seq![SegView::Index(digits_val(s.subrange(i + 1, j)))] + rest),
                Err(e) => Err(e),
            }
        }
    } else if s[i] == ']' {
        Err(PerrView::UnexpectedCharacter(']', pos))
    } else {
        let j = i + key_len(s, i) as int;
        match parse_dot_from(s, j, pos + key_len(s, i)) {
            Ok(rest) => Ok(seq![SegView::Key(s.subrange(i, j))] + rest),
            Err(e) => Err(e),
        }
    }
}

/// Reads a whole dot-notation path.  The empty input names the root; any
/// other input that yields no segments is refused.
pub open spec fn parse_dot(s: Seq<char>) -> Result<Seq<SegView>, PerrView> {
    if s.len() == 0 {
        Ok(Seq::empty())
    } else {
        match parse_dot_from(s, 0, 0) {
            Ok(segs) => if segs.len() == 0 {
                Err(PerrView::EmptyPath)
            } else {
                Ok(segs)
            },
            Err(e) => Err(e),
        }
    }
}

/// Whether `c` is a decimal digit.
fn is_digit_exec(c: char) -> (r: bool)
    ensures
        r == is_digit(c),
{
    let u = c as u32;
    48 <= u && u <= 57
}

/// Exceeding the guard makes one more digit overflow the index range.
pub proof fn lemma_mul10_overflow(v: int, d: int)
    requires
        0 <= d < 10,
        v > (usize::MAX - d) / 10,
        v >= 0,
    ensures
        v * 10 + d > usize::MAX,
{
    let q = (usize::MAX - d) / 10;
    assert(q * 10 + (usize::MAX - d) % 10 == usize::MAX - d) by (nonlinear_arith)
        requires q == (usize::MAX - d) / 10 && 0 <= d < 10,
    ;
    assert(v >= q + 1);
    assert(v * 10 >= (q + 1) * 10) by (nonlinear_arith)
        requires v >= q + 1 && q >= 0,
    ;
    assert((q + 1) * 10 == q * 10 + 10);
}

impl JsonPath {
    /// Reads a dot-notation path such as `users[0].email`.  The result, on
    /// either side, is exactly what [`parse_dot`] names for the input.
    pub fn parse_str(s: &str) -> (r: Result<JsonPath, ParseError>)
        ensures
            match r {
                Ok(p) => parse_dot(s@) == Ok::<Seq<SegView>, PerrView>(p@),
                Err(e) => parse_dot(s@) == Err::<Seq<SegView>, PerrView>(e@),
            },
    {
        let cs = str_chars(s);
        let ghost sq = s@;
        let n = cs.len();
        if n == 0 {
            let r = JsonPath::new();
            return Ok(r);
        }
        let mut segs: Vec<PathSegment> = Vec::new();
        let mut i: usize = 0;
        let mut pos: usize = 0;
        proof {
            assert(seg_views(segs@) =~= Seq::<SegView>::empty());
        }
        while i < n
            invariant
                i <= n,
                pos <= i,
                n == sq.len(),
                cs@ == sq,
                sq == s@,
                n > 0,
                match parse_dot_from(sq, i as int, pos as int) {
                    Ok(rest) => parse_dot_from(sq, 0, 0) == Ok::<Seq<SegView>, PerrView>(
                        seg_views(segs@) + rest,
                    ),
                    Err(e) => parse_dot_from(sq, 0, 0) == Err::<Seq<SegView>, PerrView>(e),
                },
            decreases n - i,
        {
            let ghost front = seg_views(segs@);
            let c = cs[i];
            if c == '.' {
                i = i + 1;
                pos = pos + 1;
            } else if c == '[' {
                // Scan the digit run after the bracket.
                let mut k: usize = i + 1;
                while k < n && is_digit_exec(cs[k])
                    invariant
                        i + 1 <= k <= n,
                        n == sq.len(),
                        cs@ == sq,
                        digits_len(sq, i + 1) == (k - i - 1) + digits_len(sq, k as int),
                    decreases n - k,
                {
                    k = k + 1;
                }
                proof {
                    assert(digits_len(sq, k as int) == 0);
                    assert(digits_len(sq, i as int + 1) == k - i - 1);
                    lemma_digits_len(sq, i as int + 1);
                }
                let ghost ndig = digits_len(sq, i + 1) as int;
                let ghost pos1 = pos + 1 + ndig;
                if k == i + 1 {
                    let found = if k < n {
                        cs[k]
                    } else {
                        ' '
                    };
                    return Err(ParseError::InvalidArrayIndex { position: pos + 1, found });
                } else if k == n {
                    return Err(ParseError::UnclosedBracket { position: pos + (k - i) });
                } else if cs[k] != ']' {
                    return Err(ParseError::UnexpectedCharacter(cs[k], pos + (k - i)));
                } else {
                    // Accumulate the index value, watching for overflow.
                    let mut acc: Option<usize> = Some(0);
                    let mut t: usize = i + 1;
                    proof {
                        assert(sq.subrange(i + 1, i + 1) =~= Seq::<char>::empty());
                    }
                    while t < k
                        invariant
                            i + 1 <= t <= k,
                            k < n,
                            n == sq.len(),
                            cs@ == sq,
                            forall|w: int| i + 1 <= w < k ==> is_digit(#[trigger] sq[w]),
                            match acc {
                                Some(v) => v == digits_val(sq.subrange(i + 1, t as int)),
                                None => digits_val(sq.subrange(i + 1, t as int)) > usize::MAX,
                            },
                        decreases k - t,
                    {
                        let c2 = cs[t];
                        let d = char_digit(c2);
                        proof {
                            assert(sq.subrange(i + 1, t + 1 as int) =~= sq.subrange(
                                i + 1,
                                t as int,
                            ).push(sq[t as int]));
                            lemma_digits_val_push(sq.subrange(i + 1, t as int), sq[t as int]);
                        }
                        acc = match acc {
                            Some(v) => {
                                if v > (usize::MAX - d as usize) / 10 {
                                    proof {
                                        lemma_mul10_overflow(v as int, d as int);
                                    }
                                    None
                                } else {
                                    Some(v * 10 + d as usize)
                                }
                            },
                            None => None,
                        };
                        t = t + 1;
                    }
                    match acc {
                        None => {
                            proof {
                                assert(sq.subrange(i + 1, k as int) == sq.subrange(
                                    i + 1,
                                    i + 1 + ndig,
                                ));
                            }
                            return Err(ParseError::InvalidArrayIndex {
                                position: pos + 1,
                                found: cs[i + 1],
                            });
                        },
                        Some(v) => {
                            segs.push(PathSegment::Index(v));
                            proof {
                                assert(seg_views(segs@) =~= front.push(
                                    SegView::Index(v as nat),
                                ));
                                let rest_res = parse_dot_from(sq, k + 1 as int, pos1 + 1);
                                if rest_res is Ok {
                                    let rest = rest_res->Ok_0;
                                    assert(front + (seq![
                                        SegView::Index(digits_val(sq.subrange(i + 1, k as int))),
                                    ] + rest) =~= (front.push(SegView::Index(v as nat)) + rest));
                                }
                            }
                            pos = pos + (k - i) + 1;
                            i = k + 1;
                        },
                    }
                }
            } else if c == ']' {
                return Err(ParseError::UnexpectedCharacter(']', pos));
            } else {
                // Scan the key run and copy it out.
                let mut key = String::new();
                let mut k: usize = i;
                while k < n && cs[k] != '.' && cs[k] != '['
                    invariant
                        i <= k <= n,
                        n == sq.len(),
                        cs@ == sq,
                        key_len(sq, i as int) == (k - i) + key_len(sq, k as int),
                        key@ == sq.subrange(i as int, k as int),
                    decreases n - k,
                {
                    push_char(&mut key, cs[k]);
                    proof {
                        assert(sq.subrange(i as int, k + 1 as int) =~= sq.subrange(
                            i as int,
                            k as int,
                        ).push(sq[k as int]));
                    }
                    k = k + 1;
                }
                proof {
                    assert(key_len(sq, k as int) == 0);
                    assert(key_len(sq, i as int) == k - i);
                }
                let ghost klen = key_len(sq, i as int);
                segs.push(PathSegment::Key(key));
                proof {
                    assert(seg_views(segs@) =~= front.push(
                        SegView::Key(sq.subrange(i as int, k as int)),
                    ));
                    let rest_res = parse_dot_from(sq, k as int, pos + klen);
                    if rest_res is Ok {
                        let rest = rest_res->Ok_0;
                        assert(front + (seq![SegView::Key(sq.subrange(i as int, k as int))] + rest)
                            =~= (front.push(SegView::Key(sq.subrange(i as int, k as int))) + rest));
                    }
                }
                pos = pos + (k - i);
                i = k;
            }
        }
        proof {
            assert(parse_dot_from(sq, i as int, pos as int) == Ok::<Seq<SegView>, PerrView>(
                Seq::empty(),
            ));
            assert(seg_views(segs@) + Seq::<SegView>::empty() =~= seg_views(segs@));
        }
        if segs.len() == 0 {
            return Err(ParseError::EmptyPath);
        }
        Ok(JsonPath { segments: segs })
    }
}

/// The numeric value of a digit character.
fn char_digit(c: char) -> (d: u8)
    requires
        is_digit(c),
    ensures
        d < 10,
        d as nat == digit_val(c),
{
    (c as u32 - '0' as u32) as u8
}

/// A failure while reading a JSON-Pointer path.
#[derive(Debug, Clone, PartialEq, Eq)]
pub enum PointerError {
    /// A nonempty pointer must start with a slash.
    MissingLeadingSlash,
}

/// Undoes RFC 6901 escaping: `~0` becomes `~` and `~1` becomes `/`; a `~`
/// followed by anything else is kept as it stands.
pub open spec fn unescape_ptr(t: Seq<char>) -> Seq<char>
    decreases t.len(),
{
    if t.len() == 0 {
        Seq::empty()
    } else if t.len() >= 2 && t[0] == '~' && t[1] == '0' {
        seq!['~'] + unescape_ptr(t.skip(2))
    } else if t.len() >= 2 && t[0] == '~' && t[1] == '1' {
        seq!['/'] + unescape_ptr(t.skip(2))
    } else {
        seq![t[0]] + unescape_ptr(t.skip(1))
    }
}

/// Whether `t` is the canonical decimal form of an index that fits the
/// machine: digits only, no leading zero unless it is exactly `0`.
pub open spec fn is_index_text(t: Seq<char>) -> bool {
    t.len() > 0 && all_digits(t) && (t[0] != '0' || t.len() == 1) && digits_val(t)
        <= usize::MAX
}

/// How many consecutive non-slash characters stand at position `i`.
pub open spec fn nonslash_len(s: Seq<char>, i: int) -> nat
    decreases s.len() - i,
{
    if 0 <= i < s.len() && s[i] != '/' {
        1 + nonslash_len(s, i + 1)
    } else {
        0
    }
}

/// The non-slash run starting at `i` stays inside the input and ends at the
/// input's end or at a slash.
pub proof fn lemma_nonslash_len(s: Seq<char>, i: int)
    requires
        0 <= i <= s.len(),
    ensures
        i + nonslash_len(s, i) <= s.len(),
        forall|k: int| i <= k < i + nonslash_len(s, i) ==> (#[trigger] s[k]) != '/',
        i + nonslash_len(s, i) == s.len() || s[i + nonslash_len(s, i)] == '/',
    decreases s.len() - i,
{
    if i < s.len() && s[i] != '/' {
        lemma_nonslash_len(s, i + 1);
    }
}

/// The segment a raw pointer token denotes: canonical digit strings become
/// indices, everything else an unescaped key.
pub open spec fn seg_of_ptr_text(t: Seq<char>) -> SegView {
    if is_index_text(t) {
        SegView::Index(digits_val(t))
    } else {
        SegView::Key(unescape_ptr(t))
    }
}

/// Reads pointer segments from position `i`, which stands just after a slash.
pub open spec fn parse_ptr_from(s: Seq<char>, i: int) -> Seq<SegView>
    decreases rem_chars(s, i),
{
    if i < 0 || i > s.len() {
        Seq::empty()
    } else {
        let j = i + nonslash_len(s, i) as int;
        let seg = seg_of_ptr_text(s.subrange(i, j));
        if j >= s.len() {
            seq![seg]
        } else {
            seq![seg] + parse_ptr_from(s, j + 1)
        }
    }
}

/// Reads a whole JSON-Pointer path.  The empty input names the root; any
/// other input must start with a slash.
pub open spec fn parse_pointer_spec(s: Seq<char>) -> Option<Seq<SegView>> {
    if s.len() == 0 {
        Some(Seq::empty())
    } else if s[0] != '/' {
        None
    } else {
        Some(parse_ptr_from(s, 1))
    }
}

impl JsonPath {
    /// Reads an RFC 6901 JSON-Pointer path such as `/users/0/email`.  The
    /// empty string names the root; any other input must start with `/`.
    pub fn parse_pointer(s: &str) -> (r: Result<JsonPath, PointerError>)
        ensures
            match r {
                Ok(p) => parse_pointer_spec(s@) == Some(p@),
                Err(_) => parse_pointer_spec(s@) is None,
            },
    {
        let cs = str_chars(s);
        let ghost sq = s@;
        let n = cs.len();
        if n == 0 {
            let r = JsonPath::new();
            return Ok(r);
        }
        if cs[0] != '/' {
            return Err(PointerError::MissingLeadingSlash);
        }
        let mut segs: Vec<PathSegment> = Vec::new();
        let mut i: usize = 1;
        proof {
            assert(seg_views(segs@) =~= Seq::<SegView>::empty());
        }
        loop
            invariant_except_break
                parse_ptr_from(sq, 1) == seg_views(segs@) + parse_ptr_from(sq, i as int),
            invariant
                1 <= i <= n,
                n == sq.len(),
                cs@ == sq,
                sq == s@,
                n > 0,
                sq[0] == '/',
            ensures
                parse_ptr_from(sq, 1) == seg_views(segs@),
            decreases n - i,
        {
            let ghost front = seg_views(segs@);
            // Scan the token up to the next slash.
            let mut k: usize = i;
            while k < n && cs[k] != '/'
                invariant
                    i <= k <= n,
                    n == sq.len(),
                    cs@ == sq,
                    nonslash_len(sq, i as int) == (k - i) + nonslash_len(sq, k as int),
                decreases n - k,
            {
                k = k + 1;
            }
            proof {
                assert(nonslash_len(sq, k as int) == 0);
                assert(nonslash_len(sq, i as int) == k - i);
            }
            let seg = ptr_token_to_segment(&cs, i, k);
            segs.push(seg);
            proof {
                let tok = sq.subrange(i as int, k as int);
                assert(seg_views(segs@) =~= front.push(seg_of_ptr_text(tok)));
                if k < n {
                    assert(front + (seq![seg_of_ptr_text(tok)] + parse_ptr_from(sq, k + 1))
                        =~= front.push(seg_of_ptr_text(tok)) + parse_ptr_from(sq, k + 1));
                } else {
                    assert(front + seq![seg_of_ptr_text(tok)] =~= front.push(
                        seg_of_ptr_text(tok),
                    ));
                }
            }
            if k == n {
                break;
            }
            i = k + 1;
        }
        Ok(JsonPath { segments: segs })
    }
}

/// Turns the raw token `cs[i..k]` into a segment, as [`seg_of_ptr_text`]
/// names it.
fn ptr_token_to_segment(cs: &Vec<char>, i: usize, k: usize) -> (seg: PathSegment)
    requires
        i <= k <= cs@.len(),
    ensures
        seg@ == seg_of_ptr_text(cs@.subrange(i as int, k as int)),
{
    let ghost tok = cs@.subrange(i as int, k as int);
    // Decide whether the token is a canonical in-range index.
    let mut canonical: bool = k > i;
    if canonical && cs[i] == '0' && k - i > 1 {
        canonical = false;
    }
    let mut t: usize = i;
    let mut acc: Option<usize> = Some(0);
    proof {
        assert(cs@.subrange(i as int, i as int) =~= Seq::<char>::empty());
    }
    while t < k
        invariant
            i <= t <= k,
            k <= cs@.len(),
            canonical ==> forall|w: int| i <= w < t ==> is_digit(#[trigger] cs@[w]),
            !canonical ==> !is_index_text(tok),
            canonical == (k > i && (cs@[i as int] != '0' || k - i == 1) && (forall|w: int|
                i <= w < t ==> is_digit(#[trigger] cs@[w]))),
            match acc {
                Some(v) => v == digits_val(cs@.subrange(i as int, t as int)),
                None => digits_val(cs@.subrange(i as int, t as int)) > usize::MAX,
            },
            tok == cs@.subrange(i as int, k as int),
        decreases k - t,
    {
        let c = cs[t];
        if !is_digit_exec(c) {
            proof {
                assert(tok[t - i] == cs@[t as int]);
                assert(!all_digits(tok));
                assert(!is_index_text(tok));
            }
            canonical = false;
            let r = PathSegment::Key(unescape_exec(cs, i, k));
            return r;
        }
        let d = char_digit(c);
        proof {
            assert(cs@.subrange(i as int, t + 1 as int) =~= cs@.subrange(i as int, t as int).push(
                cs@[t as int],
            ));
            lemma_digits_val_push(cs@.subrange(i as int, t as int), cs@[t as int]);
        }
        acc = match acc {
            Some(v) => {
                if v > (usize::MAX - d as usize) / 10 {
                    proof {
                        lemma_mul10_overflow(v as int, d as int);
                    }
                    None
                } else {
                    Some(v * 10 + d as usize)
                }
            },
            None => None,
        };
        t = t + 1;
    }
    proof {
        assert(tok =~= cs@.subrange(i as int, k as int));
        assert(forall|w: int| 0 <= w < tok.len() ==> tok[w] == cs@[i + w]);
    }
    if canonical {
        match acc {
            Some(v) => {
                proof {
                    assert(all_digits(tok)) by {
                        assert(forall|w: int| 0 <= w < tok.len()
                            ==> is_digit(#[trigger] tok[w]));
                    }
                    assert(is_index_text(tok));
                }
                return PathSegment::Index(v);
            },
            None => {
                proof {
                    assert(!is_index_text(tok));
                }
                return PathSegment::Key(unescape_exec(cs, i, k));
            },
        }
    } else {
        return PathSegment::Key(unescape_exec(cs, i, k));
    }
}

/// Copies the characters `cs[i..k]` into a fresh string.
fn chars_to_string(cs: &Vec<char>, i: usize, k: usize) -> (r: String)
    requires
        i <= k <= cs@.len(),
    ensures
        r@ == cs@.subrange(i as int, k as int),
{
    let mut out = String::new();
    let mut t: usize = i;
    proof {
        assert(out@ =~= cs@.subrange(i as int, i as int));
    }
    while t < k
        invariant
            i <= t <= k,
            k <= cs@.len(),
            out@ == cs@.subrange(i as int, t as int),
        decreases k - t,
    {
        push_char(&mut out, cs[t]);
        proof {
            assert(cs@.subrange(i as int, t + 1 as int) =~= cs@.subrange(i as int, t as int).push(
                cs@[t as int],
            ));
        }
        t = t + 1;
    }
    out
}

/// A key that dot notation can carry losslessly: nonempty, free of the
/// delimiters `.` and `[`, and not opening with `]`.
pub open spec fn dot_seg_valid(seg: SegView) -> bool {
    match seg {
        SegView::Key(k) => k.len() > 0 && k[0] != ']' && (forall|i: int|
            0 <= i < k.len() ==> (#[trigger] k[i]) != '.' && k[i] != '['),
        SegView::Index(n) => n <= usize::MAX,
    }
}

pub open spec fn dot_path_valid(p: Seq<SegView>) -> bool {
    forall|i: int| 0 <= i < p.len() ==> dot_seg_valid(#[trigger] p[i])
}

/// A run of `m` non-delimiter characters bounded by a delimiter or the end
/// is measured exactly by `key_len`.
proof fn lemma_key_len_exact(s: Seq<char>, i: int, m: int)
    requires
        0 <= i,
        0 <= m,
        i + m <= s.len(),
        forall|w: int| i <= w < i + m ==> (#[trigger] s[w]) != '.' && s[w] != '[',
        i + m == s.len() || s[i + m] == '.' || s[i + m] == '[',
    ensures
        key_len(s, i) == m,
    decreases m,
{
    if m > 0 {
        lemma_key_len_exact(s, i + 1, m - 1);
    }
}

/// A run of `m` digits bounded by a non-digit or the end is measured exactly
/// by `digits_len`.
proof fn lemma_digits_len_exact(s: Seq<char>, i: int, m: int)
    requires
        0 <= i,
        0 <= m,
        i + m <= s.len(),
        forall|w: int| i <= w < i + m ==> is_digit(#[trigger] s[w]),
        i + m == s.len() || !is_digit(s[i + m]),
    ensures
        digits_len(s, i) == m,
    decreases m,
{
    if m > 0 {
        lemma_digits_len_exact(s, i + 1, m - 1);
    }
}

/// Where the input from `i` on is a clean key token followed by `rest`, the
/// key scan consumes exactly the token.
proof fn lemma_dot_key_token(key: Seq<char>, rest: Seq<char>, s: Seq<char>, i: int)
    requires
        key.len() > 0,
        key[0] != ']',
        forall|w: int| 0 <= w < key.len() ==> (#[trigger] key[w]) != '.' && key[w] != '[',
        rest.len() == 0 || rest[0] == '.' || rest[0] == '[',
        0 <= i <= s.len(),
        s.skip(i) == key + rest,
    ensures
        i < s.len(),
        s[i] == key[0],
        s[i] != '.' && s[i] != '[' && s[i] != ']',
        key_len(s, i) == key.len(),
        s.subrange(i, i + key.len() as int) == key,
        s.skip(i + key.len() as int) == rest,
{
    let m = key.len() as int;
    assert(s.skip(i).len() == s.len() - i);
    assert(i + m <= s.len());
    assert forall|w: int| i <= w < i + m implies #[trigger] s[w] == key[w - i] by {
        assert(s.skip(i)[w - i] == s[w]);
        assert((key + rest)[w - i] == key[w - i]);
    }
    if rest.len() > 0 {
        assert(s[i + m] == rest[0]) by {
            assert(s.skip(i)[m] == s[i + m]);
            assert((key + rest)[m] == rest[0]);
        }
    }
    lemma_key_len_exact(s, i, m);
    assert(s.subrange(i, i + m) =~= key);
    assert(s.skip(i + m) =~= rest) by {
        assert forall|d: int| 0 <= d < rest.len() implies #[trigger] s.skip(i + m)[d] == rest[d]
            by {
            assert(s.skip(i + m)[d] == s[i + m + d]);
            assert(s.skip(i)[m + d] == s[i + m + d]);
            assert((key + rest)[m + d] == rest[d]);
        }
    }
}

/// Where the input from `i` on is a bracketed digit group followed by
/// `rest`, the digit scan consumes exactly the digits.
proof fn lemma_dot_index_token(dd: Seq<char>, rest: Seq<char>, s: Seq<char>, i: int)
    requires
        dd.len() > 0,
        all_digits(dd),
        0 <= i <= s.len(),
        s.skip(i) == seq!['['] + dd + seq![']'] + rest,
    ensures
        i < s.len(),
        s[i] == '[',
        digits_len(s, i + 1) == dd.len(),
        i + 1 + dd.len() < s.len(),
        s[i + 1 + dd.len()] == ']',
        s.subrange(i + 1, i + 1 + dd.len() as int) == dd,
        s.skip(i + dd.len() as int + 2) == rest,
{
    let m = dd.len() as int;
    let core = (seq!['['] + dd) + seq![']'];
    let t = core + rest;
    assert(s.skip(i) == t);
    assert(s.skip(i).len() == s.len() - i);
    assert(core.len() == m + 2);
    assert(s[i] == '[') by {
        assert(s.skip(i)[0] == s[i]);
        assert(t[0] == core[0]);
        assert(core[0] == (seq!['['] + dd)[0]);
    }
    assert forall|w: int| i + 1 <= w < i + 1 + m implies #[trigger] s[w] == dd[w - i - 1] by {
        assert(s.skip(i)[w - i] == s[w]);
        assert(t[w - i] == core[w - i]);
        assert(core[w - i] == (seq!['['] + dd)[w - i]);
        assert((seq!['['] + dd)[w - i] == dd[w - i - 1]);
    }
    assert(s[i + 1 + m] == ']') by {
        assert(s.skip(i)[1 + m] == s[i + 1 + m]);
        assert(t[1 + m] == core[1 + m]);
    }
    assert(forall|w: int| i + 1 <= w < i + 1 + m ==> is_digit(#[trigger] s[w]));
    assert(!is_digit(']'));
    lemma_digits_len_exact(s, i + 1, m);
    assert(s.subrange(i + 1, i + 1 + m) =~= dd);
    assert(s.skip(i + m + 2) =~= rest) by {
        assert forall|d: int| 0 <= d < rest.len() implies #[trigger] s.skip(i + m + 2)[d]
            == rest[d] by {
            assert(s.skip(i + m + 2)[d] == s[i + m + 2 + d]);
            assert(s.skip(i)[m + 2 + d] == s[i + m + 2 + d]);
            assert(t[m + 2 + d] == rest[d]);
        }
    }
}

/// Parsing picks the rendered segments back up from any aligned position.
#[verifier::rlimit(30)]
proof fn lemma_parse_render_dot_from(p: Seq<SegView>, k: int, s: Seq<char>, i: int, pos: int)
    requires
        dot_path_valid(p),
        0 <= k <= p.len(),
        0 <= i <= s.len(),
        s.skip(i) == render_dot_from(p, k),
    ensures
        parse_dot_from(s, i, pos) == Ok::<Seq<SegView>, PerrView>(p.skip(k)),
    decreases p.len() - k, 1int,
{
    if k == p.len() {
        assert(s.skip(i).len() == 0);
        assert(i >= s.len());
        assert(p.skip(k) =~= Seq::<SegView>::empty());
    } else {
        let rest = render_dot_from(p, k + 1);
        assert(render_dot_from(p, k) == render_seg_dot(p[k], k == 0) + rest);
        assert(dot_seg_valid(p[k]));
        assert(rest.len() == 0 || rest[0] == '.' || rest[0] == '[') by {
            if k + 1 < p.len() {
                assert(rest == render_seg_dot(p[k + 1], false) + render_dot_from(p, k + 2));
                assert(dot_seg_valid(p[k + 1]));
                match p[k + 1] {
                    SegView::Key(k2) => {
                        assert(render_seg_dot(p[k + 1], false) =~= seq!['.'] + k2);
                        assert(rest[0] == '.');
                    },
                    SegView::Index(n2) => {
                        assert(rest[0] == '[');
                    },
                }
            }
        }
        match p[k] {
            SegView::Key(key) => {
                if k == 0 {
                    assert(s.skip(i) == key + rest);
                    lemma_dot_key_token(key, rest, s, i);
                    let j = i + key.len() as int;
                    lemma_parse_render_dot_from(p, k + 1, s, j, pos + key_len(s, i));
                    assert(seq![SegView::Key(key)] + p.skip(k + 1) =~= p.skip(k));
                    assert(parse_dot_from(s, i, pos) == Ok::<Seq<SegView>, PerrView>(
                        p.skip(k),
                    ));
                } else {
                    assert(render_seg_dot(p[k], false) =~= seq!['.'] + key);
                    assert(s.skip(i) =~= (seq!['.'] + key) + rest);
                    assert(s[i] == '.') by {
                        assert(s.skip(i)[0] == s[i]);
                        assert(((seq!['.'] + key) + rest)[0] == '.');
                    }
                    assert(s.skip(i + 1) =~= key + rest) by {
                        assert(forall|d: int| 0 <= d < s.skip(i + 1).len()
                            ==> #[trigger] s.skip(i + 1)[d] == s[i + 1 + d]);
                        assert(forall|d: int| 0 <= d < s.skip(i).len()
                            ==> #[trigger] s.skip(i)[d] == s[i + d]);
                        assert(forall|d: int| 0 <= d < (key + rest).len()
                            ==> ((seq!['.'] + key) + rest)[1 + d] == #[trigger] (key + rest)[d]);
                    }
                    lemma_dot_key_token(key, rest, s, i + 1);
                    let j = i + 1 + key.len() as int;
                    lemma_parse_render_dot_from(p, k + 1, s, j, pos + 1 + key_len(s, i + 1));
                    assert(seq![SegView::Key(key)] + p.skip(k + 1) =~= p.skip(k));
                    assert(parse_dot_from(s, i + 1, pos + 1) == Ok::<Seq<SegView>, PerrView>(
                        p.skip(k),
                    ));
                }
            },
            SegView::Index(n) => {
                lemma_dec_digits(n);
                let dd = dec_digits(n);
                let m = dd.len() as int;
                assert(render_seg_dot(p[k], k == 0) == seq!['['] + dd + seq![']']);
                assert(s.skip(i) == seq!['['] + dd + seq![']'] + rest) by {
                    assert((seq!['['] + dd + seq![']']) + rest =~= seq!['['] + dd + seq![']']
                        + rest);
                }
                lemma_dot_index_token(dd, rest, s, i);
                let j = i + 1 + m;
                assert(digits_val(s.subrange(i + 1, j)) == n);
                lemma_parse_render_dot_from(p, k + 1, s, j + 1, pos + 1 + m + 1);
                assert(seq![SegView::Index(n)] + p.skip(k + 1) =~= p.skip(k));
                assert(parse_dot_from(s, i, pos) == Ok::<Seq<SegView>, PerrView>(p.skip(k)));
            },
        }
    }
}

/// Round-trip of the dot notation: a path whose keys dot notation can carry
/// parses back from its rendering, so the rendering of the parse is the
/// rendered text itself.
pub proof fn lemma_dot_round_trip(p: Seq<SegView>)
    requires
        dot_path_valid(p),
    ensures
        parse_dot(render_dot(p)) == Ok::<Seq<SegView>, PerrView>(p),
{
    let s = render_dot(p);
    assert(s.skip(0) =~= s);
    lemma_parse_render_dot_from(p, 0, s, 0, 0);
    assert(p.skip(0) =~= p);
    if p.len() > 0 {
        assert(dot_seg_valid(p[0]));
        assert(render_dot_from(p, 0) == render_seg_dot(p[0], true) + render_dot_from(p, 1));
        match p[0] {
            SegView::Key(key) => {
                assert(render_seg_dot(p[0], true).len() > 0);
            },
            SegView::Index(n) => {
                lemma_dec_digits(n);
                assert(render_seg_dot(p[0], true).len() > 0);
            },
        }
        assert(s.len() > 0);
    }
}

/// A segment that the pointer form can carry losslessly: an index, or a key
/// that is not itself a canonical index numeral.
pub open spec fn ptr_seg_valid(seg: SegView) -> bool {
    match seg {
        SegView::Key(k) => !is_index_text(k),
        SegView::Index(n) => n <= usize::MAX,
    }
}

pub open spec fn ptr_path_valid(p: Seq<SegView>) -> bool {
    forall|i: int| 0 <= i < p.len() ==> ptr_seg_valid(#[trigger] p[i])
}

/// The raw pointer token of one segment, without its leading slash.
pub open spec fn ptr_text(seg: SegView) -> Seq<char> {
    match seg {
        SegView::Key(k) => escape_ptr(k),
        SegView::Index(n) => dec_digits(n),
    }
}

/// Escaping never leaves a slash in the token.
proof fn lemma_escape_no_slash(k: Seq<char>)
    ensures
        forall|i: int| 0 <= i < escape_ptr(k).len() ==> (#[trigger] escape_ptr(k)[i]) != '/',
    decreases k.len(),
{
    if k.len() > 0 {
        lemma_escape_no_slash(k.drop_first());
        let head: Seq<char> = if k[0] == '~' {
            seq!['~', '0']
        } else if k[0] == '/' {
            seq!['~', '1']
        } else {
            seq![k[0]]
        };
        assert(escape_ptr(k) == head + escape_ptr(k.drop_first()));
        assert(forall|i: int| 0 <= i < head.len() ==> (#[trigger] head[i]) != '/');
        assert(forall|i: int| 0 <= i < escape_ptr(k).len() ==> (#[trigger] escape_ptr(k)[i])
            == if i < head.len() {
            head[i]
        } else {
            escape_ptr(k.drop_first())[i - head.len()]
        });
    }
}

/// Unescaping undoes escaping.
proof fn lemma_unescape_escape(k: Seq<char>)
    ensures
        unescape_ptr(escape_ptr(k)) == k,
    decreases k.len(),
{
    if k.len() == 0 {
        assert(unescape_ptr(escape_ptr(k)) =~= k);
    } else {
        lemma_unescape_escape(k.drop_first());
        let e = escape_ptr(k);
        if k[0] == '~' {
            assert(e =~= seq!['~', '0'] + escape_ptr(k.drop_first()));
            assert(e[0] == '~' && e[1] == '0');
            assert(e.skip(2) =~= escape_ptr(k.drop_first()));
            assert(unescape_ptr(e) =~= seq!['~'] + k.drop_first());
            assert(seq!['~'] + k.drop_first() =~= k);
        } else if k[0] == '/' {
            assert(e =~= seq!['~', '1'] + escape_ptr(k.drop_first()));
            assert(e[0] == '~' && e[1] == '1');
            assert(e.skip(2) =~= escape_ptr(k.drop_first()));
            assert(unescape_ptr(e) =~= seq!['/'] + k.drop_first());
            assert(seq!['/'] + k.drop_first() =~= k);
        } else {
            assert(e =~= seq![k[0]] + escape_ptr(k.drop_first()));
            assert(e[0] == k[0] && e[0] != '~');
            assert(e.skip(1) =~= escape_ptr(k.drop_first()));
            assert(unescape_ptr(e) =~= seq![k[0]] + k.drop_first());
            assert(seq![k[0]] + k.drop_first() =~= k);
        }
    }
}

/// A token of digits alone was never changed by escaping.
proof fn lemma_escape_all_digits(k: Seq<char>)
    requires
        all_digits(escape_ptr(k)),
    ensures
        escape_ptr(k) == k,
    decreases k.len(),
{
    if k.len() > 0 {
        let e = escape_ptr(k);
        if k[0] == '~' || k[0] == '/' {
            assert(e =~= seq!['~', (if k[0] == '~' { '0' } else { '1' })] + escape_ptr(
                k.drop_first(),
            ));
            assert(e[0] == '~');
            assert(is_digit(e[0]));
            assert(false);
        } else {
            assert(e =~= seq![k[0]] + escape_ptr(k.drop_first()));
            assert(forall|i: int| 0 <= i < escape_ptr(k.drop_first()).len()
                ==> #[trigger] escape_ptr(k.drop_first())[i] == e[i + 1]);
            assert(all_digits(escape_ptr(k.drop_first()))) by {
                assert(forall|i: int| 0 <= i < escape_ptr(k.drop_first()).len()
                    ==> is_digit(#[trigger] escape_ptr(k.drop_first())[i]));
            }
            lemma_escape_all_digits(k.drop_first());
            assert(e =~= k);
        }
    } else {
        assert(escape_ptr(k) =~= k);
    }
}

/// A run of `m` non-slash characters bounded by a slash or the end is
/// measured exactly by `nonslash_len`.
proof fn lemma_nonslash_exact(s: Seq<char>, i: int, m: int)
    requires
        0 <= i,
        0 <= m,
        i + m <= s.len(),
        forall|w: int| i <= w < i + m ==> (#[trigger] s[w]) != '/',
        i + m == s.len() || s[i + m] == '/',
    ensures
        nonslash_len(s, i) == m,
    decreases m,
{
    if m > 0 {
        lemma_nonslash_exact(s, i + 1, m - 1);
    }
}

/// Pointer parsing picks the rendered segments back up from any aligned
/// position (one standing just after a slash).
#[verifier::rlimit(30)]
proof fn lemma_parse_render_ptr_from(p: Seq<SegView>, k: int, s: Seq<char>, i: int)
    requires
        ptr_path_valid(p),
        0 <= k < p.len(),
        0 <= i <= s.len(),
        s.skip(i) == ptr_text(p[k]) + render_ptr_from(p, k + 1),
    ensures
        parse_ptr_from(s, i) == p.skip(k),
    decreases p.len() - k,
{
    let t = ptr_text(p[k]);
    let rest = render_ptr_from(p, k + 1);
    let m = t.len() as int;
    assert(s.skip(i).len() == s.len() - i);
    assert(i + m <= s.len());
    assert forall|w: int| i <= w < i + m implies #[trigger] s[w] == t[w - i] by {
        assert(s.skip(i)[w - i] == s[w]);
        assert((t + rest)[w - i] == t[w - i]);
    }
    assert(forall|w: int| i <= w < i + m ==> (#[trigger] s[w]) != '/') by {
        match p[k] {
            SegView::Key(key) => {
                lemma_escape_no_slash(key);
            },
            SegView::Index(n) => {
                lemma_dec_digits(n);
                assert(forall|d: int| 0 <= d < t.len() ==> is_digit(#[trigger] t[d]));
            },
        }
    }
    if k + 1 == p.len() {
        assert(rest.len() == 0);
        assert(i + m == s.len());
    } else {
        assert(rest == render_seg_ptr(p[k + 1]) + render_ptr_from(p, k + 2));
        assert(rest[0] == '/') by {
            assert((seq!['/'] + escape_ptr(p[k + 1]->Key_0))[0] == '/');
            assert((seq!['/'] + dec_digits(p[k + 1]->Index_0))[0] == '/');
            match p[k + 1] {
                SegView::Key(k2) => {
                    assert(render_seg_ptr(p[k + 1])[0] == '/');
                },
                SegView::Index(n2) => {
                    assert(render_seg_ptr(p[k + 1])[0] == '/');
                },
            }
        }
        assert(s[i + m] == rest[0]) by {
            assert(s.skip(i)[m] == s[i + m]);
            assert((t + rest)[m] == rest[0]);
        }
    }
    lemma_nonslash_exact(s, i, m);
    let j = i + m;
    assert(s.subrange(i, j) =~= t);
    assert(seg_of_ptr_text(t) == p[k]) by {
        match p[k] {
            SegView::Key(key) => {
                if is_index_text(t) {
                    lemma_escape_all_digits(key);
                    assert(t == key);
                    assert(!ptr_seg_valid(p[k]));
                } else {
                    lemma_unescape_escape(key);
                }
            },
            SegView::Index(n) => {
                lemma_dec_digits(n);
                assert(is_index_text(t));
            },
        }
    }
    if k + 1 == p.len() {
        assert(j >= s.len());
        assert(parse_ptr_from(s, i) == seq![p[k]]);
        assert(seq![p[k]] =~= p.skip(k));
    } else {
        assert(j < s.len()) by {
            assert(rest.len() > 0);
        }
        let nxt = ptr_text(p[k + 1]) + render_ptr_from(p, k + 2);
        assert(rest =~= seq!['/'] + nxt) by {
            assert(render_seg_ptr(p[k + 1]) =~= seq!['/'] + ptr_text(p[k + 1]));
            assert((seq!['/'] + ptr_text(p[k + 1])) + render_ptr_from(p, k + 2) =~= seq!['/']
                + nxt);
        }
        assert(s.skip(j + 1) =~= nxt) by {
            assert(s.skip(j + 1).len() == s.len() - j - 1);
            assert(rest.len() == 1 + nxt.len());
            assert(s.len() - i == m + rest.len());
            assert forall|d: int| 0 <= d < nxt.len() implies #[trigger] s.skip(j + 1)[d]
                == nxt[d] by {
                assert(s.skip(j + 1)[d] == s[j + 1 + d]);
                assert(s.skip(i)[m + 1 + d] == s[j + 1 + d]);
                assert((t + rest)[m + 1 + d] == rest[1 + d]);
                assert((seq!['/'] + nxt)[1 + d] == nxt[d]);
            }
        }
        lemma_parse_render_ptr_from(p, k + 1, s, j + 1);
        assert(seq![p[k]] + p.skip(k + 1) =~= p.skip(k));
    }
}

/// Round-trip of the pointer form: a path whose keys are no index numerals
/// parses back from its RFC 6901 rendering, so the rendering of the parse is
/// the rendered text itself.
pub proof fn lemma_pointer_round_trip(p: Seq<SegView>)
    requires
        ptr_path_valid(p),
    ensures
        parse_pointer_spec(render_pointer(p)) == Some(p),
{
    let s = render_pointer(p);
    if p.len() == 0 {
        assert(s.len() == 0);
        assert(parse_pointer_spec(s) == Some(Seq::<SegView>::empty()));
        assert(Seq::<SegView>::empty() =~= p);
    } else {
        assert(render_ptr_from(p, 0) == render_seg_ptr(p[0]) + render_ptr_from(p, 1));
        assert(render_seg_ptr(p[0]) =~= seq!['/'] + ptr_text(p[0]));
        assert(s =~= (seq!['/'] + ptr_text(p[0])) + render_ptr_from(p, 1));
        assert(s.len() > 0);
        assert(s[0] == '/') by {
            assert(((seq!['/'] + ptr_text(p[0])) + render_ptr_from(p, 1))[0] == '/');
        }
        assert(s.skip(1) =~= ptr_text(p[0]) + render_ptr_from(p, 1)) by {
            assert(forall|d: int| 0 <= d < s.skip(1).len() ==> #[trigger] s.skip(1)[d] == s[1
                + d]);
            assert(forall|d: int| 0 <= d < ptr_text(p[0]).len()
                ==> ((seq!['/'] + ptr_text(p[0])) + render_ptr_from(p, 1))[1 + d]
                == #[trigger] ptr_text(p[0])[d]);
            assert(forall|d: int| 0 <= d < render_ptr_from(p, 1).len()
                ==> ((seq!['/'] + ptr_text(p[0])) + render_ptr_from(p, 1))[1 + ptr_text(
                p[0],
            ).len() + d] == #[trigger] render_ptr_from(p, 1)[d]);
        }
        lemma_parse_render_ptr_from(p, 0, s, 1);
        assert(p.skip(0) =~= p);
    }
}


/// Unescapes the characters `cs[i..k]` into a fresh string.
fn unescape_exec(cs: &Vec<char>, i: usize, k: usize) -> (r: String)
    requires
        i <= k <= cs@.len(),
    ensures
        r@ == unescape_ptr(cs@.subrange(i as int, k as int)),
    decreases k - i,
{
    let ghost tok = cs@.subrange(i as int, k as int);
    if i >= k {
        let r = String::new();
        proof {
            assert(tok =~= Seq::<char>::empty());
        }
        return r;
    }
    if cs[i] == '~' && i + 1 < k && (cs[i + 1] == '0' || cs[i + 1] == '1') {
        let head = if cs[i + 1] == '0' {
            '~'
        } else {
            '/'
        };
        let rest = unescape_exec(cs, i + 2, k);
        let mut out = String::new();
        push_char(&mut out, head);
        out.append(rest.as_str());
        proof {
            assert(tok[0] == cs@[i as int] && tok[1] == cs@[i as int + 1]);
            assert(tok.skip(2) =~= cs@.subrange(i as int + 2, k as int));
            assert(out@ =~= seq![head] + unescape_ptr(tok.skip(2)));
        }
        out
    } else {
        let rest = unescape_exec(cs, i + 1, k);
        let mut out = String::new();
        push_char(&mut out, cs[i]);
        out.append(rest.as_str());
        proof {
            assert(tok[0] == cs@[i as int]);
            assert(tok.skip(1) =~= cs@.subrange(i as int + 1, k as int));
            if tok.len() >= 2 {
                assert(tok[1] == cs@[i as int + 1]);
            }
            assert(out@ =~= seq![tok[0]] + unescape_ptr(tok.skip(1)));
        }
        out
    }
}

} // verus!
