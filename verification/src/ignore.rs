//! Ignore patterns: prefix-based suppression of changes.
//!
//! A pattern names a path; a change is suppressed exactly when its path
//! equals a pattern or sits below one, segment by segment — `/user` never
//! matches `/username`.  Patterns arrive as JSON-Pointer strings, or are
//! drawn out of a JSON object whose truthy leaves mark the paths to ignore.

use vstd::prelude::*;
use crate::json_path::JsonPath;
use crate::json_path::SegView;
use crate::json_path::is_seg_prefix;
use crate::strings::dedup_adjacent;
use crate::strings::push_char;
use crate::strings::sort_dedup_strings;
use crate::strings::sort_seqs;
use crate::strings::str_views;
use crate::types::Change;
use crate::types::ChangeV;
use crate::types::Changes;
use crate::types::change_views;
use crate::types::cpath;
use crate::value::JsonValue;
use crate::value::Jv;
use crate::value::jv_height;
use crate::value::lemma_obj_val_height;
use crate::value::lemma_pairs_of;
use crate::value::pairs_of;

verus! {

/// The abstraction of a vector of patterns.
pub open spec fn path_views(s: Seq<JsonPath>) -> Seq<Seq<SegView>> {
    Seq::new(s.len(), |i: int| s[i]@)
}

/// Whether some pattern is a segment-wise prefix of the path (or equals it).
pub open spec fn ignored_path(p: Seq<SegView>, pats: Seq<Seq<SegView>>) -> bool {
    exists|i: int| 0 <= i < pats.len() && is_seg_prefix(#[trigger] pats[i], p)
}

/// The changes whose paths no pattern suppresses, in order.
pub open spec fn filter_changes(cs: Seq<ChangeV>, pats: Seq<Seq<SegView>>) -> Seq<ChangeV>
    decreases cs.len(),
{
    if cs.len() == 0 {
        Seq::empty()
    } else if ignored_path(cpath(cs.last()), pats) {
        filter_changes(cs.drop_last(), pats)
    } else {
        filter_changes(cs.drop_last(), pats).push(cs.last())
    }
}

/// Whether the path equals one of the patterns or sits below one.
pub fn should_ignore(path: &JsonPath, patterns: &Vec<JsonPath>) -> (r: bool)
    ensures
        r == ignored_path(path@, path_views(patterns@)),
{
    let n = patterns.len();
    let mut i: usize = 0;
    while i < n
        invariant
            i <= n,
            n == patterns@.len(),
            forall|w: int| 0 <= w < i ==> !is_seg_prefix(
                path_views(patterns@)[w],
                path@,
            ),
        decreases n - i,
    {
        if path.matches_prefix(&patterns[i]) {
            proof {
                assert(path_views(patterns@)[i as int] == patterns@[i as int]@);
            }
            return true;
        }
        proof {
            assert(path_views(patterns@)[i as int] == patterns@[i as int]@);
        }
        i = i + 1;
    }
    false
}

/// Keeps the changes of `items` that no pattern suppresses.
fn filter_change_list(items: &Vec<Change>, patterns: &Vec<JsonPath>) -> (r: Vec<Change>)
    ensures
        change_views(r@) == filter_changes(change_views(items@), path_views(patterns@)),
{
    let mut out: Vec<Change> = Vec::new();
    let n = items.len();
    let mut i: usize = 0;
    proof {
        assert(change_views(items@).subrange(0, 0) =~= Seq::<ChangeV>::empty());
        assert(change_views(out@) =~= Seq::<ChangeV>::empty());
    }
    while i < n
        invariant
            i <= n,
            n == items@.len(),
            change_views(out@) == filter_changes(
                change_views(items@).subrange(0, i as int),
                path_views(patterns@),
            ),
        decreases n - i,
    {
        let ghost pre = change_views(items@).subrange(0, i as int);
        let ghost cur = change_views(items@).subrange(0, i as int + 1);
        proof {
            assert(cur.drop_last() =~= pre);
            assert(cur.last() == items@[i as int]@);
        }
        let p = change_path_ref(&items[i]);
        if !should_ignore(p, patterns) {
            let c = items[i].clone();
            out.push(c);
            proof {
                assert(change_views(out@) =~= filter_changes(pre, path_views(patterns@)).push(
                    cur.last(),
                ));
            }
        }
        i = i + 1;
    }
    proof {
        assert(change_views(items@).subrange(0, n as int) =~= change_views(items@));
    }
    out
}

/// The path a change speaks of.
pub fn change_path_ref(c: &Change) -> (r: &JsonPath)
    ensures
        r@ == cpath(c@),
{
    match c {
        Change::Added { path, .. } => path,
        Change::Removed { path, .. } => path,
        Change::Modified { path, .. } => path,
    }
}

impl Changes {
    /// A change set with every change at or below one of the patterns
    /// dropped; the "after" snapshot passes through unchanged.
    pub fn filter_ignore_patterns(&self, patterns: &Vec<JsonPath>) -> (r: Changes)
        ensures
            change_views(r.added@) == filter_changes(
                change_views(self.added@),
                path_views(patterns@),
            ),
            change_views(r.removed@) == filter_changes(
                change_views(self.removed@),
                path_views(patterns@),
            ),
            change_views(r.modified@) == filter_changes(
                change_views(self.modified@),
                path_views(patterns@),
            ),
            match (r.after, self.after) {
                (Some(x), Some(y)) => x@ == y@,
                (None, None) => true,
                _ => false,
            },
    {
        let added = filter_change_list(&self.added, patterns);
        let removed = filter_change_list(&self.removed, patterns);
        let modified = filter_change_list(&self.modified, patterns);
        let after = match &self.after {
            Some(v) => Some(v.clone()),
            None => None,
        };
        Changes { added, removed, modified, after }
    }
}

/// Filtering with fewer patterns keeps at least every change that filtering
/// with more patterns keeps: where each pattern of `p1` also stands in `p2`,
/// every change that survives `p2` survives `p1`.
pub proof fn lemma_filter_monotone(
    cs: Seq<ChangeV>,
    p1: Seq<Seq<SegView>>,
    p2: Seq<Seq<SegView>>,
)
    requires
        forall|i: int| 0 <= i < p1.len() ==> p2.contains(#[trigger] p1[i]),
    ensures
        forall|c: ChangeV| filter_changes(cs, p2).contains(c) ==> filter_changes(
            cs,
            p1,
        ).contains(c),
    decreases cs.len(),
{
    if cs.len() > 0 {
        let pre = cs.drop_last();
        assert(pre.push(cs.last()) =~= cs);
        lemma_filter_monotone(pre, p1, p2);
        assert forall|c: ChangeV| filter_changes(cs, p2).contains(c) implies filter_changes(
            cs,
            p1,
        ).contains(c) by {
            let f2 = filter_changes(cs, p2);
            let f1 = filter_changes(cs, p1);
            let k = choose|k: int| 0 <= k < f2.len() && f2[k] == c;
            if ignored_path(cpath(cs.last()), p2) {
                assert(f2 == filter_changes(pre, p2));
                assert(filter_changes(pre, p2).contains(c));
                assert(filter_changes(pre, p1).contains(c));
                lemma_filter_prefix_contains(pre, cs.last(), p1, c);
            } else {
                if k < f2.len() - 1 {
                    assert(filter_changes(pre, p2)[k] == c);
                    assert(filter_changes(pre, p2).contains(c));
                    assert(filter_changes(pre, p1).contains(c));
                    lemma_filter_prefix_contains(pre, cs.last(), p1, c);
                } else {
                    assert(c == cs.last());
                    assert(!ignored_path(cpath(cs.last()), p1)) by {
                        if ignored_path(cpath(cs.last()), p1) {
                            let w = choose|w: int| 0 <= w < p1.len() && is_seg_prefix(
                                #[trigger] p1[w],
                                cpath(cs.last()),
                            );
                            assert(p2.contains(p1[w]));
                            let u = choose|u: int| 0 <= u < p2.len() && #[trigger] p2[u]
                                == p1[w];
                            assert(ignored_path(cpath(cs.last()), p2));
                        }
                    }
                    assert(f1 == filter_changes(pre, p1).push(cs.last()));
                    assert(f1[f1.len() - 1] == c);
                }
            }
        }
    }
}

/// What survives the filter of a shorter list still survives after one more
/// change is appended.
proof fn lemma_filter_prefix_contains(
    pre: Seq<ChangeV>,
    last: ChangeV,
    pats: Seq<Seq<SegView>>,
    c: ChangeV,
)
    requires
        filter_changes(pre, pats).contains(c),
    ensures
        filter_changes(pre.push(last), pats).contains(c),
{
    assert(pre.push(last).drop_last() =~= pre);
    let f = filter_changes(pre, pats);
    let k = choose|k: int| 0 <= k < f.len() && f[k] == c;
    if ignored_path(cpath(last), pats) {
        assert(filter_changes(pre.push(last), pats) == f);
    } else {
        assert(filter_changes(pre.push(last), pats) == f.push(last));
        assert(f.push(last)[k] == c);
    }
}

/// A failure while reading ignore patterns out of a JSON document.
#[derive(Debug, Clone, PartialEq, Eq)]
pub enum IgnoreError {
    /// An array held something other than a string.
    NotStringArray,
    /// A pattern does not start with a slash.
    MissingLeadingSlash,
    /// The document is neither an array nor an object.
    NotArrayOrObject,
}

/// Whether the member value marks its key as an ignored path: `true`, a
/// nonempty object, or a number.
pub open spec fn truthy(v: Jv) -> bool {
    ||| v == Jv::Bool(true)
    ||| (v is Obj && v->Obj_0.len() > 0)
    ||| v is Num
}

/// The pointer paths of the truthy leaves of `v`, in member order: a truthy
/// nonempty object is walked into, any other truthy member is a leaf.
pub open spec fn extract_paths(v: Jv, prefix: Seq<char>) -> Seq<Seq<char>>
    decreases jv_height(v), 1int, 0int,
{
    match v {
        Jv::Obj(ps) => extract_pairs_from(ps, 0, prefix),
        _ => Seq::empty(),
    }
}

/// The pointer paths contributed by the members from position `i` on.
pub open spec fn extract_pairs_from(
    ps: Seq<(Seq<char>, Jv)>,
    i: int,
    prefix: Seq<char>,
) -> Seq<Seq<char>>
    decreases jv_height(Jv::Obj(ps)), 0int, ps.len() - i,
    via extract_pairs_from_dec
{
    if i < 0 || i >= ps.len() {
        Seq::empty()
    } else {
        let p = prefix + seq!['/'] + ps[i].0;
        (if truthy(ps[i].1) {
            if ps[i].1 is Obj && ps[i].1->Obj_0.len() > 0 {
                extract_paths(ps[i].1, p)
            } else {
                seq![p]
            }
        } else {
            Seq::empty()
        }) + extract_pairs_from(ps, i + 1, prefix)
    }
}

#[via_fn]
proof fn extract_pairs_from_dec(ps: Seq<(Seq<char>, Jv)>, i: int, prefix: Seq<char>) {
    if 0 <= i < ps.len() {
        lemma_obj_val_height(ps, i);
    }
}

/// The pointer paths contributed by all the members, left to right.
pub open spec fn extract_pairs(ps: Seq<(Seq<char>, Jv)>, prefix: Seq<char>) -> Seq<Seq<char>> {
    extract_pairs_from(ps, 0, prefix)
}

/// What a whole ignore document yields: a string array is taken as pointer
/// patterns, each of which must start with a slash; an object yields its
/// truthy leaf paths, sorted with duplicates dropped; anything else is
/// refused.
pub open spec fn ignore_patterns_spec(v: Jv) -> Result<Seq<Seq<char>>, IgnoreError> {
    match v {
        Jv::Arr(items) => if !(forall|i: int| 0 <= i < items.len() ==> (#[trigger] items[i])
            is Str) {
            Err(IgnoreError::NotStringArray)
        } else if exists|i: int| 0 <= i < items.len() && !((#[trigger] items[i])->Str_0.len()
            > 0 && items[i]->Str_0[0] == '/') {
            Err(IgnoreError::MissingLeadingSlash)
        } else {
            Ok(Seq::new(items.len(), |i: int| items[i]->Str_0))
        },
        Jv::Obj(ps) => Ok(dedup_adjacent(sort_seqs(extract_pairs(ps, Seq::empty())))),
        _ => Err(IgnoreError::NotArrayOrObject),
    }
}

/// Reads ignore patterns out of an already-parsed JSON document, as
/// [`ignore_patterns_spec`] names it.
pub fn ignore_patterns_from_value(v: &JsonValue) -> (r: Result<Vec<String>, IgnoreError>)
    ensures
        match r {
            Ok(pats) => ignore_patterns_spec(v@) == Ok::<Seq<Seq<char>>, IgnoreError>(
                str_views(pats@),
            ),
            Err(e) => ignore_patterns_spec(v@) == Err::<Seq<Seq<char>>, IgnoreError>(e),
        },
{
    match v {
        JsonValue::Arr(items) => {
            proof {
                crate::value::lemma_elems_of(items@);
            }
            let ghost iv = crate::value::elems_of(items@);
            proof {
                assert(v@ == Jv::Arr(iv));
                assert(v@->Arr_0 == iv);
            }
            let n = items.len();
            // First pass: every element must be a string.
            let mut out: Vec<String> = Vec::new();
            let mut i: usize = 0;
            while i < n
                invariant
                    i <= n,
                    n == items@.len(),
                    iv == crate::value::elems_of(items@),
                    v@ == Jv::Arr(iv),
                    iv.len() == n,
                    forall|k: int| 0 <= k < n ==> iv[k] == crate::value::jv_of(
                        #[trigger] items@[k],
                    ),
                    out@.len() == i,
                    forall|k: int| 0 <= k < i ==> (#[trigger] iv[k]) is Str,
                    forall|k: int| 0 <= k < i ==> (#[trigger] out@[k])@ == iv[k]->Str_0,
                decreases n - i,
            {
                match &items[i] {
                    JsonValue::Str(s) => {
                        let c = s.clone();
                        out.push(c);
                    },
                    _ => {
                        proof {
                            assert(!(iv[i as int] is Str));
                            assert(v@->Arr_0 == iv);
                        }
                        return Err(IgnoreError::NotStringArray);
                    },
                }
                i = i + 1;
            }
            // Second pass: every pattern must start with a slash.
            let mut j: usize = 0;
            while j < n
                invariant
                    j <= n,
                    n == items@.len(),
                    iv.len() == n,
                    v@ == Jv::Arr(iv),
                    out@.len() == n,
                    forall|k: int| 0 <= k < n ==> (#[trigger] iv[k]) is Str,
                    forall|k: int| 0 <= k < n ==> (#[trigger] out@[k])@ == iv[k]->Str_0,
                    forall|k: int| 0 <= k < j ==> (#[trigger] iv[k])->Str_0.len() > 0
                        && iv[k]->Str_0[0] == '/',
                decreases n - j,
            {
                let cs = crate::strings::str_chars(out[j].as_str());
                if cs.len() == 0 || cs[0] != '/' {
                    proof {
                        assert(!(iv[j as int]->Str_0.len() > 0 && iv[j as int]->Str_0[0]
                            == '/'));
                        assert(v@->Arr_0 == iv);
                    }
                    return Err(IgnoreError::MissingLeadingSlash);
                }
                j = j + 1;
            }
            proof {
                assert(str_views(out@) =~= Seq::new(iv.len(), |k: int| iv[k]->Str_0));
            }
            Ok(out)
        },
        JsonValue::Obj(pairs) => {
            let mut raw: Vec<String> = Vec::new();
            let mut prefix = String::new();
            proof {
                lemma_pairs_of(pairs@);
                assert(str_views(raw@) =~= Seq::<Seq<char>>::empty());
                assert(Seq::<Seq<char>>::empty() + extract_pairs(
                    pairs_of(pairs@),
                    Seq::<char>::empty(),
                ) =~= extract_pairs(pairs_of(pairs@), Seq::<char>::empty()));
            }
            extract_into(pairs, &prefix, &mut raw);
            proof {
                assert(str_views(raw@) + Seq::<Seq<char>>::empty() =~= str_views(raw@));
                assert(v@->Obj_0 == pairs_of(pairs@));
            }
            let sorted = sort_dedup_strings(raw);
            Ok(sorted)
        },
        _ => Err(IgnoreError::NotArrayOrObject),
    }
}

/// Appends the truthy leaf paths of the members to `out`.
fn extract_into(pairs: &Vec<(String, JsonValue)>, prefix: &String, out: &mut Vec<String>)
    ensures
        str_views(final(out)@) == str_views(old(out)@) + extract_pairs(
            pairs_of(pairs@),
            prefix@,
        ),
    decreases jv_height(Jv::Obj(pairs_of(pairs@))), 0int,
{
    let ghost base = str_views(old(out)@);
    let ghost psv = pairs_of(pairs@);
    proof {
        lemma_pairs_of(pairs@);
    }
    let n = pairs.len();
    let mut i: usize = 0;
    while i < n
        invariant
            i <= n,
            n == pairs@.len(),
            psv == pairs_of(pairs@),
            psv.len() == n,
            forall|k: int| 0 <= k < n ==> psv[k] == ((#[trigger] pairs@[k]).0@,
            crate::value::jv_of(pairs@[k].1)),
            base == str_views(old(out)@),
            base + extract_pairs(psv, prefix@) == str_views(out@) + extract_pairs_from(
                psv,
                i as int,
                prefix@,
            ),
        decreases n - i,
    {
        proof {
            lemma_obj_val_height(psv, i as int);
        }
        let mut p = prefix.clone();
        push_char(&mut p, '/');
        p.append(pairs[i].0.as_str());
        proof {
            assert(p@ =~= prefix@ + seq!['/'] + pairs@[i as int].0@);
        }
        let v = &pairs[i].1;
        let is_truthy = truthy_exec(v);
        let ghost prevout = str_views(out@);
        let ghost headpart = (if truthy(psv[i as int].1) {
            if psv[i as int].1 is Obj && psv[i as int].1->Obj_0.len() > 0 {
                extract_paths(psv[i as int].1, p@)
            } else {
                seq![p@]
            }
        } else {
            Seq::<Seq<char>>::empty()
        });
        if is_truthy {
            let recurse: bool = match v {
                JsonValue::Obj(inner) => inner.len() > 0,
                _ => false,
            };
            if recurse {
                match v {
                    JsonValue::Obj(inner) => {
                        proof {
                            assert(psv[i as int].1 == crate::value::jv_of(pairs@[i as int].1));
                            assert(extract_paths(psv[i as int].1, p@) == extract_pairs(
                                pairs_of(inner@),
                                p@,
                            ));
                        }
                        extract_into(inner, &p, out);
                    },
                    _ => {
                        proof {
                            assert(false);
                        }
                    },
                }
            } else {
                out.push(p);
                proof {
                    assert(str_views(out@) =~= prevout.push(headpart[0]));
                    assert(prevout.push(headpart[0]) =~= prevout + headpart);
                }
            }
        }
        proof {
            assert(extract_pairs_from(psv, i as int, prefix@) == headpart + extract_pairs_from(
                psv,
                i as int + 1,
                prefix@,
            ));
            assert((prevout + headpart) + extract_pairs_from(psv, i as int + 1, prefix@)
                =~= prevout + (headpart + extract_pairs_from(psv, i as int + 1, prefix@)));
            if !is_truthy {
                assert(str_views(out@) + Seq::<Seq<char>>::empty() =~= str_views(out@));
            }
        }
        i = i + 1;
    }
    proof {
        assert(str_views(out@) + Seq::<Seq<char>>::empty() =~= str_views(out@));
    }
}

/// Decides [`truthy`].
fn truthy_exec(v: &JsonValue) -> (r: bool)
    ensures
        r == truthy(v@),
{
    match v {
        JsonValue::Bool(b) => *b,
        JsonValue::Obj(ps) => {
            proof {
                lemma_pairs_of(ps@);
            }
            ps.len() > 0
        },
        JsonValue::Num(_) => true,
        _ => false,
    }
}

} // verus!
