//! Rendering a JSON tree as text, compact or pretty.
//!
//! The pretty shape indents by two spaces per level, puts every array
//! element and object member on its own line, and writes `": "` after keys;
//! empty containers render as `[]` and `{}`.  The compact shape uses no
//! whitespace at all.  Strings are quoted with `"`, `\` and the control
//! characters escaped.

use vstd::prelude::*;
use vstd::string::StringExecFns;
use crate::strings::push_char;
use crate::strings::str_chars;
use crate::value::JsonValue;
use crate::value::Jv;
use crate::value::jv_height;
use crate::value::lemma_arr_elem_height;
use crate::value::lemma_obj_val_height;
use crate::value::lemma_elems_of;
use crate::value::lemma_pairs_of;

verus! {

/// The hexadecimal digit for a value below sixteen.
pub open spec fn hex_digit(d: nat) -> char {
    if d < 10 {
        crate::strings::digit_char(d)
    } else if d == 10 {
        'a'
    } else if d == 11 {
        'b'
    } else if d == 12 {
        'c'
    } else if d == 13 {
        'd'
    } else if d == 14 {
        'e'
    } else {
        'f'
    }
}

/// The escape of one character inside a JSON string literal.
pub open spec fn esc_char(c: char) -> Seq<char> {
    if c == '"' {
        seq!['\\', '"']
    } else if c == '\\' {
        seq!['\\', '\\']
    } else if c == '\u{8}' {
        seq!['\\', 'b']
    } else if c == '\u{c}' {
        seq!['\\', 'f']
    } else if c == '\n' {
        seq!['\\', 'n']
    } else if c == '\r' {
        seq!['\\', 'r']
    } else if c == '\t' {
        seq!['\\', 't']
    } else if (c as u32) < 0x20 {
        seq!['\\', 'u', '0', '0', hex_digit((c as u32 / 16) as nat), hex_digit(
            (c as u32 % 16) as nat,
        )]
    } else {
        seq![c]
    }
}

/// The escaped body of a JSON string literal.
pub open spec fn escape_json(s: Seq<char>) -> Seq<char>
    decreases s.len(),
{
    if s.len() == 0 {
        Seq::empty()
    } else {
        escape_json(s.drop_last()) + esc_char(s.last())
    }
}

/// A quoted JSON string literal.
pub open spec fn quoted(s: Seq<char>) -> Seq<char> {
    seq!['"'] + escape_json(s) + seq!['"']
}

/// The text of one JSON tree.  `ind` is the indentation already in force at
/// this node; a pretty child level adds two spaces to it.
pub open spec fn render_jv(v: Jv, pretty: bool, ind: Seq<char>) -> Seq<char>
    decreases jv_height(v), 1int, 0int,
{
    match v {
        Jv::Null => seq!['n', 'u', 'l', 'l'],
        Jv::Bool(b) => if b {
            seq!['t', 'r', 'u', 'e']
        } else {
            seq!['f', 'a', 'l', 's', 'e']
        },
        Jv::Num(s) => s,
        Jv::Str(s) => quoted(s),
        Jv::Arr(items) => if items.len() == 0 {
            seq!['[', ']']
        } else if pretty {
            seq!['['] + render_items(items, 0, true, ind + seq![' ', ' ']) + seq!['\n'] + ind
                + seq![']']
        } else {
            seq!['['] + render_items(items, 0, false, ind) + seq![']']
        },
        Jv::Obj(ps) => if ps.len() == 0 {
            seq!['{', '}']
        } else if pretty {
            seq!['{'] + render_pairs(ps, 0, true, ind + seq![' ', ' ']) + seq!['\n'] + ind
                + seq!['}']
        } else {
            seq!['{'] + render_pairs(ps, 0, false, ind) + seq!['}']
        },
    }
}

/// The text of the elements from position `i` on, separators included.  In
/// the pretty shape each element opens a fresh line at `ind`.
pub open spec fn render_items(items: Seq<Jv>, i: int, pretty: bool, ind: Seq<char>) -> Seq<
    char,
>
    decreases jv_height(Jv::Arr(items)), 0int, items.len() - i,
    via render_items_dec
{
    if i < 0 || i >= items.len() {
        Seq::empty()
    } else {
        (if i > 0 {
            seq![',']
        } else {
            Seq::empty()
        }) + (if pretty {
            seq!['\n'] + ind
        } else {
            Seq::empty()
        }) + render_jv(items[i], pretty, ind) + render_items(items, i + 1, pretty, ind)
    }
}

#[via_fn]
proof fn render_items_dec(items: Seq<Jv>, i: int, pretty: bool, ind: Seq<char>) {
    if 0 <= i < items.len() {
        lemma_arr_elem_height(items, i);
    }
}

/// The text of the members from position `i` on, separators included.
pub open spec fn render_pairs(
    ps: Seq<(Seq<char>, Jv)>,
    i: int,
    pretty: bool,
    ind: Seq<char>,
) -> Seq<char>
    decreases jv_height(Jv::Obj(ps)), 0int, ps.len() - i,
    via render_pairs_dec
{
    if i < 0 || i >= ps.len() {
        Seq::empty()
    } else {
        (if i > 0 {
            seq![',']
        } else {
            Seq::empty()
        }) + (if pretty {
            seq!['\n'] + ind
        } else {
            Seq::empty()
        }) + quoted(ps[i].0) + (if pretty {
            seq![':', ' ']
        } else {
            seq![':']
        }) + render_jv(ps[i].1, pretty, ind) + render_pairs(ps, i + 1, pretty, ind)
    }
}

#[via_fn]
proof fn render_pairs_dec(ps: Seq<(Seq<char>, Jv)>, i: int, pretty: bool, ind: Seq<char>) {
    if 0 <= i < ps.len() {
        lemma_obj_val_height(ps, i);
    }
}

/// Appends the quoted, escaped form of `s` to `out`.
fn push_quoted(out: &mut String, s: &str)
    ensures
        final(out)@ == old(out)@ + quoted(s@),
{
    push_char(out, '"');
    let cs = str_chars(s);
    let n = cs.len();
    let mut i: usize = 0;
    proof {
        assert(s@.subrange(0, 0) =~= Seq::<char>::empty());
        assert(out@ =~= old(out)@ + seq!['"'] + escape_json(s@.subrange(0, 0)));
    }
    while i < n
        invariant
            i <= n,
            n == s@.len(),
            cs@ == s@,
            out@ == old(out)@ + seq!['"'] + escape_json(s@.subrange(0, i as int)),
        decreases n - i,
    {
        let ghost pre = s@.subrange(0, i as int);
        let c = cs[i];
        if c == '"' {
            push_char(out, '\\');
            push_char(out, '"');
        } else if c == '\\' {
            push_char(out, '\\');
            push_char(out, '\\');
        } else if c == '\u{8}' {
            push_char(out, '\\');
            push_char(out, 'b');
        } else if c == '\u{c}' {
            push_char(out, '\\');
            push_char(out, 'f');
        } else if c == '\n' {
            push_char(out, '\\');
            push_char(out, 'n');
        } else if c == '\r' {
            push_char(out, '\\');
            push_char(out, 'r');
        } else if c == '\t' {
            push_char(out, '\\');
            push_char(out, 't');
        } else if (c as u32) < 0x20 {
            push_char(out, '\\');
            push_char(out, 'u');
            push_char(out, '0');
            push_char(out, '0');
            let hi = hex_digit_exec((c as u32 / 16) as u8);
            let lo = hex_digit_exec((c as u32 % 16) as u8);
            push_char(out, hi);
            push_char(out, lo);
        } else {
            push_char(out, c);
        }
        proof {
            assert(s@.subrange(0, i + 1 as int) =~= pre.push(s@[i as int]));
            assert(escape_json(pre.push(s@[i as int])) == escape_json(pre) + esc_char(
                s@[i as int],
            )) by {
                assert(pre.push(s@[i as int]).drop_last() =~= pre);
            }
            assert(out@ =~= old(out)@ + seq!['"'] + escape_json(s@.subrange(0, i + 1 as int)));
        }
        i = i + 1;
    }
    push_char(out, '"');
    proof {
        assert(s@.subrange(0, n as int) =~= s@);
        assert(out@ =~= old(out)@ + quoted(s@));
    }
}

/// The hexadecimal digit character for a value below sixteen.
fn hex_digit_exec(d: u8) -> (c: char)
    requires
        d < 16,
    ensures
        c == hex_digit(d as nat),
{
    if d < 10 {
        crate::strings::digit_char_exec(d)
    } else if d == 10 {
        'a'
    } else if d == 11 {
        'b'
    } else if d == 12 {
        'c'
    } else if d == 13 {
        'd'
    } else if d == 14 {
        'e'
    } else {
        'f'
    }
}

/// Appends the text of `v` to `out`, as [`render_jv`] names it.
pub fn render_value(v: &JsonValue, pretty: bool, ind: &String, out: &mut String)
    ensures
        final(out)@ == old(out)@ + render_jv(v@, pretty, ind@),
    decreases jv_height(v@), 1int,
{
    let ghost base = old(out)@;
    match v {
        JsonValue::Null => {
            out.append("null");
            proof {
                reveal_strlit("null");
                assert(out@ =~= base + render_jv(v@, pretty, ind@));
            }
        },
        JsonValue::Bool(b) => {
            if *b {
                out.append("true");
                proof {
                    reveal_strlit("true");
                    assert(out@ =~= base + render_jv(v@, pretty, ind@));
                }
            } else {
                out.append("false");
                proof {
                    reveal_strlit("false");
                    assert(out@ =~= base + render_jv(v@, pretty, ind@));
                }
            }
        },
        JsonValue::Num(s) => {
            out.append(s.as_str());
            proof {
                assert(out@ =~= base + render_jv(v@, pretty, ind@));
            }
        },
        JsonValue::Str(s) => {
            push_quoted(out, s.as_str());
            proof {
                assert(out@ =~= base + render_jv(v@, pretty, ind@));
            }
        },
        JsonValue::Arr(items) => {
            proof {
                lemma_elems_of(items@);
            }
            let ghost iv = crate::value::elems_of(items@);
            if items.len() == 0 {
                out.append("[]");
                proof {
                    reveal_strlit("[]");
                    assert(out@ =~= base + render_jv(v@, pretty, ind@));
                }
            } else {
                push_char(out, '[');
                let mut child_ind = ind.clone();
                if pretty {
                    push_char(&mut child_ind, ' ');
                    push_char(&mut child_ind, ' ');
                }
                proof {
                    if pretty {
                        assert(child_ind@ =~= ind@ + seq![' ', ' ']);
                    }
                }
                let n = items.len();
                let mut i: usize = 0;
                proof {
                    assert(out@ =~= base + seq!['['] + render_items_upto(iv, 0, pretty, child_ind@));
                }
                while i < n
                    invariant
                        i <= n,
                        n == items@.len(),
                        iv == crate::value::elems_of(items@),
                        v@ == Jv::Arr(iv),
                        iv.len() == n,
                        n > 0,
                        forall|k: int| 0 <= k < n ==> iv[k] == crate::value::jv_of(
                            #[trigger] items@[k],
                        ),
                        pretty ==> child_ind@ == ind@ + seq![' ', ' '],
                        !pretty ==> child_ind@ == ind@,
                        out@ == base + seq!['['] + render_items_upto(iv, i as int, pretty, child_ind@),
                    decreases n - i,
                {
                    proof {
                        lemma_arr_elem_height(iv, i as int);
                    }
                    if i > 0 {
                        push_char(out, ',');
                    }
                    if pretty {
                        push_char(out, '\n');
                        out.append(child_ind.as_str());
                    }
                    let ghost mid = out@;
                    render_value(&items[i], pretty, &child_ind, out);
                    proof {
                        lemma_render_items_upto_step(iv, i as int, pretty, child_ind@);
                        assert(out@ =~= base + seq!['['] + render_items_upto(
                            iv,
                            i as int + 1,
                            pretty,
                            child_ind@,
                        ));
                    }
                    i = i + 1;
                }
                proof {
                    lemma_render_items_upto_full(iv, pretty, child_ind@);
                }
                if pretty {
                    push_char(out, '\n');
                    out.append(ind.as_str());
                }
                push_char(out, ']');
                proof {
                    assert(out@ =~= base + render_jv(v@, pretty, ind@));
                }
            }
        },
        JsonValue::Obj(pairs) => {
            proof {
                lemma_pairs_of(pairs@);
            }
            let ghost pv = crate::value::pairs_of(pairs@);
            if pairs.len() == 0 {
                out.append("{}");
                proof {
                    reveal_strlit("{}");
                    assert(out@ =~= base + render_jv(v@, pretty, ind@));
                }
            } else {
                push_char(out, '{');
                let mut child_ind = ind.clone();
                if pretty {
                    push_char(&mut child_ind, ' ');
                    push_char(&mut child_ind, ' ');
                }
                proof {
                    if pretty {
                        assert(child_ind@ =~= ind@ + seq![' ', ' ']);
                    }
                }
                let n = pairs.len();
                let mut i: usize = 0;
                proof {
                    assert(out@ =~= base + seq!['{'] + render_pairs_upto(pv, 0, pretty, child_ind@));
                }
                while i < n
                    invariant
                        i <= n,
                        n == pairs@.len(),
                        pv == crate::value::pairs_of(pairs@),
                        v@ == Jv::Obj(pv),
                        pv.len() == n,
                        n > 0,
                        forall|k: int| 0 <= k < n ==> pv[k] == ((#[trigger] pairs@[k]).0@,
                        crate::value::jv_of(pairs@[k].1)),
                        pretty ==> child_ind@ == ind@ + seq![' ', ' '],
                        !pretty ==> child_ind@ == ind@,
                        out@ == base + seq!['{'] + render_pairs_upto(pv, i as int, pretty, child_ind@),
                    decreases n - i,
                {
                    proof {
                        lemma_obj_val_height(pv, i as int);
                    }
                    if i > 0 {
                        push_char(out, ',');
                    }
                    if pretty {
                        push_char(out, '\n');
                        out.append(child_ind.as_str());
                    }
                    push_quoted(out, pairs[i].0.as_str());
                    push_char(out, ':');
                    if pretty {
                        push_char(out, ' ');
                    }
                    render_value(&pairs[i].1, pretty, &child_ind, out);
                    proof {
                        lemma_render_pairs_upto_step(pv, i as int, pretty, child_ind@);
                        assert(out@ =~= base + seq!['{'] + render_pairs_upto(
                            pv,
                            i as int + 1,
                            pretty,
                            child_ind@,
                        ));
                    }
                    i = i + 1;
                }
                proof {
                    lemma_render_pairs_upto_full(pv, pretty, child_ind@);
                }
                if pretty {
                    push_char(out, '\n');
                    out.append(ind.as_str());
                }
                push_char(out, '}');
                proof {
                    assert(out@ =~= base + render_jv(v@, pretty, ind@));
                }
            }
        },
    }
}

/// The text of the first `i` elements, separators included.
pub open spec fn render_items_upto(items: Seq<Jv>, i: int, pretty: bool, ind: Seq<char>) -> Seq<
    char,
>
    decreases i,
{
    if i <= 0 {
        Seq::empty()
    } else {
        render_items_upto(items, i - 1, pretty, ind) + (if i - 1 > 0 {
            seq![',']
        } else {
            Seq::empty()
        }) + (if pretty {
            seq!['\n'] + ind
        } else {
            Seq::empty()
        }) + render_jv(items[i - 1], pretty, ind)
    }
}

/// One more element extends the prefix text by its separator and text.
proof fn lemma_render_items_upto_step(items: Seq<Jv>, i: int, pretty: bool, ind: Seq<char>)
    requires
        0 <= i < items.len(),
    ensures
        render_items_upto(items, i + 1, pretty, ind) == render_items_upto(
            items,
            i,
            pretty,
            ind,
        ) + (if i > 0 {
            seq![',']
        } else {
            Seq::<char>::empty()
        }) + (if pretty {
            seq!['\n'] + ind
        } else {
            Seq::<char>::empty()
        }) + render_jv(items[i], pretty, ind),
{
}

/// The prefix text of all elements is the full element text.
proof fn lemma_render_items_upto_full(items: Seq<Jv>, pretty: bool, ind: Seq<char>)
    ensures
        render_items_upto(items, items.len() as int, pretty, ind) == render_items(
            items,
            0,
            pretty,
            ind,
        ),
{
    lemma_render_items_agree(items, 0, pretty, ind);
    assert(render_items_upto(items, 0, pretty, ind) + render_items(items, 0, pretty, ind)
        =~= render_items(items, 0, pretty, ind));
}

/// Prefix and suffix renderings meet in the middle.
proof fn lemma_render_items_agree(items: Seq<Jv>, i: int, pretty: bool, ind: Seq<char>)
    requires
        0 <= i <= items.len(),
    ensures
        render_items_upto(items, items.len() as int, pretty, ind) == render_items_upto(
            items,
            i,
            pretty,
            ind,
        ) + render_items(items, i, pretty, ind),
    decreases items.len() - i,
{
    if i == items.len() {
        assert(render_items_upto(items, i, pretty, ind) + Seq::<char>::empty()
            =~= render_items_upto(items, i, pretty, ind));
    } else {
        lemma_render_items_agree(items, i + 1, pretty, ind);
        lemma_render_items_upto_step(items, i, pretty, ind);
        assert(render_items_upto(items, i, pretty, ind) + ((if i > 0 {
            seq![',']
        } else {
            Seq::<char>::empty()
        }) + (if pretty {
            seq!['\n'] + ind
        } else {
            Seq::<char>::empty()
        }) + render_jv(items[i], pretty, ind) + render_items(items, i + 1, pretty, ind))
            =~= (render_items_upto(items, i, pretty, ind) + (if i > 0 {
            seq![',']
        } else {
            Seq::<char>::empty()
        }) + (if pretty {
            seq!['\n'] + ind
        } else {
            Seq::<char>::empty()
        }) + render_jv(items[i], pretty, ind)) + render_items(items, i + 1, pretty, ind));
    }
}

/// The text of the first `i` members, separators included.
pub open spec fn render_pairs_upto(
    ps: Seq<(Seq<char>, Jv)>,
    i: int,
    pretty: bool,
    ind: Seq<char>,
) -> Seq<char>
    decreases i,
{
    if i <= 0 {
        Seq::empty()
    } else {
        render_pairs_upto(ps, i - 1, pretty, ind) + (if i - 1 > 0 {
            seq![',']
        } else {
            Seq::empty()
        }) + (if pretty {
            seq!['\n'] + ind
        } else {
            Seq::empty()
        }) + quoted(ps[i - 1].0) + (if pretty {
            seq![':', ' ']
        } else {
            seq![':']
        }) + render_jv(ps[i - 1].1, pretty, ind)
    }
}

/// One more member extends the prefix text by its separator and text.
proof fn lemma_render_pairs_upto_step(ps: Seq<(Seq<char>, Jv)>, i: int, pretty: bool, ind: Seq<
    char,
>)
    requires
        0 <= i < ps.len(),
    ensures
        render_pairs_upto(ps, i + 1, pretty, ind) == render_pairs_upto(ps, i, pretty, ind) + (
        if i > 0 {
            seq![',']
        } else {
            Seq::<char>::empty()
        }) + (if pretty {
            seq!['\n'] + ind
        } else {
            Seq::<char>::empty()
        }) + quoted(ps[i].0) + (if pretty {
            seq![':', ' ']
        } else {
            seq![':']
        }) + render_jv(ps[i].1, pretty, ind),
{
}

/// The prefix text of all members is the full member text.
proof fn lemma_render_pairs_upto_full(ps: Seq<(Seq<char>, Jv)>, pretty: bool, ind: Seq<char>)
    ensures
        render_pairs_upto(ps, ps.len() as int, pretty, ind) == render_pairs(
            ps,
            0,
            pretty,
            ind,
        ),
{
    lemma_render_pairs_agree(ps, 0, pretty, ind);
    assert(render_pairs_upto(ps, 0, pretty, ind) + render_pairs(ps, 0, pretty, ind)
        =~= render_pairs(ps, 0, pretty, ind));
}

/// Prefix and suffix renderings meet in the middle.
proof fn lemma_render_pairs_agree(ps: Seq<(Seq<char>, Jv)>, i: int, pretty: bool, ind: Seq<
    char,
>)
    requires
        0 <= i <= ps.len(),
    ensures
        render_pairs_upto(ps, ps.len() as int, pretty, ind) == render_pairs_upto(
            ps,
            i,
            pretty,
            ind,
        ) + render_pairs(ps, i, pretty, ind),
    decreases ps.len() - i,
{
    if i == ps.len() {
        assert(render_pairs_upto(ps, i, pretty, ind) + Seq::<char>::empty()
            =~= render_pairs_upto(ps, i, pretty, ind));
    } else {
        lemma_render_pairs_agree(ps, i + 1, pretty, ind);
        lemma_render_pairs_upto_step(ps, i, pretty, ind);
        assert(render_pairs_upto(ps, i, pretty, ind) + ((if i > 0 {
            seq![',']
        } else {
            Seq::<char>::empty()
        }) + (if pretty {
            seq!['\n'] + ind
        } else {
            Seq::<char>::empty()
        }) + quoted(ps[i].0) + (if pretty {
            seq![':', ' ']
        } else {
            seq![':']
        }) + render_jv(ps[i].1, pretty, ind) + render_pairs(ps, i + 1, pretty, ind))
            =~= (render_pairs_upto(ps, i, pretty, ind) + (if i > 0 {
            seq![',']
        } else {
            Seq::<char>::empty()
        }) + (if pretty {
            seq!['\n'] + ind
        } else {
            Seq::<char>::empty()
        }) + quoted(ps[i].0) + (if pretty {
            seq![':', ' ']
        } else {
            seq![':']
        }) + render_jv(ps[i].1, pretty, ind)) + render_pairs(ps, i + 1, pretty, ind));
    }
}

/// The full text of one document, compact or pretty.
pub fn value_to_text(v: &JsonValue, pretty: bool) -> (r: String)
    ensures
        r@ == render_jv(v@, pretty, Seq::<char>::empty()),
{
    let mut out = String::new();
    let ind = String::new();
    render_value(v, pretty, &ind, &mut out);
    proof {
        assert(Seq::<char>::empty() + render_jv(v@, pretty, Seq::<char>::empty())
            =~= render_jv(v@, pretty, Seq::<char>::empty()));
    }
    out
}

} // verus!
