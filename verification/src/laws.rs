//! Laws of the codec: blank and comment lines never affect decoding, an
//! all-skippable document decodes to the empty mapping and the empty mapping
//! encodes to empty text, re-parsing a rendered canonical scalar restores it
//! exactly, and a canonical document of scalars and lists of scalars is a
//! fixed point of the encode/decode pair.

use vstd::prelude::*;
use vstd::arithmetic::div_mod::lemma_fundamental_div_mod;
use crate::text::{trim_spec, trim_start_spec, trim_end_spec, indent_of, is_ws, lemma_trim_start_at, lemma_trim_end_at};
use crate::scalar::{
    eq_icase, matches_icase, kw_true, kw_false, kw_null, is_quoted, is_int_text, is_float_text,
    is_negative, sign_body, int_text_val, all_digits, digits_val, digit_val, is_digit, digit_char,
    digits_of, int_to_text, needs_quotes, parse_scalar_spec, format_scalar_spec, idx_of2,
    lemma_idx_of2, lemma_idx_of2_unique,
};
use crate::decode::{
    StateModel, FrameModel, Scope, init_state, run_lines, step_line, finish, root_value,
    parse_lines_spec, map_put, pop_to, pop_one, close_scope, step_key_line,
};
use crate::encode::{encode_spec, encode_entries, encode_items, entry_text, item_text, spaces, is_composite};
use crate::value::Vs;

verus! {

// ---------------------------------------------------------------------------
// Blank and comment lines
// ---------------------------------------------------------------------------

/// A line the decoder skips entirely: blank after trimming, or a comment.
pub open spec fn skippable_line(l: Seq<char>) -> bool {
    trim_spec(l).len() == 0 || trim_spec(l)[0] == '#'
}

proof fn lemma_run_skippables(lines: Seq<Seq<char>>, st: StateModel)
    requires
        forall|i: int| 0 <= i < lines.len() ==> skippable_line(#[trigger] lines[i]),
    ensures
        run_lines(lines, st) == st,
    decreases lines.len(),
{
    if lines.len() > 0 {
        assert(skippable_line(lines[0]));
        assert(step_line(st, lines.first()) == st);
        assert(forall|i: int|
            0 <= i < lines.drop_first().len() ==> skippable_line(
                #[trigger] lines.drop_first()[i],
            )) by {
            assert(forall|i: int|
                0 <= i < lines.drop_first().len() ==> lines.drop_first()[i] == lines[i + 1]);
        }
        lemma_run_skippables(lines.drop_first(), st);
    }
}

/// Decoding an empty document, or one of only blank and comment lines,
/// yields the empty mapping.
pub proof fn lemma_decode_skippable_only(lines: Seq<Seq<char>>)
    requires
        forall|i: int| 0 <= i < lines.len() ==> skippable_line(#[trigger] lines[i]),
    ensures
        parse_lines_spec(lines) == Vs::Mapping(Seq::<(Seq<char>, Vs)>::empty()),
{
    lemma_run_skippables(lines, init_state());
    assert(finish(init_state()) == init_state());
    assert(root_value(init_state()) == Vs::Mapping(Seq::<(Seq<char>, Vs)>::empty()));
}

/// Encoding the empty mapping yields empty text, at any indent.
pub proof fn lemma_encode_empty_mapping(ind: nat)
    ensures
        encode_spec(Vs::Mapping(Seq::<(Seq<char>, Vs)>::empty()), ind) == Seq::<char>::empty(),
{
}

proof fn lemma_run_append(a: Seq<Seq<char>>, b: Seq<Seq<char>>, st: StateModel)
    ensures
        run_lines(a + b, st) == run_lines(b, run_lines(a, st)),
    decreases a.len(),
{
    if a.len() == 0 {
        assert(a + b =~= b);
    } else {
        assert((a + b).first() == a.first());
        assert((a + b).drop_first() =~= a.drop_first() + b);
        lemma_run_append(a.drop_first(), b, step_line(st, a.first()));
    }
}

/// A blank or comment line, anywhere in a document, does not affect what the
/// document decodes to.
pub proof fn lemma_skippable_ignored(pre: Seq<Seq<char>>, l: Seq<char>, post: Seq<Seq<char>>)
    requires
        skippable_line(l),
    ensures
        parse_lines_spec(pre + seq![l] + post) == parse_lines_spec(pre + post),
{
    let st = run_lines(pre, init_state());
    assert(pre + seq![l] + post =~= pre + (seq![l] + post));
    lemma_run_append(pre, seq![l] + post, init_state());
    lemma_run_append(seq![l], post, st);
    assert(run_lines(seq![l], st) == step_line(st, l)) by {
        assert(seq![l].drop_first() =~= Seq::<Seq<char>>::empty());
        assert(run_lines(Seq::<Seq<char>>::empty(), step_line(st, l)) == step_line(st, l));
    }
    assert(step_line(st, l) == st);
    lemma_run_append(pre, post, init_state());
}

// ---------------------------------------------------------------------------
// Scalar round trip
// ---------------------------------------------------------------------------

/// A scalar in canonical form: one the decoder itself can produce, which is
/// exactly the form on which rendering and re-parsing restore it. A float's
/// text must have failed every earlier parse step; a string rendered without
/// quotes must not itself look like a quoted, integer or float token.
pub open spec fn scalar_canonical(v: Vs) -> bool {
    match v {
        Vs::Bool(_) => true,
        Vs::Null => true,
        Vs::Int(i) => -0x8000_0000_0000_0000 <= i <= 0x7fff_ffff_ffff_ffff,
        Vs::Float(t) => {
            &&& is_float_text(t)
            &&& !is_int_text(t)
            &&& !eq_icase(t, kw_true())
            &&& !eq_icase(t, kw_false())
            &&& !eq_icase(t, kw_null())
            &&& !is_quoted(t)
        },
        Vs::Str(s) => needs_quotes(s) || (!is_quoted(s) && !is_int_text(s) && !is_float_text(s)),
        Vs::List(_) => false,
        Vs::Mapping(_) => false,
    }
}

/// A character that is a digit, a sign, or a double quote can never open a
/// keyword match.
proof fn lemma_not_keyword_char(c: char)
    requires
        48 <= c as u32 <= 57 || c as u32 == 45 || c as u32 == 34,
    ensures
        !matches_icase(c, 't'),
        !matches_icase(c, 'f'),
        !matches_icase(c, 'n'),
{
}

/// The decimal digits of a nonnegative number: at least one digit, all
/// digits, and reading them back yields the number.
proof fn lemma_digits_of_props(n: int)
    requires
        n >= 0,
    ensures
        digits_of(n).len() >= 1,
        all_digits(digits_of(n)),
        digits_val(digits_of(n)) == n,
    decreases n,
{
    if n < 10 {
        let s = digits_of(n);
        assert(s == seq![digit_char(n)]);
        assert(is_digit(digit_char(n)) && digit_val(digit_char(n)) == n);
        assert(s.drop_last() =~= Seq::<char>::empty());
        assert(digits_val(Seq::<char>::empty()) == 0);
    } else {
        lemma_fundamental_div_mod(n, 10);
        lemma_digits_of_props(n / 10);
        let p = digits_of(n / 10);
        let s = digits_of(n);
        assert(s == p + seq![digit_char(n % 10)]);
        assert(s.drop_last() =~= p);
        assert(s.last() == digit_char(n % 10));
        assert(0 <= n % 10 < 10);
        assert(is_digit(digit_char(n % 10)) && digit_val(digit_char(n % 10)) == n % 10);
        assert(all_digits(s)) by {
            assert(forall|i: int| 0 <= i < p.len() ==> s[i] == p[i]);
        }
        assert(digits_val(s) == digits_val(p) * 10 + (n % 10));
    }
}

/// Rendering an integer and parsing the text back yields the integer: the
/// rendered text is an integer text denoting the same value, and it matches
/// no earlier step of the scalar precedence chain.
proof fn lemma_int_text_round_trip(i: int)
    requires
        -0x8000_0000_0000_0000 <= i <= 0x7fff_ffff_ffff_ffff,
    ensures
        is_int_text(int_to_text(i)),
        int_text_val(int_to_text(i)) == i,
        !eq_icase(int_to_text(i), kw_true()),
        !eq_icase(int_to_text(i), kw_false()),
        !eq_icase(int_to_text(i), kw_null()),
        !is_quoted(int_to_text(i)),
{
    let t = int_to_text(i);
    if i < 0 {
        lemma_digits_of_props(-i);
        let d = digits_of(-i);
        assert(t == seq!['-'] + d);
        assert(t[0] == '-');
        assert(t.drop_first() =~= d);
        assert(sign_body(t) == d);
        assert(is_negative(t));
        assert(int_text_val(t) == -digits_val(d));
        lemma_not_keyword_char(t[0]);
        assert(t[0] as u32 == 45);
        assert(t[0] != '"') by {
            if t[0] == '"' {
                assert(t[0] as u32 == 34);
            }
        }
    } else {
        lemma_digits_of_props(i);
        assert(t == digits_of(i));
        assert(is_digit(t[0]));
        assert(t[0] != '+' && t[0] != '-') by {
            if t[0] == '+' {
                assert(t[0] as u32 == 43);
            }
            if t[0] == '-' {
                assert(t[0] as u32 == 45);
            }
        }
        assert(sign_body(t) == t);
        assert(!is_negative(t));
        lemma_not_keyword_char(t[0]);
        assert(t[0] != '"') by {
            if t[0] == '"' {
                assert(t[0] as u32 == 34);
            }
        }
    }
}

/// Re-parsing a rendered canonical scalar restores it exactly: the rendered
/// form of a canonical scalar is a fixed point of the decode/encode pair.
pub proof fn lemma_scalar_round_trip(v: Vs)
    requires
        scalar_canonical(v),
    ensures
        parse_scalar_spec(format_scalar_spec(v)) == v,
{
    match v {
        Vs::Bool(b) => {
            if b {
                assert(eq_icase(kw_true(), kw_true()));
            } else {
                assert(!eq_icase(kw_false(), kw_true()));
                assert(eq_icase(kw_false(), kw_false()));
            }
        },
        Vs::Null => {
            assert(!matches_icase(kw_null()[0], kw_true()[0]));
            assert(!eq_icase(kw_null(), kw_true()));
            assert(!eq_icase(kw_null(), kw_false()));
            assert(eq_icase(kw_null(), kw_null()));
        },
        Vs::Int(i) => {
            let t = int_to_text(i);
            lemma_int_text_round_trip(i);
            assert(parse_scalar_spec(t) == Vs::Int(int_text_val(t)));
        },
        Vs::Float(_) => {
        },
        Vs::Str(s) => {
            if needs_quotes(s) {
                let q = seq!['"'] + s + seq!['"'];
                assert(format_scalar_spec(v) == q);
                assert(q[0] == '"' && q.last() == '"' && q.len() >= 2);
                assert(q[0] as u32 == 34);
                lemma_not_keyword_char(q[0]);
                assert(!eq_icase(q, kw_true()));
                assert(!eq_icase(q, kw_false()));
                assert(!eq_icase(q, kw_null()));
                assert(is_quoted(q));
                assert(q.subrange(1, q.len() - 1) =~= s);
            } else {
                assert(!eq_icase(s, kw_true()));
                assert(!eq_icase(s, kw_false()));
                assert(!eq_icase(s, kw_null()));
            }
        },
        Vs::List(_) => {
        },
        Vs::Mapping(_) => {
        },
    }
}

// ---------------------------------------------------------------------------
// Round trip for flat documents of plain scalars
// ---------------------------------------------------------------------------

/// The lines of a text, split at every newline. An empty text yields one
/// blank line, which the decoder skips.
pub open spec fn split_lines(s: Seq<char>) -> Seq<Seq<char>>
    decreases s.len() via split_lines_decreases
{
    let i = idx_of2(s, '\n', '\n');
    if i == s.len() {
        seq![s]
    } else {
        seq![s.subrange(0, i)] + split_lines(s.subrange(i + 1, s.len() as int))
    }
}

#[via_fn]
proof fn split_lines_decreases(s: Seq<char>) {
    lemma_idx_of2(s, '\n', '\n');
}

proof fn lemma_split_lines_concat(a: Seq<char>, b: Seq<char>)
    requires
        forall|j: int| 0 <= j < a.len() ==> a[j] != '\n',
    ensures
        split_lines(a + seq!['\n'] + b) == seq![a] + split_lines(b),
{
    let s = a + seq!['\n'] + b;
    lemma_idx_of2_unique(s, '\n', '\n', a.len() as int);
    assert(s.subrange(0, a.len() as int) =~= a);
    assert(s.subrange(a.len() as int + 1, s.len() as int) =~= b);
}

proof fn lemma_split_lines_single(a: Seq<char>)
    requires
        forall|j: int| 0 <= j < a.len() ==> a[j] != '\n',
    ensures
        split_lines(a) == seq![a],
{
    lemma_idx_of2_unique(a, '\n', '\n', a.len() as int);
}

/// Splitting a text joined from two texts with a newline splits each part.
proof fn lemma_split_lines_join(a: Seq<char>, b: Seq<char>)
    ensures
        split_lines(a + seq!['\n'] + b) == split_lines(a) + split_lines(b),
    decreases a.len(),
{
    let s = a + seq!['\n'] + b;
    let i = idx_of2(a, '\n', '\n');
    lemma_idx_of2(a, '\n', '\n');
    if i == a.len() {
        lemma_split_lines_concat(a, b);
        assert(seq![a] + split_lines(b) =~= split_lines(a) + split_lines(b));
    } else {
        lemma_idx_of2_unique(s, '\n', '\n', i);
        assert(s.subrange(0, i) =~= a.subrange(0, i));
        assert(s.subrange(i + 1, s.len() as int) =~= a.subrange(i + 1, a.len() as int) + seq![
            '\n',
        ] + b);
        lemma_split_lines_join(a.subrange(i + 1, a.len() as int), b);
        assert(split_lines(s) =~= split_lines(a) + split_lines(b));
    }
}

/// A scalar whose rendered text is a single clean token: a boolean, null, or
/// an integer within the 64-bit range.
pub open spec fn plain_scalar(v: Vs) -> bool {
    match v {
        Vs::Bool(_) => true,
        Vs::Null => true,
        Vs::Int(i) => -0x8000_0000_0000_0000 <= i <= 0x7fff_ffff_ffff_ffff,
        _ => false,
    }
}

/// The rendered text of a plain scalar is non-empty and holds no whitespace,
/// no colon and no comment or quote character.
proof fn lemma_plain_scalar_text(v: Vs)
    requires
        plain_scalar(v),
    ensures
        format_scalar_spec(v).len() >= 1,
        forall|j: int| 0 <= j < format_scalar_spec(v).len() ==> {
            let c = #[trigger] format_scalar_spec(v)[j];
            !is_ws(c) && c != '\n' && c != ':' && c != '#'
        },
{
    let f = format_scalar_spec(v);
    match v {
        Vs::Bool(b) => {
            assert forall|j: int| 0 <= j < f.len() implies {
                let c = #[trigger] f[j];
                !is_ws(c) && c != '\n' && c != ':' && c != '#'
            } by {
                if b {
                    assert(f == kw_true());
                } else {
                    assert(f == kw_false());
                }
            }
        },
        Vs::Null => {
            assert forall|j: int| 0 <= j < f.len() implies {
                let c = #[trigger] f[j];
                !is_ws(c) && c != '\n' && c != ':' && c != '#'
            } by {
                assert(f == kw_null());
            }
        },
        Vs::Int(i) => {
            lemma_int_text_round_trip(i);
            assert forall|j: int| 0 <= j < f.len() implies {
                let c = #[trigger] f[j];
                !is_ws(c) && c != '\n' && c != ':' && c != '#'
            } by {
                let c = f[j];
                if i < 0 {
                    lemma_digits_of_props(-i);
                    assert(f == seq!['-'] + digits_of(-i));
                    if j == 0 {
                        assert(c == '-');
                    } else {
                        assert(c == digits_of(-i)[j - 1]);
                        assert(is_digit(c));
                    }
                } else {
                    lemma_digits_of_props(i);
                    assert(f == digits_of(i));
                    assert(is_digit(c));
                }
                assert(!is_ws(c) && c != '\n' && c != ':' && c != '#') by {
                    if is_ws(c) || c == '\n' || c == ':' || c == '#' {
                        assert(c as u32 == 32 || c as u32 == 9 || c as u32 == 10 || c as u32 == 13
                            || c as u32 == 12 || c as u32 == 58 || c as u32 == 35);
                    }
                }
            }
        },
        _ => {
        },
    }
}

/// A key that survives the round trip: no colon and no newline anywhere, and
/// when non-empty it neither starts nor ends with whitespace and does not
/// open a comment.
pub open spec fn canonical_key(k: Seq<char>) -> bool {
    &&& forall|j: int| 0 <= j < k.len() ==> k[j] != ':' && k[j] != '\n'
    &&& k.len() > 0 ==> !is_ws(k[0]) && !is_ws(k.last()) && k[0] != '#'
}

/// The one line a flat entry renders as.
pub open spec fn entry_line(k: Seq<char>, v: Vs) -> Seq<char> {
    k + seq![':'] + seq![' '] + format_scalar_spec(v)
}

proof fn lemma_entry_text_flat(k: Seq<char>, v: Vs)
    requires
        plain_scalar(v),
    ensures
        entry_text(k, v, 0) == entry_line(k, v),
{
    assert(spaces(0) == Seq::<char>::empty());
    assert(!is_composite(v));
    assert(entry_text(k, v, 0) =~= entry_line(k, v));
}

proof fn lemma_entry_line_no_newline(k: Seq<char>, v: Vs)
    requires
        plain_scalar(v),
        canonical_key(k),
    ensures
        forall|j: int| 0 <= j < entry_line(k, v).len() ==> #[trigger] entry_line(k, v)[j] != '\n',
{
    lemma_plain_scalar_text(v);
    let line = entry_line(k, v);
    let f = format_scalar_spec(v);
    assert forall|j: int| 0 <= j < line.len() implies #[trigger] line[j] != '\n' by {
        if j < k.len() {
            assert(line[j] == k[j]);
        } else if j == k.len() {
            assert(line[j] == ':');
        } else if j == k.len() + 1 {
            assert(line[j] == ' ');
        } else {
            assert(line[j] == f[j - k.len() - 2]);
        }
    }
}

/// A state the decoder holds between top-level entries: the root frame,
/// alone or with one open scope directly above it, that collapses to the
/// root mapping `m0`.
pub open spec fn open_shape(st: StateModel, m0: Seq<(Seq<char>, Vs)>) -> bool {
    ||| (st.stack.len() == 1 && st.stack[0].scope == Scope::Entries(m0))
    ||| (st.stack.len() == 2 && st.stack[0].scope is Entries && st.stack[1].ind >= 0 && m0
        == map_put(st.stack[0].scope->Entries_0, st.stack[1].key, close_scope(st.stack[1].scope)))
}

/// Closing the scopes of such a state leaves the root frame holding `m0`.
proof fn lemma_open_shape_collapse(st: StateModel, m0: Seq<(Seq<char>, Vs)>)
    requires
        open_shape(st, m0),
    ensures
        pop_to(st, 0) == (StateModel {
            stack: seq![
                FrameModel { ind: st.stack[0].ind, key: st.stack[0].key, scope: Scope::Entries(m0) },
            ],
            cur: st.cur,
        }),
        finish(st) == pop_to(st, 0),
{
    if st.stack.len() == 1 {
        assert(st.stack =~= seq![st.stack[0]]);
        assert(pop_to(st, 0) == st);
        assert(finish(st) == st);
        assert(st =~= StateModel {
            stack: seq![
                FrameModel { ind: st.stack[0].ind, key: st.stack[0].key, scope: Scope::Entries(m0) },
            ],
            cur: st.cur,
        });
    } else {
        let st1 = pop_one(st);
        assert(st1.stack =~= seq![st1.stack[0]]);
        assert(st1.stack[0].ind == st.stack[0].ind && st1.stack[0].key == st.stack[0].key);
        assert(st1.stack[0].scope == Scope::Entries(m0));
        assert(pop_to(st, 0) == pop_to(st1, 0));
        assert(pop_to(st1, 0) == st1);
        assert(finish(st) == finish(st1));
        assert(finish(st1) == st1);
        assert(st1 =~= StateModel {
            stack: seq![
                FrameModel { ind: st.stack[0].ind, key: st.stack[0].key, scope: Scope::Entries(m0) },
            ],
            cur: st.cur,
        });
    }
}

/// Decoding one flat entry line, between top-level entries, closes any open
/// scope and inserts exactly that entry into the root mapping.
proof fn lemma_entry_line_step(st: StateModel, m0: Seq<(Seq<char>, Vs)>, k: Seq<char>, v: Vs)
    requires
        open_shape(st, m0),
        plain_scalar(v),
        canonical_key(k),
    ensures
        step_line(st, entry_line(k, v)) == (StateModel {
            stack: seq![
                FrameModel {
                    ind: st.stack[0].ind,
                    key: st.stack[0].key,
                    scope: Scope::Entries(map_put(m0, k, v)),
                },
            ],
            cur: Some(k),
        }),
{
    lemma_plain_scalar_text(v);
    lemma_open_shape_collapse(st, m0);
    let stc = pop_to(st, 0);
    let line = entry_line(k, v);
    let f = format_scalar_spec(v);
    // the line is already trimmed
    assert(!is_ws(line[0])) by {
        if k.len() > 0 {
            assert(line[0] == k[0]);
        } else {
            assert(line[0] == ':');
        }
    }
    assert(line.last() == f.last());
    assert(!is_ws(line.last()));
    lemma_trim_start_at(line, 0);
    assert(trim_start_spec(line) == line) by {
        assert(line.subrange(0, line.len() as int) =~= line);
    }
    lemma_trim_end_at(line, line.len() as int);
    assert(trim_spec(line) == line) by {
        assert(line.subrange(0, line.len() as int) =~= line);
    }
    assert(indent_of(line) == 0);
    assert(line[0] != '#') by {
        if k.len() > 0 {
            assert(line[0] == k[0]);
        } else {
            assert(line[0] == ':');
        }
    }
    // the first colon sits right after the key
    lemma_idx_of2_unique(line, ':', ':', k.len() as int);
    assert(idx_of2(line, ':', ':') == k.len());
    // the key side trims to the key
    assert(line.subrange(0, k.len() as int) =~= k);
    assert(trim_spec(k) == k) by {
        if k.len() > 0 {
            lemma_trim_start_at(k, 0);
            assert(k.subrange(0, k.len() as int) =~= k);
            lemma_trim_end_at(k, k.len() as int);
        } else {
            assert(trim_start_spec(k) == k);
            assert(trim_end_spec(k) == k);
        }
    }
    // the value side trims to the rendered scalar
    let vt_raw = line.subrange(k.len() as int + 1, line.len() as int);
    assert(vt_raw =~= seq![' '] + f);
    assert(is_ws(vt_raw[0]));
    assert(!is_ws(vt_raw[1]));
    lemma_trim_start_at(vt_raw, 1);
    assert(trim_start_spec(vt_raw) =~= f);
    assert(!is_ws(f.last()));
    lemma_trim_end_at(f, f.len() as int);
    assert(trim_spec(vt_raw) == f) by {
        assert(f.subrange(0, f.len() as int) =~= f);
    }
    // the scalar re-parses to the value it rendered
    assert(scalar_canonical(v));
    lemma_scalar_round_trip(v);
    // and the key line inserts it into the root mapping
    let target = step_key_line(stc, 0, k, f);
    assert(stc.stack.last() == stc.stack[0]);
    assert(step_line(st, line) == target);
    assert(target.stack =~= seq![
        FrameModel {
            ind: st.stack[0].ind,
            key: st.stack[0].key,
            scope: Scope::Entries(map_put(m0, k, v)),
        },
    ]);
}

/// The one line a key with an empty value renders as.
pub open spec fn open_list_line(k: Seq<char>) -> Seq<char> {
    k + seq![':']
}

/// Decoding a key line with an empty value, between top-level entries,
/// closes any open scope and opens a fresh list scope under that key.
proof fn lemma_open_list_step(st: StateModel, m0: Seq<(Seq<char>, Vs)>, k: Seq<char>)
    requires
        open_shape(st, m0),
        canonical_key(k),
    ensures
        step_line(st, open_list_line(k)) == (StateModel {
            stack: seq![
                FrameModel { ind: st.stack[0].ind, key: st.stack[0].key, scope: Scope::Entries(m0) },
                FrameModel { ind: 0, key: k, scope: Scope::Items(Seq::empty()) },
            ],
            cur: Some(k),
        }),
{
    lemma_open_shape_collapse(st, m0);
    let stc = pop_to(st, 0);
    let line = open_list_line(k);
    assert(!is_ws(line[0])) by {
        if k.len() > 0 {
            assert(line[0] == k[0]);
        } else {
            assert(line[0] == ':');
        }
    }
    assert(line.last() == ':');
    assert(!is_ws(line.last()));
    lemma_trim_start_at(line, 0);
    lemma_trim_end_at(line, line.len() as int);
    assert(trim_spec(line) == line) by {
        assert(line.subrange(0, line.len() as int) =~= line);
    }
    assert(indent_of(line) == 0);
    assert(line[0] != '#') by {
        if k.len() > 0 {
            assert(line[0] == k[0]);
        } else {
            assert(line[0] == ':');
        }
    }
    lemma_idx_of2_unique(line, ':', ':', k.len() as int);
    assert(line.subrange(0, k.len() as int) =~= k);
    assert(trim_spec(k) == k) by {
        if k.len() > 0 {
            lemma_trim_start_at(k, 0);
            assert(k.subrange(0, k.len() as int) =~= k);
            lemma_trim_end_at(k, k.len() as int);
        } else {
            assert(trim_start_spec(k) == k);
            assert(trim_end_spec(k) == k);
        }
    }
    let vt_raw = line.subrange(k.len() as int + 1, line.len() as int);
    assert(vt_raw =~= Seq::<char>::empty());
    assert(trim_spec(vt_raw).len() == 0);
    let target = step_key_line(stc, 0, k, trim_spec(vt_raw));
    assert(stc.stack.last() == stc.stack[0]);
    assert(step_line(st, line) == target);
    assert(target.stack =~= seq![
        FrameModel { ind: st.stack[0].ind, key: st.stack[0].key, scope: Scope::Entries(m0) },
        FrameModel { ind: 0, key: k, scope: Scope::Items(Seq::empty()) },
    ]);
}

/// The one line a list item renders as, two columns deep.
pub open spec fn item_line(v: Vs) -> Seq<char> {
    seq![' ', ' ', '-', ' '] + format_scalar_spec(v)
}

proof fn lemma_item_text_flat(v: Vs)
    requires
        plain_scalar(v),
    ensures
        item_text(v, 2) == item_line(v),
{
    assert(spaces(2) =~= seq![' ', ' ']) by {
        assert(spaces(2) == spaces(1) + seq![' ']);
        assert(spaces(1) == spaces(0) + seq![' ']);
        assert(spaces(0) == Seq::<char>::empty());
    }
    assert(item_text(v, 2) =~= item_line(v));
}

proof fn lemma_item_line_no_newline(v: Vs)
    requires
        plain_scalar(v),
    ensures
        forall|j: int| 0 <= j < item_line(v).len() ==> #[trigger] item_line(v)[j] != '\n',
{
    lemma_plain_scalar_text(v);
    let line = item_line(v);
    let f = format_scalar_spec(v);
    assert forall|j: int| 0 <= j < line.len() implies #[trigger] line[j] != '\n' by {
        if j >= 4 {
            assert(line[j] == f[j - 4]);
        }
    }
}

/// Decoding one item line, while a list scope opened at the top level is the
/// innermost scope, appends exactly that item to it.
proof fn lemma_item_line_step(st: StateModel, v: Vs)
    requires
        st.stack.len() == 2,
        st.stack[1].scope is Items,
        st.stack[1].ind < 2,
        plain_scalar(v),
    ensures
        step_line(st, item_line(v)) == (StateModel {
            stack: st.stack.update(
                1,
                FrameModel {
                    ind: st.stack[1].ind,
                    key: st.stack[1].key,
                    scope: Scope::Items(st.stack[1].scope->Items_0.push(v)),
                },
            ),
            cur: st.cur,
        }),
{
    lemma_plain_scalar_text(v);
    let line = item_line(v);
    let f = format_scalar_spec(v);
    assert(is_ws(line[0]) && is_ws(line[1]) && !is_ws(line[2]));
    lemma_trim_start_at(line, 2);
    let t = trim_start_spec(line);
    assert(t =~= seq!['-', ' '] + f);
    assert(line.last() == f.last());
    assert(!is_ws(t.last()));
    lemma_trim_end_at(t, t.len() as int);
    assert(trim_spec(line) == t) by {
        assert(t.subrange(0, t.len() as int) =~= t);
    }
    assert(t[0] == '-');
    assert(t[0] != '#');
    assert(indent_of(line) == 2);
    // nothing closes: the open list frame is shallower than the item
    assert(pop_to(st, 2) == st);
    // no colon anywhere on the line
    lemma_idx_of2_unique(t, ':', ':', t.len() as int);
    // the item text trims to the rendered scalar
    let vt_raw = t.subrange(1, t.len() as int);
    assert(vt_raw =~= seq![' '] + f);
    assert(is_ws(vt_raw[0]) && !is_ws(vt_raw[1]));
    lemma_trim_start_at(vt_raw, 1);
    assert(trim_start_spec(vt_raw) =~= f);
    lemma_trim_end_at(f, f.len() as int);
    assert(trim_spec(vt_raw) == f) by {
        assert(f.subrange(0, f.len() as int) =~= f);
    }
    assert(scalar_canonical(v));
    lemma_scalar_round_trip(v);
    assert(st.stack.last() == st.stack[1]);
}

/// Decoding the rendered items of a list, while the list's scope is the
/// innermost, appends exactly those items in order.
proof fn lemma_items_sim(items: Seq<Vs>, st: StateModel)
    requires
        items.len() > 0,
        forall|i: int| 0 <= i < items.len() ==> plain_scalar(#[trigger] items[i]),
        st.stack.len() == 2,
        st.stack[1].scope is Items,
        st.stack[1].ind == 0,
    ensures
        run_lines(split_lines(encode_items(items, 2)), st) == (StateModel {
            stack: st.stack.update(
                1,
                FrameModel {
                    ind: st.stack[1].ind,
                    key: st.stack[1].key,
                    scope: Scope::Items(st.stack[1].scope->Items_0 + items),
                },
            ),
            cur: st.cur,
        }),
    decreases items.len(),
{
    let e = items[0];
    lemma_item_text_flat(e);
    lemma_item_line_no_newline(e);
    lemma_item_line_step(st, e);
    let st1 = step_line(st, item_line(e));
    let l0 = st.stack[1].scope->Items_0;
    if items.len() == 1 {
        assert(encode_items(items, 2) == item_line(e));
        lemma_split_lines_single(item_line(e));
        let lines = seq![item_line(e)];
        assert(run_lines(lines, st) == st1) by {
            assert(lines.first() == item_line(e));
            assert(lines.drop_first() =~= Seq::<Seq<char>>::empty());
            assert(run_lines(Seq::<Seq<char>>::empty(), st1) == st1);
        }
        assert(l0.push(e) =~= l0 + items);
        assert(st1.stack =~= st.stack.update(
            1,
            FrameModel {
                ind: st.stack[1].ind,
                key: st.stack[1].key,
                scope: Scope::Items(l0 + items),
            },
        ));
    } else {
        let rest = items.drop_first();
        let rest_text = encode_items(rest, 2);
        assert(encode_items(items, 2) == item_line(e) + seq!['\n'] + rest_text);
        lemma_split_lines_concat(item_line(e), rest_text);
        let lines = seq![item_line(e)] + split_lines(rest_text);
        assert(run_lines(lines, st) == run_lines(split_lines(rest_text), st1)) by {
            assert(lines.first() == item_line(e));
            assert(lines.drop_first() =~= split_lines(rest_text));
            assert(run_lines(lines, st) == run_lines(lines.drop_first(), st1));
        }
        assert(forall|i: int| 0 <= i < rest.len() ==> plain_scalar(#[trigger] rest[i])) by {
            assert(forall|i: int| 0 <= i < rest.len() ==> rest[i] == items[i + 1]);
        }
        assert(st1.stack[1].scope->Items_0 == l0.push(e));
        lemma_items_sim(rest, st1);
        assert(l0.push(e) + rest =~= l0 + items);
        assert(run_lines(split_lines(rest_text), st1).stack =~= st.stack.update(
            1,
            FrameModel {
                ind: st.stack[1].ind,
                key: st.stack[1].key,
                scope: Scope::Items(l0 + items),
            },
        ));
    }
}

/// Inserting a fresh key appends the entry.
proof fn lemma_map_put_fresh(m: Seq<(Seq<char>, Vs)>, k: Seq<char>, v: Vs)
    requires
        forall|j: int| 0 <= j < m.len() ==> (#[trigger] m[j]).0 != k,
    ensures
        map_put(m, k, v) == m.push((k, v)),
    decreases m.len(),
{
    if m.len() == 0 {
        assert(map_put(m, k, v) =~= m.push((k, v)));
    } else {
        assert(forall|j: int|
            0 <= j < m.drop_first().len() ==> (#[trigger] m.drop_first()[j]).0 != k) by {
            assert(forall|j: int|
                0 <= j < m.drop_first().len() ==> m.drop_first()[j] == m[j + 1]);
        }
        lemma_map_put_fresh(m.drop_first(), k, v);
        assert(map_put(m, k, v) =~= m.push((k, v)));
    }
}

/// A value such a document can hold: a plain scalar, or a list of plain
/// scalars.
pub open spec fn plain_value(v: Vs) -> bool {
    match v {
        Vs::List(items) => forall|i: int|
            0 <= i < items.len() ==> plain_scalar(#[trigger] items[i]),
        _ => plain_scalar(v),
    }
}

/// A canonical document of one level: every entry a canonical key and a
/// plain value, keys pairwise distinct. This is the shape the decoder itself
/// produces from flat documents and their lists.
pub open spec fn canonical_document(entries: Seq<(Seq<char>, Vs)>) -> bool {
    &&& forall|i: int| 0 <= i < entries.len() ==> canonical_key((#[trigger] entries[i]).0)
    &&& forall|i: int| 0 <= i < entries.len() ==> plain_value((#[trigger] entries[i]).1)
    &&& forall|i: int, j: int| 0 <= i < j < entries.len() ==> entries[i].0 != entries[j].0
}

/// Decoding the rendered lines of one entry, between top-level entries,
/// inserts exactly that entry.
proof fn lemma_entry_chunk_sim(st: StateModel, m0: Seq<(Seq<char>, Vs)>, k: Seq<char>, v: Vs)
    requires
        open_shape(st, m0),
        canonical_key(k),
        plain_value(v),
    ensures
        open_shape(run_lines(split_lines(entry_text(k, v, 0)), st), map_put(m0, k, v)),
        run_lines(split_lines(entry_text(k, v, 0)), st).stack[0].ind == st.stack[0].ind,
        run_lines(split_lines(entry_text(k, v, 0)), st).stack[0].key == st.stack[0].key,
        run_lines(split_lines(entry_text(k, v, 0)), st).stack[0].scope is Entries,
        run_lines(split_lines(entry_text(k, v, 0)), st).stack.len() >= 1,
{
    match v {
        Vs::List(items) => {
            assert(is_composite(v));
            let items_text = encode_items(items, 2);
            assert(entry_text(k, v, 0) =~= open_list_line(k) + seq!['\n'] + items_text) by {
                assert(spaces(0) == Seq::<char>::empty());
            }
            assert(forall|j: int|
                0 <= j < open_list_line(k).len() ==> #[trigger] open_list_line(k)[j] != '\n') by {
                assert(forall|j: int|
                    0 <= j < k.len() ==> open_list_line(k)[j] == k[j]);
                assert(open_list_line(k)[k.len() as int] == ':');
            }
            lemma_split_lines_concat(open_list_line(k), items_text);
            lemma_open_list_step(st, m0, k);
            let st1 = step_line(st, open_list_line(k));
            let lines = seq![open_list_line(k)] + split_lines(items_text);
            assert(run_lines(lines, st) == run_lines(split_lines(items_text), st1)) by {
                assert(lines.first() == open_list_line(k));
                assert(lines.drop_first() =~= split_lines(items_text));
                assert(run_lines(lines, st) == run_lines(lines.drop_first(), st1));
            }
            if items.len() == 0 {
                assert(items_text == Seq::<char>::empty());
                lemma_split_lines_single(Seq::<char>::empty());
                assert(split_lines(items_text) =~= seq![Seq::<char>::empty()]);
                assert(skippable_line(Seq::<char>::empty())) by {
                    assert(trim_spec(Seq::<char>::empty()).len() == 0);
                }
                assert(step_line(st1, Seq::<char>::empty()) == st1);
                let sl = seq![Seq::<char>::empty()];
                assert(run_lines(sl, st1) == st1) by {
                    assert(sl.first() == Seq::<char>::empty());
                    assert(sl.drop_first() =~= Seq::<Seq<char>>::empty());
                    assert(run_lines(Seq::<Seq<char>>::empty(), st1) == st1);
                }
                assert(st1.stack[1].scope->Items_0 =~= items);
                assert(open_shape(st1, map_put(m0, k, v)));
            } else {
                lemma_items_sim(items, st1);
                let st2 = run_lines(split_lines(items_text), st1);
                assert(st2.stack[1].scope == Scope::Items(Seq::<Vs>::empty() + items));
                assert(Seq::<Vs>::empty() + items =~= items);
                assert(st2.stack[0] == st1.stack[0]);
                assert(open_shape(st2, map_put(m0, k, v)));
            }
        },
        _ => {
            assert(!is_composite(v));
            lemma_entry_text_flat(k, v);
            lemma_entry_line_no_newline(k, v);
            lemma_split_lines_single(entry_line(k, v));
            lemma_entry_line_step(st, m0, k, v);
            let st1 = step_line(st, entry_line(k, v));
            let lines = seq![entry_line(k, v)];
            assert(run_lines(lines, st) == st1) by {
                assert(lines.first() == entry_line(k, v));
                assert(lines.drop_first() =~= Seq::<Seq<char>>::empty());
                assert(run_lines(Seq::<Seq<char>>::empty(), st1) == st1);
            }
            assert(open_shape(st1, map_put(m0, k, v)));
        },
    }
}

proof fn lemma_document_sim(entries: Seq<(Seq<char>, Vs)>, st: StateModel, m0: Seq<(Seq<char>, Vs)>)
    requires
        entries.len() > 0,
        canonical_document(entries),
        open_shape(st, m0),
        forall|i: int, j: int|
            0 <= i < m0.len() && 0 <= j < entries.len() ==> (#[trigger] m0[i]).0 != (
            #[trigger] entries[j]).0,
    ensures
        open_shape(run_lines(split_lines(encode_entries(entries, 0)), st), m0 + entries),
    decreases entries.len(),
{
    let e = entries[0];
    assert(forall|i: int| 0 <= i < m0.len() ==> (#[trigger] m0[i]).0 != e.0) by {
        assert(entries[0] == e);
    }
    lemma_map_put_fresh(m0, e.0, e.1);
    lemma_entry_chunk_sim(st, m0, e.0, e.1);
    assert(e == (e.0, e.1));
    let chunk = entry_text(e.0, e.1, 0);
    let st1 = run_lines(split_lines(chunk), st);
    assert(open_shape(st1, m0.push(e)));
    if entries.len() == 1 {
        assert(encode_entries(entries, 0) == chunk);
        assert(m0.push(e) =~= m0 + entries);
    } else {
        let rest = entries.drop_first();
        let rest_text = encode_entries(rest, 0);
        assert(encode_entries(entries, 0) == chunk + seq!['\n'] + rest_text);
        lemma_split_lines_join(chunk, rest_text);
        let lines = split_lines(chunk) + split_lines(rest_text);
        lemma_run_append(split_lines(chunk), split_lines(rest_text), st);
        assert(run_lines(lines, st) == run_lines(split_lines(rest_text), st1));
        assert(canonical_document(rest)) by {
            assert(forall|i: int| 0 <= i < rest.len() ==> rest[i] == entries[i + 1]);
        }
        assert(forall|i: int, j: int|
            0 <= i < m0.push(e).len() && 0 <= j < rest.len() ==> (#[trigger] m0.push(e)[i]).0 != (
            #[trigger] rest[j]).0) by {
            assert(forall|j: int| 0 <= j < rest.len() ==> rest[j] == entries[j + 1]);
        }
        lemma_document_sim(rest, st1, m0.push(e));
        assert(m0.push(e) + rest =~= m0 + entries);
    }
}

/// Round trip on canonical documents of one level: a mapping of plain
/// scalars and lists of plain scalars under distinct canonical keys is
/// restored exactly — keys, order, nesting and scalar values included — when
/// its rendering is split into lines and decoded again.
pub proof fn lemma_document_round_trip(entries: Seq<(Seq<char>, Vs)>)
    requires
        canonical_document(entries),
    ensures
        parse_lines_spec(split_lines(encode_spec(Vs::Mapping(entries), 0))) == Vs::Mapping(
            entries,
        ),
{
    if entries.len() == 0 {
        assert(encode_spec(Vs::Mapping(entries), 0) == Seq::<char>::empty());
        lemma_split_lines_single(Seq::<char>::empty());
        let lines = seq![Seq::<char>::empty()];
        assert(forall|i: int| 0 <= i < lines.len() ==> skippable_line(#[trigger] lines[i])) by {
            assert(trim_spec(Seq::<char>::empty()).len() == 0);
        }
        lemma_decode_skippable_only(lines);
        assert(entries =~= Seq::<(Seq<char>, Vs)>::empty());
    } else {
        let st = init_state();
        assert(st.stack[0].scope == Scope::Entries(Seq::<(Seq<char>, Vs)>::empty()));
        assert(open_shape(st, Seq::<(Seq<char>, Vs)>::empty()));
        lemma_document_sim(entries, st, Seq::<(Seq<char>, Vs)>::empty());
        let fin_st = run_lines(split_lines(encode_entries(entries, 0)), st);
        assert(Seq::<(Seq<char>, Vs)>::empty() + entries =~= entries);
        lemma_open_shape_collapse(fin_st, entries);
        assert(root_value(finish(fin_st)) == Vs::Mapping(entries));
    }
}

} // verus!
