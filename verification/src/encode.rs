//! The encoder: renders a value tree as canonical text. Mapping entries are
//! one `key:` line each, scalars inline after a space, nested composites on
//! the following lines indented two columns deeper; list items are `- `
//! lines. Sibling lines are joined with newlines and there is no trailing
//! newline.

use vstd::prelude::*;
use crate::scalar::{format_scalar_spec, format_value};
use crate::text::chars_to_string;
use crate::value::{Value, Vs, dv_seq, dv_entries, lemma_dv_seq_index, lemma_dv_entries_index};

verus! {

/// `n` spaces.
pub open spec fn spaces(n: nat) -> Seq<char>
    decreases n,
{
    if n == 0 {
        Seq::empty()
    } else {
        spaces((n - 1) as nat) + seq![' ']
    }
}

pub open spec fn is_composite(v: Vs) -> bool {
    v is List || v is Mapping
}

/// What a value renders as at the given indent. A composite renders as its
/// joined lines; a scalar renders inline and ignores the indent.
pub open spec fn encode_spec(v: Vs, ind: nat) -> Seq<char>
    decreases v, 0nat,
{
    match v {
        Vs::Mapping(entries) => encode_entries(entries, ind),
        Vs::List(items) => encode_items(items, ind),
        _ => format_scalar_spec(v),
    }
}

/// One mapping entry: the indented key, a colon, then the inline scalar
/// after a space, or a newline and the nested composite two columns deeper.
pub open spec fn entry_text(k: Seq<char>, v: Vs, ind: nat) -> Seq<char>
    decreases v, 1nat,
{
    spaces(ind) + k + seq![':'] + (if is_composite(v) {
        seq!['\n'] + encode_spec(v, (ind + 2) as nat)
    } else {
        seq![' '] + format_scalar_spec(v)
    })
}

/// The entries of a mapping, one per line, joined with newlines.
pub open spec fn encode_entries(entries: Seq<(Seq<char>, Vs)>, ind: nat) -> Seq<char>
    decreases entries, 2nat,
{
    if entries.len() == 0 {
        Seq::empty()
    } else if entries.len() == 1 {
        entry_text(entries[0].0, entries[0].1, ind)
    } else {
        entry_text(entries[0].0, entries[0].1, ind) + seq!['\n'] + encode_entries(
            entries.drop_first(),
            ind,
        )
    }
}

/// One list item: the indented dash, then the item two columns deeper.
pub open spec fn item_text(v: Vs, ind: nat) -> Seq<char>
    decreases v, 1nat,
{
    spaces(ind) + seq!['-', ' '] + encode_spec(v, (ind + 2) as nat)
}

/// The items of a list, one per line, joined with newlines.
pub open spec fn encode_items(items: Seq<Vs>, ind: nat) -> Seq<char>
    decreases items, 2nat,
{
    if items.len() == 0 {
        Seq::empty()
    } else if items.len() == 1 {
        item_text(items[0], ind)
    } else {
        item_text(items[0], ind) + seq!['\n'] + encode_items(items.drop_first(), ind)
    }
}

pub proof fn lemma_encode_entries_snoc(entries: Seq<(Seq<char>, Vs)>, e: (Seq<char>, Vs), ind: nat)
    ensures
        encode_entries(entries.push(e), ind) == if entries.len() == 0 {
            entry_text(e.0, e.1, ind)
        } else {
            encode_entries(entries, ind) + seq!['\n'] + entry_text(e.0, e.1, ind)
        },
    decreases entries.len(),
{
    let p = entries.push(e);
    if entries.len() == 0 {
        assert(p.len() == 1);
        assert(p[0] == e);
    } else {
        assert(p[0] == entries[0]);
        assert(p.drop_first() =~= entries.drop_first().push(e));
        lemma_encode_entries_snoc(entries.drop_first(), e, ind);
        if entries.len() == 1 {
            assert(entries.drop_first().len() == 0);
        }
    }
}

pub proof fn lemma_encode_items_snoc(items: Seq<Vs>, e: Vs, ind: nat)
    ensures
        encode_items(items.push(e), ind) == if items.len() == 0 {
            item_text(e, ind)
        } else {
            encode_items(items, ind) + seq!['\n'] + item_text(e, ind)
        },
    decreases items.len(),
{
    let p = items.push(e);
    if items.len() == 0 {
        assert(p.len() == 1);
        assert(p[0] == e);
    } else {
        assert(p[0] == items[0]);
        assert(p.drop_first() =~= items.drop_first().push(e));
        lemma_encode_items_snoc(items.drop_first(), e, ind);
        if items.len() == 1 {
            assert(items.drop_first().len() == 0);
        }
    }
}

// ---------------------------------------------------------------------------
// Executable rendering
// ---------------------------------------------------------------------------

/// Appends every character of `piece` to `out`.
fn append_chars(out: &mut Vec<char>, piece: &Vec<char>)
    ensures
        final(out)@ == old(out)@ + piece@,
{
    let n = piece.len();
    let mut i: usize = 0;
    while i < n
        invariant
            i <= n,
            n == piece@.len(),
            out@ == old(out)@ + piece@.subrange(0, i as int),
        decreases n - i,
    {
        out.push(piece[i]);
        i = i + 1;
        proof {
            assert(out@ =~= old(out)@ + piece@.subrange(0, i as int));
        }
    }
    proof {
        assert(out@ =~= old(out)@ + piece@);
    }
}

/// Appends every character of the string `piece` to `out`.
fn append_str(out: &mut Vec<char>, piece: &str)
    ensures
        final(out)@ == old(out)@ + piece@,
{
    let n = piece.unicode_len();
    let mut i: usize = 0;
    while i < n
        invariant
            i <= n,
            n == piece@.len(),
            out@ == old(out)@ + piece@.subrange(0, i as int),
        decreases n - i,
    {
        out.push(piece.get_char(i));
        i = i + 1;
        proof {
            assert(out@ =~= old(out)@ + piece@.subrange(0, i as int));
        }
    }
    proof {
        assert(out@ =~= old(out)@ + piece@);
    }
}

/// A copy of `pad` two spaces longer.
fn extend_pad(pad: &Vec<char>) -> (r: Vec<char>)
    requires
        pad@ == spaces(pad@.len() as nat),
    ensures
        r@ == spaces((pad@.len() + 2) as nat),
        r@.len() == pad@.len() + 2,
{
    let mut r: Vec<char> = Vec::new();
    append_chars(&mut r, pad);
    r.push(' ');
    r.push(' ');
    proof {
        assert(r@ =~= spaces((pad@.len() + 2) as nat)) by {
            assert(spaces((pad@.len() + 2) as nat) == spaces((pad@.len() + 1) as nat) + seq![' ']);
            assert(spaces((pad@.len() + 1) as nat) == spaces(pad@.len() as nat) + seq![' ']);
        }
    }
    r
}

/// Appends the rendering of `v` at the indent `pad` stands for.
fn encode_value(v: &Value, pad: &Vec<char>, out: &mut Vec<char>)
    requires
        pad@ == spaces(pad@.len() as nat),
    ensures
        final(out)@ == old(out)@ + encode_spec(v.dv(), pad@.len() as nat),
    decreases *v,
{
    let ghost ind = pad@.len() as nat;
    match v {
        Value::Mapping(entries) => {
            proof {
                lemma_dv_entries_index(entries@);
            }
            let n = entries.len();
            let mut i: usize = 0;
            while i < n
                invariant
                    i <= n,
                    n == entries@.len(),
                    pad@ == spaces(pad@.len() as nat),
                    ind == pad@.len() as nat,
                    dv_entries(entries@).len() == n,
                    forall|j: int| 0 <= j < n ==> dv_entries(entries@)[j] == (
                        entries@[j].0@,
                        entries@[j].1.dv(),
                    ),
                    out@ == old(out)@ + encode_entries(dv_entries(entries@).take(i as int), ind),
                    v == Value::Mapping(*entries),
                decreases n - i,
            {
                let ghost prefix = encode_entries(dv_entries(entries@).take(i as int), ind);
                if i > 0 {
                    out.push('\n');
                }
                append_chars(out, pad);
                append_str(out, entries[i].0.as_str());
                out.push(':');
                let item = &entries[i].1;
                if matches!(item, Value::List(_) | Value::Mapping(_)) {
                    out.push('\n');
                    let pad2 = extend_pad(pad);
                    proof {
                        let ghost ev = *entries;
                        assert(v->Mapping_0 == ev);
                        assert(decreases_to!(*v => v->Mapping_0));
                        assert(decreases_to!(ev => ev@));
                        assert(decreases_to!(ev@ => ev@[i as int]));
                        assert(decreases_to!(ev@[i as int] => ev@[i as int].1));
                        assert(decreases_to!(*v => *item));
                    }
                    encode_value(item, &pad2, out);
                } else {
                    out.push(' ');
                    let f = format_value(item);
                    append_str(out, f.as_str());
                }
                proof {
                    let dves = dv_entries(entries@);
                    let e = dves[i as int];
                    assert(out@ =~= old(out)@ + prefix + (if i > 0 {
                        seq!['\n']
                    } else {
                        Seq::<char>::empty()
                    }) + entry_text(e.0, e.1, ind));
                    lemma_encode_entries_snoc(dves.take(i as int), e, ind);
                    assert(dves.take(i + 1) =~= dves.take(i as int).push(e));
                    assert(out@ =~= old(out)@ + encode_entries(dves.take(i + 1), ind));
                }
                i = i + 1;
            }
            proof {
                assert(dv_entries(entries@).take(n as int) =~= dv_entries(entries@));
            }
        },
        Value::List(items) => {
            proof {
                lemma_dv_seq_index(items@);
            }
            let n = items.len();
            let mut i: usize = 0;
            while i < n
                invariant
                    i <= n,
                    n == items@.len(),
                    pad@ == spaces(pad@.len() as nat),
                    ind == pad@.len() as nat,
                    dv_seq(items@).len() == n,
                    forall|j: int| 0 <= j < n ==> dv_seq(items@)[j] == items@[j].dv(),
                    out@ == old(out)@ + encode_items(dv_seq(items@).take(i as int), ind),
                    v == Value::List(*items),
                decreases n - i,
            {
                let ghost prefix = encode_items(dv_seq(items@).take(i as int), ind);
                if i > 0 {
                    out.push('\n');
                }
                append_chars(out, pad);
                out.push('-');
                out.push(' ');
                let item = &items[i];
                let pad2 = extend_pad(pad);
                proof {
                    let ghost iv = *items;
                    assert(v->List_0 == iv);
                    assert(decreases_to!(*v => v->List_0));
                    assert(decreases_to!(iv => iv@));
                    assert(decreases_to!(iv@ => iv@[i as int]));
                    assert(decreases_to!(*v => *item));
                }
                encode_value(item, &pad2, out);
                proof {
                    let dvs = dv_seq(items@);
                    let e = dvs[i as int];
                    assert(out@ =~= old(out)@ + prefix + (if i > 0 {
                        seq!['\n']
                    } else {
                        Seq::<char>::empty()
                    }) + item_text(e, ind));
                    lemma_encode_items_snoc(dvs.take(i as int), e, ind);
                    assert(dvs.take(i + 1) =~= dvs.take(i as int).push(e));
                    assert(out@ =~= old(out)@ + encode_items(dvs.take(i + 1), ind));
                }
                i = i + 1;
            }
            proof {
                assert(dv_seq(items@).take(n as int) =~= dv_seq(items@));
            }
        },
        _ => {
            let f = format_value(v);
            append_str(out, f.as_str());
        },
    }
}

/// Renders a value as canonical text, starting at the given indent.
pub fn to_bellande_string(data: &Value, indent: usize) -> (s: String)
    ensures
        s@ == encode_spec(data.dv(), indent as nat),
{
    let mut pad: Vec<char> = Vec::new();
    let mut i: usize = 0;
    while i < indent
        invariant
            i <= indent,
            pad@.len() == i,
            pad@ == spaces(i as nat),
        decreases indent - i,
    {
        pad.push(' ');
        i = i + 1;
    }
    let mut out: Vec<char> = Vec::new();
    encode_value(data, &pad, &mut out);
    proof {
        assert(out@ =~= encode_spec(data.dv(), indent as nat));
    }
    chars_to_string(&out)
}

} // verus!
