//! The decoder: a line-oriented, indentation-stack-driven parser. Each line
//! either closes scopes (its indent is not deeper than the open frames),
//! inserts a key into the innermost mapping, opens a nested scope (a key
//! with an empty value), or appends an item to the innermost list.
//!
//! The decoder never rejects a document: blank lines, comment lines and
//! lines matching no pattern are skipped, and malformed scalars fall back to
//! strings.

use vstd::prelude::*;
use crate::text::{str_to_chars, chars_to_string, char_is_ws, is_ws, trim_spec, trim_start_spec, trim_end_spec, indent_of, lemma_trim_start_at, lemma_trim_end_at};
use crate::scalar::{parse_scalar_spec, parse_value_chars, idx_of2, lemma_idx_of2, find2, subvec};
use crate::value::{Value, Vs, dv_seq, dv_entries, lemma_dv_seq_index, lemma_dv_entries_index};

verus! {

// ---------------------------------------------------------------------------
// The decoder's state, mathematically
// ---------------------------------------------------------------------------

/// An open scope: a list collecting items, or a mapping collecting entries.
#[verifier::ext_equal]
pub enum Scope {
    Items(Seq<Vs>),
    Entries(Seq<(Seq<char>, Vs)>),
}

/// An open frame: the indent of the line that opened it, the key under which
/// its scope will be stored in the parent, and the scope itself.
#[verifier::ext_equal]
pub struct FrameModel {
    pub ind: int,
    pub key: Seq<char>,
    pub scope: Scope,
}

/// The decoder's state: the stack of open frames (the root mapping at the
/// bottom) and the most recently seen key.
#[verifier::ext_equal]
pub struct StateModel {
    pub stack: Seq<FrameModel>,
    pub cur: Option<Seq<char>>,
}

pub open spec fn init_state() -> StateModel {
    StateModel {
        stack: seq![
            FrameModel { ind: 0, key: Seq::empty(), scope: Scope::Entries(Seq::empty()) },
        ],
        cur: None,
    }
}

/// Insertion into an insertion-ordered mapping: an existing key keeps its
/// position and takes the new value, a new key goes to the end.
pub open spec fn map_put(m: Seq<(Seq<char>, Vs)>, k: Seq<char>, v: Vs) -> Seq<(Seq<char>, Vs)>
    decreases m.len(),
{
    if m.len() == 0 {
        seq![(k, v)]
    } else if m[0].0 == k {
        seq![(k, v)] + m.drop_first()
    } else {
        seq![m[0]] + map_put(m.drop_first(), k, v)
    }
}

/// The value a finished scope closes into.
pub open spec fn close_scope(sc: Scope) -> Vs {
    match sc {
        Scope::Items(l) => Vs::List(l),
        Scope::Entries(m) => Vs::Mapping(m),
    }
}

/// Closes the top frame: its scope is stored in the parent mapping under the
/// frame's key. (The parent is always a mapping; a list parent would drop
/// the frame.)
pub open spec fn pop_one(st: StateModel) -> StateModel {
    if st.stack.len() < 2 {
        st
    } else {
        let f = st.stack.last();
        let p = st.stack[st.stack.len() - 2];
        let p2 = match p.scope {
            Scope::Entries(m) => FrameModel {
                ind: p.ind,
                key: p.key,
                scope: Scope::Entries(map_put(m, f.key, close_scope(f.scope))),
            },
            Scope::Items(_) => p,
        };
        StateModel { stack: st.stack.take(st.stack.len() - 2).push(p2), cur: st.cur }
    }
}

/// Closes every frame whose indent is not shallower than the current line's.
pub open spec fn pop_to(st: StateModel, ind: int) -> StateModel
    decreases st.stack.len(),
{
    if st.stack.len() >= 2 && st.stack.last().ind >= ind {
        pop_to(pop_one(st), ind)
    } else {
        st
    }
}

/// A key line: the most recent key becomes `k`; a non-empty value text
/// inserts the parsed scalar into the innermost mapping; an empty value text
/// opens a nested scope. A key line reaching a freshly opened (still empty)
/// list scope turns that scope into a mapping; one reaching a non-empty list
/// scope is dropped.
pub open spec fn step_key_line(st: StateModel, ind: int, k: Seq<char>, vt: Seq<char>) -> StateModel {
    let n = st.stack.len();
    let top = st.stack.last();
    match top.scope {
        Scope::Entries(m) => {
            if vt.len() > 0 {
                let top2 = FrameModel {
                    ind: top.ind,
                    key: top.key,
                    scope: Scope::Entries(map_put(m, k, parse_scalar_spec(vt))),
                };
                StateModel { stack: st.stack.update(n - 1, top2), cur: Some(k) }
            } else {
                StateModel {
                    stack: st.stack.push(
                        FrameModel { ind: ind, key: k, scope: Scope::Items(Seq::empty()) },
                    ),
                    cur: Some(k),
                }
            }
        },
        Scope::Items(l) => {
            if l.len() == 0 {
                if vt.len() > 0 {
                    let top2 = FrameModel {
                        ind: top.ind,
                        key: top.key,
                        scope: Scope::Entries(seq![(k, parse_scalar_spec(vt))]),
                    };
                    StateModel { stack: st.stack.update(n - 1, top2), cur: Some(k) }
                } else {
                    let top2 = FrameModel {
                        ind: top.ind,
                        key: top.key,
                        scope: Scope::Entries(Seq::empty()),
                    };
                    StateModel {
                        stack: st.stack.update(n - 1, top2).push(
                            FrameModel { ind: ind, key: k, scope: Scope::Items(Seq::empty()) },
                        ),
                        cur: Some(k),
                    }
                }
            } else {
                StateModel { stack: st.stack, cur: Some(k) }
            }
        },
    }
}

/// An item line: appended to the innermost list when one is open; otherwise
/// a fresh list under the most recent key is opened with this item, and the
/// line is dropped when no key has been seen yet.
pub open spec fn step_item_line(st: StateModel, ind: int, vt: Seq<char>) -> StateModel {
    let n = st.stack.len();
    let top = st.stack.last();
    let sc = parse_scalar_spec(vt);
    match top.scope {
        Scope::Items(l) => {
            let top2 = FrameModel { ind: top.ind, key: top.key, scope: Scope::Items(l.push(sc)) };
            StateModel { stack: st.stack.update(n - 1, top2), cur: st.cur }
        },
        Scope::Entries(_) => {
            match st.cur {
                Some(k) => StateModel {
                    stack: st.stack.push(
                        FrameModel { ind: ind, key: k, scope: Scope::Items(seq![sc]) },
                    ),
                    cur: st.cur,
                },
                None => st,
            }
        },
    }
}

/// A blank or comment line is skipped. Any other line first closes scopes by
/// indent; then a line holding a colon is a key line, a line starting with
/// `-` is an item line, and anything else is ignored.
pub open spec fn step_line(st: StateModel, line: Seq<char>) -> StateModel {
    let t = trim_spec(line);
    if t.len() == 0 || t[0] == '#' {
        st
    } else {
        let ind = indent_of(line) as int;
        let st1 = pop_to(st, ind);
        let ci = idx_of2(t, ':', ':');
        if ci < t.len() {
            step_key_line(
                st1,
                ind,
                trim_spec(t.subrange(0, ci)),
                trim_spec(t.subrange(ci + 1, t.len() as int)),
            )
        } else if t[0] == '-' {
            step_item_line(st1, ind, trim_spec(t.subrange(1, t.len() as int)))
        } else {
            st1
        }
    }
}

pub open spec fn run_lines(lines: Seq<Seq<char>>, st: StateModel) -> StateModel
    decreases lines.len(),
{
    if lines.len() == 0 {
        st
    } else {
        run_lines(lines.drop_first(), step_line(st, lines.first()))
    }
}

/// Closes every frame still open at the end of the document.
pub open spec fn finish(st: StateModel) -> StateModel
    decreases st.stack.len(),
{
    if st.stack.len() >= 2 {
        finish(pop_one(st))
    } else {
        st
    }
}

/// The root mapping of a final state.
pub open spec fn root_value(st: StateModel) -> Vs {
    if st.stack.len() >= 1 {
        match st.stack[0].scope {
            Scope::Entries(m) => Vs::Mapping(m),
            Scope::Items(_) => Vs::Mapping(Seq::empty()),
        }
    } else {
        Vs::Mapping(Seq::empty())
    }
}

/// What decoding a document (given as its lines) yields.
pub open spec fn parse_lines_spec(lines: Seq<Seq<char>>) -> Vs {
    root_value(finish(run_lines(lines, init_state())))
}

// ---------------------------------------------------------------------------
// The decoder's state, executably
// ---------------------------------------------------------------------------

/// An open scope held by the executable decoder.
pub enum FrameScope {
    Items(Vec<Value>),
    Entries(Vec<(String, Value)>),
}

/// An open frame held by the executable decoder.
pub struct Frame {
    pub indent: usize,
    pub key: String,
    pub scope: FrameScope,
}

impl FrameScope {
    pub open spec fn dv(self) -> Scope {
        match self {
            FrameScope::Items(l) => Scope::Items(dv_seq(l@)),
            FrameScope::Entries(m) => Scope::Entries(dv_entries(m@)),
        }
    }
}

impl Frame {
    pub open spec fn dv(self) -> FrameModel {
        FrameModel { ind: self.indent as int, key: self.key@, scope: self.scope.dv() }
    }
}

pub open spec fn state_dv(stack: Seq<Frame>, cur: Option<String>) -> StateModel {
    StateModel {
        stack: stack.map_values(|f: Frame| f.dv()),
        cur: match cur {
            Some(s) => Some(s@),
            None => None,
        },
    }
}

// ---------------------------------------------------------------------------
// Executable pieces
// ---------------------------------------------------------------------------

/// Trims a line and measures its indent.
fn trim_and_indent(t: &Vec<char>) -> (r: (Vec<char>, usize))
    ensures
        r.0@ == trim_spec(t@),
        r.1 as nat == indent_of(t@),
{
    let n = t.len();
    let mut i: usize = 0;
    while i < n && char_is_ws(t[i])
        invariant
            i <= n,
            n == t@.len(),
            forall|k: int| 0 <= k < i ==> is_ws(t@[k]),
        decreases n - i,
    {
        i = i + 1;
    }
    proof {
        lemma_trim_start_at(t@, i as int);
    }
    if i == n {
        let r: Vec<char> = Vec::new();
        proof {
            assert(trim_start_spec(t@) =~= Seq::<char>::empty());
            assert(trim_spec(t@) =~= Seq::<char>::empty());
        }
        return (r, i);
    }
    let mut j: usize = n;
    while j > i && char_is_ws(t[j - 1])
        invariant
            i <= j <= n,
            n == t@.len(),
            forall|k: int| j <= k < n ==> is_ws(t@[k]),
        decreases j,
    {
        j = j - 1;
    }
    let r = subvec(t, i, j);
    proof {
        let s1 = trim_start_spec(t@);
        assert(s1 == t@.subrange(i as int, n as int));
        assert(!is_ws(t@[j - 1]));
        assert(forall|k: int| j - i <= k < s1.len() ==> is_ws(#[trigger] s1[k])) by {
            assert(forall|k: int| 0 <= k < s1.len() ==> s1[k] == t@[k + i]);
        }
        assert(j - i == 0 || !is_ws(s1[j - i - 1]));
        lemma_trim_end_at(s1, j - i);
        assert(s1.subrange(0, j - i) =~= t@.subrange(i as int, j as int));
    }
    (r, i)
}

/// Inserts into an insertion-ordered mapping: an existing key keeps its
/// position and takes the new value, a new key goes to the end.
fn map_put_exec(m: Vec<(String, Value)>, k: String, v: Value) -> (r: Vec<(String, Value)>)
    ensures
        dv_entries(r@) == map_put(dv_entries(m@), k@, v.dv()),
    decreases m@.len(),
{
    let ghost m0 = m@;
    let mut mm = m;
    proof {
        lemma_dv_entries_index(m0);
    }
    if mm.len() == 0 {
        mm.push((k, v));
        proof {
            lemma_dv_entries_index(mm@);
            assert(dv_entries(mm@) =~= map_put(dv_entries(m0), k@, v.dv()));
        }
        return mm;
    }
    if mm[0].0 == k {
        let _replaced = mm.remove(0);
        mm.insert(0, (k, v));
        proof {
            lemma_dv_entries_index(mm@);
            lemma_dv_entries_index(m0.drop_first());
            assert(mm@.drop_first() =~= m0.drop_first());
            assert(dv_entries(m0.drop_first()) =~= dv_entries(m0).drop_first());
            assert(forall|i: int| 1 <= i < mm@.len() ==> mm@[i] == mm@.drop_first()[i - 1]);
            assert(dv_entries(mm@) =~= seq![(k@, v.dv())] + dv_entries(m0).drop_first());
        }
        return mm;
    }
    let first = mm.remove(0);
    proof {
        assert(mm@ =~= m0.drop_first());
    }
    let rest = map_put_exec(mm, k, v);
    let ghost rest0 = rest@;
    let mut out = rest;
    out.insert(0, first);
    proof {
        lemma_dv_entries_index(out@);
        lemma_dv_entries_index(out@.drop_first());
        lemma_dv_entries_index(m0.drop_first());
        let dm = dv_entries(m0);
        assert(dv_entries(m0.drop_first()) =~= dm.drop_first());
        assert(out@.drop_first() =~= rest0);
        assert(dv_entries(out@.drop_first()) == map_put(dm.drop_first(), k@, v.dv()));
        assert(dv_entries(out@) =~= seq![dm[0]] + map_put(dm.drop_first(), k@, v.dv())) by {
            assert(forall|i: int| 1 <= i < out@.len() ==> out@[i] == out@.drop_first()[i - 1]);
        }
        assert(dm[0].0 != k@);
    }
    out
}

/// The value a finished frame closes into.
fn close_frame_scope(sc: FrameScope) -> (v: Value)
    ensures
        v.dv() == close_scope(sc.dv()),
{
    match sc {
        FrameScope::Items(l) => Value::List(l),
        FrameScope::Entries(m) => Value::Mapping(m),
    }
}

/// Closes the top frame into its parent.
fn pop_one_exec(stack: &mut Vec<Frame>, cur: &Ghost<Option<String>>)
    requires
        old(stack)@.len() >= 2,
    ensures
        final(stack)@.len() == old(stack)@.len() - 1,
        state_dv(final(stack)@, cur@@) == pop_one(state_dv(old(stack)@, cur@@)),
{
    let f = stack.pop().unwrap();
    let p = stack.pop().unwrap();
    let p2 = match p.scope {
        FrameScope::Entries(m) => {
            let closed = close_frame_scope(f.scope);
            let m2 = map_put_exec(m, f.key, closed);
            Frame { indent: p.indent, key: p.key, scope: FrameScope::Entries(m2) }
        },
        FrameScope::Items(l) => Frame { indent: p.indent, key: p.key, scope: FrameScope::Items(l) },
    };
    stack.push(p2);
    proof {
        let pre = state_dv(old(stack)@, cur@@);
        let post = state_dv(stack@, cur@@);
        assert(post.stack =~= pre.stack.take(pre.stack.len() - 2).push(p2.dv()));
        assert(post =~= pop_one(pre));
    }
}

// ---------------------------------------------------------------------------
// The decoder
// ---------------------------------------------------------------------------

/// Processes one line of the document.
fn process_line(stack: &mut Vec<Frame>, cur: &mut Option<String>, line: &String)
    requires
        old(stack)@.len() >= 1,
    ensures
        final(stack)@.len() >= 1,
        state_dv(final(stack)@, *final(cur)) == step_line(state_dv(old(stack)@, *old(cur)), line@),
{
    let chars = str_to_chars(line.as_str());
    let (t, ind) = trim_and_indent(&chars);
    if t.len() == 0 || t[0] == '#' {
        return ;
    }
    // close scopes whose indent is not shallower
    let ghost st0 = state_dv(stack@, *cur);
    while stack.len() > 1 && stack[stack.len() - 1].indent >= ind
        invariant
            stack@.len() >= 1,
            pop_to(state_dv(stack@, *cur), ind as int) == pop_to(st0, ind as int),
        decreases stack@.len(),
    {
        let ghost before = state_dv(stack@, *cur);
        proof {
            assert(before.stack.len() == stack@.len());
            assert(before.stack.last() == stack@.last().dv());
        }
        pop_one_exec(stack, &Ghost(*cur));
    }
    let ghost st1 = state_dv(stack@, *cur);
    proof {
        assert(stack@.len() > 1 ==> state_dv(stack@, *cur).stack.last().ind < ind as int) by {
            if stack@.len() > 1 {
                assert(state_dv(stack@, *cur).stack.last() == stack@.last().dv());
            }
        }
        assert(pop_to(st1, ind as int) == st1);
        assert(st1 == pop_to(st0, ind as int));
    }
    let ci = find2(&t, ':', ':');
    proof {
        lemma_idx_of2(t@, ':', ':');
    }
    if ci < t.len() {
        // a key line
        let (kt, _ki) = trim_and_indent(&subvec(&t, 0, ci));
        let (vt, _vi) = trim_and_indent(&subvec(&t, ci + 1, t.len()));
        let key = chars_to_string(&kt);
        *cur = Some(key.clone());
        let top = stack.pop().unwrap();
        match top.scope {
            FrameScope::Entries(m) => {
                if vt.len() > 0 {
                    let sc = parse_value_chars(&vt);
                    let m2 = map_put_exec(m, key, sc);
                    stack.push(Frame { indent: top.indent, key: top.key, scope: FrameScope::Entries(m2) });
                } else {
                    stack.push(Frame { indent: top.indent, key: top.key, scope: FrameScope::Entries(m) });
                    stack.push(Frame { indent: ind, key: key, scope: FrameScope::Items(Vec::new()) });
                }
            },
            FrameScope::Items(l) => {
                if l.len() == 0 {
                    if vt.len() > 0 {
                        let sc = parse_value_chars(&vt);
                        let mut m2: Vec<(String, Value)> = Vec::new();
                        m2.push((key, sc));
                        proof {
                            lemma_dv_entries_index(m2@);
                            assert(dv_entries(m2@) =~= seq![(key@, parse_scalar_spec(vt@))]);
                        }
                        stack.push(Frame { indent: top.indent, key: top.key, scope: FrameScope::Entries(m2) });
                    } else {
                        stack.push(Frame { indent: top.indent, key: top.key, scope: FrameScope::Entries(Vec::new()) });
                        stack.push(Frame { indent: ind, key: key, scope: FrameScope::Items(Vec::new()) });
                    }
                } else {
                    stack.push(Frame { indent: top.indent, key: top.key, scope: FrameScope::Items(l) });
                }
            },
        }
        proof {
            assert(dv_seq(Seq::<Value>::empty()) =~= Seq::<Vs>::empty());
            assert(dv_entries(Seq::<(String, Value)>::empty()) =~= Seq::<(Seq<char>, Vs)>::empty());
            let target = step_key_line(st1, ind as int, kt@, vt@);
            assert(state_dv(stack@, *cur).stack =~= target.stack);
            assert(state_dv(stack@, *cur) =~= target);
        }
    } else if t[0] == '-' {
        // an item line
        let (vt, _vi) = trim_and_indent(&subvec(&t, 1, t.len()));
        let sc = parse_value_chars(&vt);
        let top = stack.pop().unwrap();
        match top.scope {
            FrameScope::Items(l) => {
                let mut l = l;
                let ghost l0 = l@;
                l.push(sc);
                proof {
                    lemma_dv_seq_index(l@);
                    lemma_dv_seq_index(l0);
                    assert(dv_seq(l@) =~= dv_seq(l0).push(parse_scalar_spec(vt@)));
                }
                stack.push(Frame { indent: top.indent, key: top.key, scope: FrameScope::Items(l) });
            },
            FrameScope::Entries(m) => {
                stack.push(Frame { indent: top.indent, key: top.key, scope: FrameScope::Entries(m) });
                match cur {
                    Some(k) => {
                        let mut l: Vec<Value> = Vec::new();
                        l.push(sc);
                        proof {
                            lemma_dv_seq_index(l@);
                            assert(dv_seq(l@) =~= seq![parse_scalar_spec(vt@)]);
                        }
                        stack.push(Frame { indent: ind, key: k.clone(), scope: FrameScope::Items(l) });
                    },
                    None => {},
                }
            },
        }
        proof {
            let target = step_item_line(st1, ind as int, vt@);
            assert(state_dv(stack@, *cur).stack =~= target.stack);
            assert(state_dv(stack@, *cur) =~= target);
        }
    } else {
        // a line matching no pattern: scopes were still closed above
    }
}

pub proof fn lemma_run_lines_snoc(lines: Seq<Seq<char>>, l: Seq<char>, st: StateModel)
    ensures
        run_lines(lines.push(l), st) == step_line(run_lines(lines, st), l),
    decreases lines.len(),
{
    if lines.len() == 0 {
        assert(lines.push(l).drop_first() =~= Seq::<Seq<char>>::empty());
        assert(lines.push(l).first() == l);
        assert(run_lines(Seq::<Seq<char>>::empty(), step_line(st, l)) == step_line(st, l));
    } else {
        assert(lines.push(l).drop_first() =~= lines.drop_first().push(l));
        assert(lines.push(l).first() == lines.first());
        lemma_run_lines_snoc(lines.drop_first(), l, step_line(st, lines.first()));
    }
}

/// Decodes a document, given as its lines. The result is always a mapping:
/// the root mapping collects every top-level entry, and an empty or
/// all-skippable document yields an empty mapping.
pub fn parse_lines(lines: &Vec<String>) -> (r: Value)
    ensures
        r.dv() == parse_lines_spec(lines.deep_view()),
        r is Mapping,
{
    let mut stack: Vec<Frame> = Vec::new();
    stack.push(Frame { indent: 0, key: String::new(), scope: FrameScope::Entries(Vec::new()) });
    let mut cur: Option<String> = None;
    proof {
        assert(dv_entries(Seq::<(String, Value)>::empty()) =~= Seq::<(Seq<char>, Vs)>::empty());
        assert(state_dv(stack@, cur) =~= init_state());
        assert(lines.deep_view().take(0) =~= Seq::<Seq<char>>::empty());
    }
    let n = lines.len();
    let mut i: usize = 0;
    while i < n
        invariant
            i <= n,
            n == lines@.len(),
            stack@.len() >= 1,
            state_dv(stack@, cur) == run_lines(lines.deep_view().take(i as int), init_state()),
        decreases n - i,
    {
        process_line(&mut stack, &mut cur, &lines[i]);
        proof {
            let dvl = lines.deep_view();
            assert(dvl.take(i + 1) =~= dvl.take(i as int).push(dvl[i as int]));
            lemma_run_lines_snoc(dvl.take(i as int), dvl[i as int], init_state());
            assert(dvl[i as int] == lines@[i as int]@);
        }
        i = i + 1;
    }
    proof {
        assert(lines.deep_view().take(n as int) =~= lines.deep_view());
    }
    // close every frame still open
    while stack.len() > 1
        invariant
            stack@.len() >= 1,
            finish(state_dv(stack@, cur)) == finish(run_lines(lines.deep_view(), init_state())),
        decreases stack@.len(),
    {
        pop_one_exec(&mut stack, &Ghost(cur));
    }
    let ghost fin = finish(run_lines(lines.deep_view(), init_state()));
    proof {
        assert(finish(state_dv(stack@, cur)) == state_dv(stack@, cur));
        assert(state_dv(stack@, cur) == fin);
        assert(fin.stack[0] == stack@[0].dv());
    }
    let root = stack.pop().unwrap();
    match root.scope {
        FrameScope::Entries(m) => Value::Mapping(m),
        FrameScope::Items(_) => {
            let r = Value::Mapping(Vec::new());
            proof {
                assert(dv_entries(Seq::<(String, Value)>::empty()) =~= Seq::<(Seq<char>, Vs)>::empty());
            }
            r
        },
    }
}

} // verus!
