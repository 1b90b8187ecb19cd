//! Rendering a parsed tree and parsing the text again gives the same tree.
use vstd::prelude::*;

use crate::parser::{
    attach, close_entries, empty_dict, key_index, parse_text, put_entry, run, step, Scope,
};
use crate::render::{
    entry_end, indent, is_bare, quoted, render, render_entries, render_node, render_nodes,
};
use crate::scanner::{
    is_space, is_word_char, len_before, lex, lemma_len_before, lemma_lex_progress,
    lemma_space_len, lemma_word_len, space_len, tokens, word_len,
    Lexed, Tok,
};
use crate::tree::Node;

verus! {

/// Text that can be written back: it holds no quote character.
pub open spec fn clean_text(t: Seq<char>) -> bool {
    forall|i: int| 0 <= i < t.len() ==> #[trigger] t[i] != '"'
}

/// A tree of the shape that parsing produces: texts without quotes, keys
/// unique in each dictionary, and no dimensions.
pub open spec fn clean(n: Node) -> bool
    decreases n,
{
    match n {
        Node::Value(t) => clean_text(t),
        Node::List(items) => clean_nodes(items),
        Node::Dict(es) => clean_entries(es),
        Node::Dim(_) => false,
    }
}

pub open spec fn clean_nodes(v: Seq<Node>) -> bool
    decreases v,
{
    v.len() == 0 || (clean_nodes(v.drop_last()) && clean(v.last()))
}

pub open spec fn clean_entries(es: Seq<(Seq<char>, Seq<Node>)>) -> bool
    decreases es,
{
    es.len() == 0 || {
        &&& clean_entries(es.drop_last())
        &&& clean_text(es.last().0)
        &&& clean_nodes(es.last().1)
        &&& key_index(es.drop_last(), es.last().0) == es.drop_last().len()
    }
}

/// The tokens that the text of a node scans to.
pub open spec fn toks_node(n: Node) -> Seq<Tok>
    decreases n,
{
    match n {
        Node::Value(t) => seq![Tok::Keyword(t)],
        Node::List(items) => seq![Tok::ListStart] + toks_nodes(items) + seq![Tok::ListEnd],
        Node::Dict(es) => seq![Tok::DictStart] + toks_entries(es) + seq![Tok::DictEnd],
        Node::Dim(_) => seq![],
    }
}

pub open spec fn toks_nodes(v: Seq<Node>) -> Seq<Tok>
    decreases v,
{
    if v.len() == 0 {
        seq![]
    } else {
        toks_nodes(v.drop_last()) + toks_node(v.last())
    }
}

pub open spec fn toks_entries(es: Seq<(Seq<char>, Seq<Node>)>) -> Seq<Tok>
    decreases es,
{
    if es.len() == 0 {
        seq![]
    } else {
        toks_entries(es.drop_last()) + seq![Tok::Keyword(es.last().0)] + toks_nodes(es.last().1)
            + seq![Tok::End]
    }
}

pub open spec fn prepend(ts: Seq<Tok>, r: (Seq<Tok>, bool)) -> (Seq<Tok>, bool) {
    (ts + r.0, r.1)
}

pub open spec fn all_spaces(ws: Seq<char>) -> bool {
    forall|i: int| 0 <= i < ws.len() ==> is_space(#[trigger] ws[i])
}

proof fn lemma_space_prefix(ws: Seq<char>, r: Seq<char>)
    requires
        all_spaces(ws),
    ensures
        space_len(ws + r) == ws.len() + space_len(r),
    decreases ws.len(),
{
    if ws.len() > 0 {
        assert((ws + r).drop_first() =~= ws.drop_first() + r);
        assert((ws + r)[0] == ws[0]);
        lemma_space_prefix(ws.drop_first(), r);
    } else {
        assert(ws + r =~= r);
    }
}

/// Leading whitespace does not change the tokens.
proof fn lemma_tokens_spaces(ws: Seq<char>, r: Seq<char>)
    requires
        all_spaces(ws),
    ensures
        tokens(ws + r) == tokens(r),
{
    lemma_space_prefix(ws, r);
    lemma_space_len(r);
    let k = space_len(r);
    assert((ws + r).skip((ws.len() + k) as int) =~= r.skip(k as int));
    lemma_lex_progress(r);
    match lex(r) {
        Lexed::Token { tok, len } => {
            assert((ws + r).skip((ws.len() + len) as int) =~= r.skip(len as int));
        },
        _ => {},
    }
}

proof fn lemma_word_prefix(w: Seq<char>, rest: Seq<char>)
    requires
        forall|i: int| 0 <= i < w.len() ==> is_word_char(#[trigger] w[i]),
        rest.len() == 0 || !is_word_char(rest[0]),
    ensures
        word_len(w + rest) == w.len(),
    decreases w.len(),
{
    if w.len() > 0 {
        assert((w + rest).drop_first() =~= w.drop_first() + rest);
        assert((w + rest)[0] == w[0]);
        assert forall|i: int| 0 <= i < w.drop_first().len() implies is_word_char(
            #[trigger] w.drop_first()[i],
        ) by {
            assert(w.drop_first()[i] == w[i + 1]);
        }
        lemma_word_prefix(w.drop_first(), rest);
    } else {
        assert(w + rest =~= rest);
    }
}

proof fn lemma_quote_prefix(t: Seq<char>, rest: Seq<char>)
    requires
        clean_text(t),
        rest.len() > 0,
        rest[0] == '"',
    ensures
        len_before(t + rest, '"') == t.len(),
    decreases t.len(),
{
    if t.len() > 0 {
        assert((t + rest).drop_first() =~= t.drop_first() + rest);
        assert((t + rest)[0] == t[0]);
        assert forall|i: int| 0 <= i < t.drop_first().len() implies #[trigger] t.drop_first()[i]
            != '"' by {
            assert(t.drop_first()[i] == t[i + 1]);
        }
        lemma_quote_prefix(t.drop_first(), rest);
    } else {
        assert(t + rest =~= rest);
    }
}

/// A one-character token.
proof fn lemma_tokens_punct(c: char, tok: Tok, rest: Seq<char>)
    requires
        (c == ';' && tok == Tok::End) || (c == '{' && tok == Tok::DictStart) || (c == '}' && tok
            == Tok::DictEnd) || (c == '(' && tok == Tok::ListStart) || (c == ')' && tok
            == Tok::ListEnd),
    ensures
        tokens(seq![c] + rest) == prepend(seq![tok], tokens(rest)),
{
    let s = seq![c] + rest;
    assert(s[0] == c);
    assert(space_len(s) == 0);
    assert(s.skip(0) =~= s);
    assert(s.skip(1) =~= rest);
}

/// A key or value as `quoted` writes it.
proof fn lemma_tokens_quoted(t: Seq<char>, rest: Seq<char>)
    requires
        clean_text(t),
        is_bare(t) ==> rest.len() == 0 || !is_word_char(rest[0]),
    ensures
        tokens(quoted(t) + rest) == prepend(seq![Tok::Keyword(t)], tokens(rest)),
{
    let s = quoted(t) + rest;
    assert(s.skip(0) =~= s);
    if is_bare(t) {
        assert(s[0] == t[0]);
        lemma_word_prefix(t, rest);
        assert(s.subrange(0, t.len() as int) =~= t);
        assert(s.skip(t.len() as int) =~= rest);
    } else {
        assert(s[0] == '"');
        assert(s.drop_first() =~= t + (seq!['"'] + rest));
        lemma_quote_prefix(t, seq!['"'] + rest);
        assert(s.subrange(1, (t.len() + 1) as int) =~= t);
        assert(s.skip((t.len() + 2) as int) =~= rest);
    }
}

proof fn lemma_indent_spaces(level: nat)
    ensures
        all_spaces(indent(level)),
        indent(level).len() == 3 * level,
{
}

proof fn lemma_node_starts_with_indent(n: Node, level: nat)
    ensures
        render_node(n, level).subrange(0, (3 * level) as int) == indent(level),
{
    let r = render_node(n, level);
    match n {
        Node::Value(t) => {
            assert(r.subrange(0, (3 * level) as int) =~= indent(level));
        },
        Node::List(items) => {
            assert(r.subrange(0, (3 * level) as int) =~= indent(level));
        },
        Node::Dict(es) => {
            assert(r.subrange(0, (3 * level) as int) =~= indent(level));
        },
        Node::Dim(ws) => {
            assert(r.subrange(0, (3 * level) as int) =~= indent(level));
        },
    }
}

proof fn lemma_nodes_start_with_space(v: Seq<Node>, level: nat)
    requires
        v.len() > 0,
        level >= 1,
    ensures
        render_nodes(v, level).len() > 0,
        render_nodes(v, level)[0] == ' ',
    decreases v.len(),
{
    if v.drop_last().len() > 0 {
        lemma_nodes_start_with_space(v.drop_last(), level);
    } else {
        lemma_node_starts_with_indent(v.last(), level);
        assert(render_node(v.last(), level).subrange(0, (3 * level) as int)[0] == render_node(
            v.last(),
            level,
        )[0]);
        assert(render_nodes(v.drop_last(), level) =~= seq![]);
        assert(render_nodes(v, level) =~= render_node(v.last(), level));
    }
}

proof fn lemma_prepend_assoc(a: Seq<Tok>, b: Seq<Tok>, r: (Seq<Tok>, bool))
    ensures
        prepend(a, prepend(b, r)) == prepend(a + b, r),
{
    assert(a + (b + r.0) =~= (a + b) + r.0);
}

/// The text of a clean node scans to its tokens, whatever follows it.
#[verifier::rlimit(40)]
proof fn lemma_tokens_node(n: Node, level: nat, rest: Seq<char>)
    requires
        clean(n),
    ensures
        tokens(render_node(n, level) + rest) == prepend(toks_node(n), tokens(rest)),
    decreases n,
{
    let ind = indent(level);
    lemma_indent_spaces(level);
    match n {
        Node::Value(t) => {
            let tail = seq![' '] + rest;
            assert(render_node(n, level) + rest =~= ind + (quoted(t) + tail));
            lemma_tokens_spaces(ind, quoted(t) + tail);
            lemma_tokens_quoted(t, tail);
            lemma_tokens_spaces(seq![' '], rest);
        },
        Node::List(items) => {
            let close = seq!['\n'] + ind;
            assert(all_spaces(close));
            let after = close + (seq![')'] + rest);
            let body = render_nodes(items, level + 1) + after;
            assert(render_node(n, level) + rest =~= ind + (seq!['('] + (seq!['\n'] + body)));
            lemma_tokens_spaces(ind, seq!['('] + (seq!['\n'] + body));
            lemma_tokens_punct('(', Tok::ListStart, seq!['\n'] + body);
            lemma_tokens_spaces(seq!['\n'], body);
            lemma_tokens_nodes(items, level + 1, after);
            lemma_tokens_spaces(close, seq![')'] + rest);
            lemma_tokens_punct(')', Tok::ListEnd, rest);
            lemma_prepend_assoc(toks_nodes(items), seq![Tok::ListEnd], tokens(rest));
            lemma_prepend_assoc(
                seq![Tok::ListStart],
                toks_nodes(items) + seq![Tok::ListEnd],
                tokens(rest),
            );
            assert(seq![Tok::ListStart] + (toks_nodes(items) + seq![Tok::ListEnd]) =~= toks_node(
                n,
            ));
        },
        Node::Dict(es) => {
            let after = ind + (seq!['}'] + rest);
            let body = render_entries(es, level + 1) + after;
            assert(render_node(n, level) + rest =~= ind + (seq!['{'] + (seq!['\n'] + body)));
            lemma_tokens_spaces(ind, seq!['{'] + (seq!['\n'] + body));
            lemma_tokens_punct('{', Tok::DictStart, seq!['\n'] + body);
            lemma_tokens_spaces(seq!['\n'], body);
            lemma_tokens_entries(es, level + 1, after);
            lemma_tokens_spaces(ind, seq!['}'] + rest);
            lemma_tokens_punct('}', Tok::DictEnd, rest);
            lemma_prepend_assoc(toks_entries(es), seq![Tok::DictEnd], tokens(rest));
            lemma_prepend_assoc(
                seq![Tok::DictStart],
                toks_entries(es) + seq![Tok::DictEnd],
                tokens(rest),
            );
            assert(seq![Tok::DictStart] + (toks_entries(es) + seq![Tok::DictEnd]) =~= toks_node(
                n,
            ));
        },
        Node::Dim(_) => {},
    }
}

proof fn lemma_tokens_nodes(v: Seq<Node>, level: nat, rest: Seq<char>)
    requires
        clean_nodes(v),
    ensures
        tokens(render_nodes(v, level) + rest) == prepend(toks_nodes(v), tokens(rest)),
    decreases v,
{
    if v.len() == 0 {
        assert(render_nodes(v, level) + rest =~= rest);
        assert(toks_nodes(v) + tokens(rest).0 =~= tokens(rest).0);
    } else {
        let last = v.last();
        assert(render_nodes(v, level) + rest =~= render_nodes(v.drop_last(), level) + (render_node(
            last,
            level,
        ) + rest));
        lemma_tokens_nodes(v.drop_last(), level, render_node(last, level) + rest);
        lemma_tokens_node(last, level, rest);
        lemma_prepend_assoc(toks_nodes(v.drop_last()), toks_node(last), tokens(rest));
    }
}

#[verifier::rlimit(40)]
proof fn lemma_tokens_entries(es: Seq<(Seq<char>, Seq<Node>)>, level: nat, rest: Seq<char>)
    requires
        clean_entries(es),
    ensures
        tokens(render_entries(es, level) + rest) == prepend(toks_entries(es), tokens(rest)),
    decreases es,
{
    if es.len() == 0 {
        assert(render_entries(es, level) + rest =~= rest);
        assert(toks_entries(es) + tokens(rest).0 =~= tokens(rest).0);
    } else {
        let (k, vals) = es.last();
        let ind = indent(level);
        lemma_indent_spaces(level);
        assert(entry_end(vals) == seq![';', '\n']) by {
            assert(clean_nodes(es.last().1));
            assert(clean_nodes(vals));
            if vals.len() > 0 {
                assert(clean(vals.last()));
            }
        }
        let term = seq![';', '\n'] + rest;
        let after_key = render_nodes(vals, level + 1) + term;
        let entry = ind + (quoted(k) + after_key);
        assert(render_entries(es, level) + rest =~= render_entries(es.drop_last(), level) + entry);
        lemma_tokens_entries(es.drop_last(), level, entry);
        lemma_tokens_spaces(ind, quoted(k) + after_key);
        if vals.len() > 0 {
            lemma_nodes_start_with_space(vals, level + 1);
            assert(after_key[0] == ' ');
        } else {
            assert(render_nodes(vals, level + 1) =~= seq![]);
            assert(after_key[0] == ';');
        }
        lemma_tokens_quoted(k, after_key);
        lemma_tokens_nodes(vals, level + 1, term);
        assert(term =~= seq![';'] + (seq!['\n'] + rest));
        lemma_tokens_punct(';', Tok::End, seq!['\n'] + rest);
        lemma_tokens_spaces(seq!['\n'], rest);
        lemma_prepend_assoc(toks_nodes(vals), seq![Tok::End], tokens(rest));
        lemma_prepend_assoc(
            seq![Tok::Keyword(k)],
            toks_nodes(vals) + seq![Tok::End],
            tokens(rest),
        );
        lemma_prepend_assoc(
            toks_entries(es.drop_last()),
            seq![Tok::Keyword(k)] + (toks_nodes(vals) + seq![Tok::End]),
            tokens(rest),
        );
        assert(toks_entries(es.drop_last()) + (seq![Tok::Keyword(k)] + (toks_nodes(vals) + seq![
            Tok::End,
        ])) =~= toks_entries(es));
    }
}

/// The top scope can take a finished node: a list, or a dictionary that is
/// reading the values of a key.
pub open spec fn takes_values(st: Seq<Scope>) -> bool {
    st.len() > 0 && match st.last() {
        Scope::Dict { key, .. } => key is Some,
        Scope::List { .. } => true,
    }
}

/// The stack after each of `v` was handed to its top scope.
pub open spec fn attach_all(st: Seq<Scope>, v: Seq<Node>) -> Seq<Scope>
    decreases v.len(),
{
    if v.len() == 0 {
        st
    } else {
        attach(attach_all(st, v.drop_last()), v.last())
    }
}

proof fn lemma_attach_all_takes(st: Seq<Scope>, v: Seq<Node>)
    requires
        takes_values(st),
    ensures
        takes_values(attach_all(st, v)),
    decreases v.len(),
{
    if v.len() > 0 {
        lemma_attach_all_takes(st, v.drop_last());
    }
}

proof fn lemma_attach_all_list(below: Seq<Scope>, v: Seq<Node>)
    ensures
        attach_all(below.push(Scope::List { items: seq![] }), v) == below.push(
            Scope::List { items: v },
        ),
    decreases v.len(),
{
    if v.len() > 0 {
        lemma_attach_all_list(below, v.drop_last());
        let st = below.push(Scope::List { items: v.drop_last() });
        assert(st.drop_last() =~= below);
        assert(v.drop_last().push(v.last()) =~= v);
    } else {
        assert(v =~= seq![]);
    }
}

proof fn lemma_attach_all_dict(
    below: Seq<Scope>,
    entries: Seq<(Seq<char>, Seq<Node>)>,
    k: Seq<char>,
    v: Seq<Node>,
)
    ensures
        attach_all(below.push(Scope::Dict { entries, key: Some(k), values: seq![] }), v)
            == below.push(Scope::Dict { entries, key: Some(k), values: v }),
    decreases v.len(),
{
    if v.len() > 0 {
        lemma_attach_all_dict(below, entries, k, v.drop_last());
        let st = below.push(Scope::Dict { entries, key: Some(k), values: v.drop_last() });
        assert(st.drop_last() =~= below);
        assert(v.drop_last().push(v.last()) =~= v);
    } else {
        assert(v =~= seq![]);
    }
}

proof fn lemma_run_first(t: Tok, rest: Seq<Tok>, f: bool, st: Seq<Scope>)
    ensures
        run(seq![t] + rest, f, st) == match step(st, t) {
            Err(e) => Err(e),
            Ok(next) => run(rest, f, next),
        },
{
    assert((seq![t] + rest)[0] == t);
    assert((seq![t] + rest).drop_first() =~= rest);
}

proof fn lemma_open_scope(st: Seq<Scope>, t: Tok, s: Scope)
    requires
        takes_values(st),
        (t == Tok::ListStart && s == (Scope::List { items: seq![] })) || (t == Tok::DictStart
            && s == empty_dict()),
    ensures
        step(st, t) == Ok::<Seq<Scope>, crate::tree::Failure>(st.push(s)),
{
    assert(st.drop_last().push(st.last()) =~= st);
}

/// Feeding the tokens of a clean node hands that node to the top scope.
proof fn lemma_run_node(n: Node, rest: Seq<Tok>, f: bool, st: Seq<Scope>)
    requires
        clean(n),
        takes_values(st),
    ensures
        run(toks_node(n) + rest, f, st) == run(rest, f, attach(st, n)),
    decreases n,
{
    match n {
        Node::Value(t) => {
            lemma_run_first(Tok::Keyword(t), rest, f, st);
        },
        Node::List(items) => {
            let inner = Scope::List { items: seq![] };
            lemma_open_scope(st, Tok::ListStart, inner);
            assert(toks_node(n) + rest =~= seq![Tok::ListStart] + (toks_nodes(items) + (seq![
                Tok::ListEnd,
            ] + rest)));
            lemma_run_first(Tok::ListStart, toks_nodes(items) + (seq![Tok::ListEnd] + rest), f, st);
            lemma_run_nodes(items, seq![Tok::ListEnd] + rest, f, st.push(inner));
            lemma_attach_all_list(st, items);
            lemma_run_first(Tok::ListEnd, rest, f, st.push(Scope::List { items }));
            assert(st.push(Scope::List { items }).drop_last() =~= st);
        },
        Node::Dict(es) => {
            lemma_open_scope(st, Tok::DictStart, empty_dict());
            assert(toks_node(n) + rest =~= seq![Tok::DictStart] + (toks_entries(es) + (seq![
                Tok::DictEnd,
            ] + rest)));
            lemma_run_first(Tok::DictStart, toks_entries(es) + (seq![Tok::DictEnd] + rest), f, st);
            lemma_run_entries(es, seq![Tok::DictEnd] + rest, f, st);
            let done = Scope::Dict { entries: es, key: None, values: seq![] };
            lemma_run_first(Tok::DictEnd, rest, f, st.push(done));
            assert(st.push(done).drop_last() =~= st);
        },
        Node::Dim(_) => {},
    }
}

proof fn lemma_run_nodes(v: Seq<Node>, rest: Seq<Tok>, f: bool, st: Seq<Scope>)
    requires
        clean_nodes(v),
        takes_values(st),
    ensures
        run(toks_nodes(v) + rest, f, st) == run(rest, f, attach_all(st, v)),
    decreases v,
{
    if v.len() == 0 {
        assert(toks_nodes(v) + rest =~= rest);
    } else {
        assert(toks_nodes(v) + rest =~= toks_nodes(v.drop_last()) + (toks_node(v.last())
            + rest));
        lemma_run_nodes(v.drop_last(), toks_node(v.last()) + rest, f, st);
        lemma_attach_all_takes(st, v.drop_last());
        lemma_run_node(v.last(), rest, f, attach_all(st, v.drop_last()));
    }
}

proof fn lemma_key_absent(es: Seq<(Seq<char>, Seq<Node>)>, k: Seq<char>, v: Seq<Node>)
    requires
        key_index(es, k) == es.len(),
    ensures
        put_entry(es, k, v) == es.push((k, v)),
{
}

/// Feeding the tokens of clean entries to a fresh dictionary scope leaves
/// exactly those entries in it.
#[verifier::rlimit(40)]
proof fn lemma_run_entries(es: Seq<(Seq<char>, Seq<Node>)>, rest: Seq<Tok>, f: bool, below: Seq<Scope>)
    requires
        clean_entries(es),
    ensures
        run(toks_entries(es) + rest, f, below.push(empty_dict())) == run(
            rest,
            f,
            below.push(Scope::Dict { entries: es, key: None, values: seq![] }),
        ),
    decreases es,
{
    if es.len() == 0 {
        assert(toks_entries(es) + rest =~= rest);
        assert(es =~= seq![]);
    } else {
        let prev = es.drop_last();
        let (k, vals) = es.last();
        let after_key = toks_nodes(vals) + (seq![Tok::End] + rest);
        assert(toks_entries(es) + rest =~= toks_entries(prev) + (seq![Tok::Keyword(k)]
            + after_key));
        lemma_run_entries(prev, seq![Tok::Keyword(k)] + after_key, f, below);
        let open = Scope::Dict { entries: prev, key: None, values: seq![] };
        lemma_run_first(Tok::Keyword(k), after_key, f, below.push(open));
        assert(below.push(open).drop_last() =~= below);
        let reading = Scope::Dict { entries: prev, key: Some(k), values: seq![] };
        lemma_run_nodes(vals, seq![Tok::End] + rest, f, below.push(reading));
        lemma_attach_all_dict(below, prev, k, vals);
        let full = Scope::Dict { entries: prev, key: Some(k), values: vals };
        lemma_run_first(Tok::End, rest, f, below.push(full));
        assert(below.push(full).drop_last() =~= below);
        lemma_key_absent(prev, k, vals);
        assert(prev.push((k, vals)) =~= es);
    }
}

/// Rendered clean entries parse back to a dictionary of the same entries.
pub proof fn lemma_parse_rendered(es: Seq<(Seq<char>, Seq<Node>)>)
    requires
        clean_entries(es),
    ensures
        parse_text(render(Node::Dict(es))) == Ok::<Node, crate::tree::Failure>(Node::Dict(es)),
{
    let text = render_entries(es, 0);
    let empty = Seq::<char>::empty();
    assert(text + empty =~= text);
    assert(lex(empty) == Lexed::Done) by {
        assert(space_len(empty) == 0);
    }
    lemma_tokens_entries(es, 0, empty);
    assert(toks_entries(es) + seq![] =~= toks_entries(es));
    lemma_run_entries(es, seq![], false, seq![]);
    assert(Seq::<Scope>::empty().push(empty_dict()) =~= seq![empty_dict()]);
}

proof fn lemma_key_index_found(es: Seq<(Seq<char>, Seq<Node>)>, k: Seq<char>)
    ensures
        key_index(es, k) <= es.len(),
        key_index(es, k) < es.len() ==> es[key_index(es, k) as int].0 == k,
    decreases es.len(),
{
    if es.len() > 0 && es[0].0 != k {
        lemma_key_index_found(es.drop_first(), k);
    }
}

proof fn lemma_key_index_same_keys(
    a: Seq<(Seq<char>, Seq<Node>)>,
    b: Seq<(Seq<char>, Seq<Node>)>,
    k: Seq<char>,
)
    requires
        a.len() == b.len(),
        forall|j: int| 0 <= j < a.len() ==> #[trigger] a[j].0 == b[j].0,
    ensures
        key_index(a, k) == key_index(b, k),
    decreases a.len(),
{
    if a.len() > 0 {
        assert(a[0].0 == b[0].0);
        assert forall|j: int| 0 <= j < a.drop_first().len() implies #[trigger] a.drop_first()[j].0
            == b.drop_first()[j].0 by {
            assert(a[j + 1].0 == b[j + 1].0);
        }
        lemma_key_index_same_keys(a.drop_first(), b.drop_first(), k);
    }
}

proof fn lemma_clean_update(es: Seq<(Seq<char>, Seq<Node>)>, i: int, v: Seq<Node>)
    requires
        clean_entries(es),
        0 <= i < es.len(),
        clean_nodes(v),
    ensures
        clean_entries(es.update(i, (es[i].0, v))),
    decreases es.len(),
{
    let u = es.update(i, (es[i].0, v));
    if i == es.len() - 1 {
        assert(u.drop_last() =~= es.drop_last());
    } else {
        let prev = es.drop_last();
        assert(u.drop_last() =~= prev.update(i, (prev[i].0, v)));
        lemma_clean_update(prev, i, v);
        lemma_key_index_same_keys(u.drop_last(), prev, es.last().0);
    }
}

proof fn lemma_clean_put(es: Seq<(Seq<char>, Seq<Node>)>, k: Seq<char>, v: Seq<Node>)
    requires
        clean_entries(es),
        clean_text(k),
        clean_nodes(v),
    ensures
        clean_entries(put_entry(es, k, v)),
{
    lemma_key_index_found(es, k);
    let i = key_index(es, k);
    if i < es.len() {
        lemma_clean_update(es, i as int, v);
    } else {
        assert(es.push((k, v)).drop_last() =~= es);
    }
}

proof fn lemma_clean_push(v: Seq<Node>, n: Node)
    requires
        clean_nodes(v),
        clean(n),
    ensures
        clean_nodes(v.push(n)),
{
    assert(v.push(n).drop_last() =~= v);
}

/// Every scope holds clean contents.
pub open spec fn clean_scope(sc: Scope) -> bool {
    match sc {
        Scope::Dict { entries, key, values } => clean_entries(entries) && (key matches Some(k)
            ==> clean_text(k)) && clean_nodes(values),
        Scope::List { items } => clean_nodes(items),
    }
}

pub open spec fn clean_stack(st: Seq<Scope>) -> bool {
    forall|i: int| 0 <= i < st.len() ==> #[trigger] clean_scope(st[i])
}

pub open spec fn clean_tok(t: Tok) -> bool {
    t matches Tok::Keyword(w) ==> clean_text(w)
}

proof fn lemma_clean_attach(st: Seq<Scope>, n: Node)
    requires
        st.len() > 0,
        clean_stack(st),
        clean(n),
    ensures
        clean_stack(attach(st, n)),
{
    let top = st.last();
    assert(clean_scope(st[st.len() - 1]));
    match top {
        Scope::Dict { entries, key, values } => lemma_clean_push(values, n),
        Scope::List { items } => lemma_clean_push(items, n),
    }
    let r = attach(st, n);
    assert forall|i: int| 0 <= i < r.len() implies #[trigger] clean_scope(r[i]) by {
        if i < st.len() - 1 {
            assert(r[i] == st[i]);
        }
    }
}

proof fn lemma_clean_step(st: Seq<Scope>, t: Tok)
    requires
        clean_stack(st),
        clean_tok(t),
    ensures
        step(st, t) matches Ok(next) ==> clean_stack(next),
{
    if st.len() > 0 {
        let below = st.drop_last();
        assert(clean_scope(st[st.len() - 1]));
        assert(clean_stack(below)) by {
            assert forall|i: int| 0 <= i < below.len() implies #[trigger] clean_scope(below[i]) by {
                assert(clean_scope(st[i]));
            }
        }
        assert(st =~= below.push(st.last()));
        assert(clean_scope(empty_dict()));
        assert(clean_scope(Scope::List { items: seq![] }));
        assert forall|a: Seq<Scope>, sc: Scope| clean_stack(a) && clean_scope(sc) implies clean_stack(
            #[trigger] a.push(sc),
        ) by {
            assert forall|i: int| 0 <= i < a.push(sc).len() implies #[trigger] clean_scope(
                a.push(sc)[i],
            ) by {
                if i < a.len() {
                    assert(a.push(sc)[i] == a[i]);
                }
            }
        }
        match st.last() {
            Scope::Dict { entries, key, values } => {
                match t {
                    Tok::End => if let Some(k) = key {
                        lemma_clean_put(entries, k, values);
                    },
                    Tok::Keyword(w) => if key is Some {
                        lemma_clean_push(values, Node::Value(w));
                    },
                    Tok::DictEnd => if below.len() > 0 {
                        if let Some(k) = key {
                            lemma_clean_put(entries, k, values);
                        }
                        lemma_clean_attach(below, Node::Dict(close_entries(entries, key, values)));
                    },
                    _ => {},
                }
            },
            Scope::List { items } => {
                match t {
                    Tok::Keyword(w) => lemma_clean_push(items, Node::Value(w)),
                    Tok::ListEnd => if below.len() > 0 {
                        lemma_clean_attach(below, Node::List(items));
                    },
                    _ => {},
                }
            },
        }
    }
}

proof fn lemma_clean_run(toks: Seq<Tok>, f: bool, st: Seq<Scope>)
    requires
        clean_stack(st),
        forall|i: int| 0 <= i < toks.len() ==> #[trigger] clean_tok(toks[i]),
    ensures
        run(toks, f, st) matches Ok(n) ==> n matches Node::Dict(es) && clean_entries(es),
    decreases toks.len(),
{
    if toks.len() == 0 {
        if st.len() == 1 {
            assert(clean_scope(st[0]));
            if let Scope::Dict { entries, key, values } = st[0] {
                if let Some(k) = key {
                    lemma_clean_put(entries, k, values);
                }
            }
        }
    } else {
        assert(clean_tok(toks[0]));
        lemma_clean_step(st, toks[0]);
        if let Ok(next) = step(st, toks[0]) {
            assert forall|i: int| 0 <= i < toks.drop_first().len() implies #[trigger] clean_tok(
                toks.drop_first()[i],
            ) by {
                assert(clean_tok(toks[i + 1]));
            }
            lemma_clean_run(toks.drop_first(), f, next);
        }
    }
}

/// Keywords never hold a quote character.
proof fn lemma_clean_tokens(s: Seq<char>)
    ensures
        forall|i: int| 0 <= i < tokens(s).0.len() ==> #[trigger] clean_tok(tokens(s).0[i]),
    decreases s.len(),
{
    lemma_lex_progress(s);
    if let Lexed::Token { tok, len } = lex(s) {
        lemma_clean_tokens(s.skip(len as int));
        let k = space_len(s);
        lemma_space_len(s);
        let r = s.skip(k as int);
        if r.len() > 0 {
            lemma_len_before(r.drop_first(), '"');
            lemma_word_len(r);
        }
        assert(clean_tok(tok)) by {
            if let Tok::Keyword(w) = tok {
                if r[0] == '"' {
                    assert forall|i: int| 0 <= i < w.len() implies #[trigger] w[i] != '"' by {
                        assert(w[i] == r.drop_first()[i]);
                    }
                } else {
                    assert forall|i: int| 0 <= i < w.len() implies #[trigger] w[i] != '"' by {
                        assert(is_word_char(r[i]));
                    }
                }
            }
        }
        let ts = tokens(s).0;
        assert forall|i: int| 0 <= i < ts.len() implies #[trigger] clean_tok(ts[i]) by {
            if i > 0 {
                assert(ts[i] == tokens(s.skip(len as int)).0[i - 1]);
            }
        }
    }
}

/// Parsing produces clean dictionaries only.
pub proof fn lemma_parse_clean(s: Seq<char>)
    ensures
        parse_text(s) matches Ok(n) ==> n matches Node::Dict(es) && clean_entries(es),
{
    lemma_clean_tokens(s);
    assert(clean_scope(empty_dict()));
    lemma_clean_run(tokens(s).0, tokens(s).1, seq![empty_dict()]);
}

/// Parsing the rendered text of a parse result gives that result again: for
/// every text that parses, parse, then render, then parse yields the same
/// tree.
pub proof fn lemma_round_trip(s: Seq<char>)
    requires
        parse_text(s) is Ok,
    ensures
        parse_text(render(parse_text(s)->Ok_0)) == parse_text(s),
{
    lemma_parse_clean(s);
    if let Ok(Node::Dict(es)) = parse_text(s) {
        lemma_parse_rendered(es);
    }
}

} // verus!
