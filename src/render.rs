//! Renders a tree back to text that parses to the same tree.
use vstd::prelude::*;

use crate::scanner::{is_word_char, is_word_character};
use crate::tree::{entries_of, nodes_of, Foam, Node};

verus! {

/// The indentation of a given nesting level: three spaces per level.
pub open spec fn indent(level: nat) -> Seq<char> {
    Seq::new(3 * level, |i: int| ' ')
}

/// Text that can stand unquoted: a non-empty run of keyword characters.
pub open spec fn is_bare(t: Seq<char>) -> bool {
    t.len() > 0 && forall|i: int| 0 <= i < t.len() ==> is_word_char(#[trigger] t[i])
}

/// A key or value as written out: quoted unless it can stand bare.
pub open spec fn quoted(t: Seq<char>) -> Seq<char> {
    if is_bare(t) {
        t
    } else {
        seq!['"'] + t + seq!['"']
    }
}

/// The text of a node at a nesting level.
pub open spec fn render_node(n: Node, level: nat) -> Seq<char>
    decreases n,
{
    match n {
        Node::Value(t) => indent(level) + quoted(t) + seq![' '],
        Node::List(items) => indent(level) + seq!['(', '\n'] + render_nodes(items, level + 1) + seq![
            '\n',
        ] + indent(level) + seq![')'],
        Node::Dict(entries) => indent(level) + seq!['{', '\n'] + render_entries(entries, level + 1)
            + indent(level) + seq!['}'],
        Node::Dim(words) => indent(level) + seq!['[', ' '] + render_words(words) + seq![']', ';'],
    }
}

/// The texts of a sequence of nodes, one after the other.
pub open spec fn render_nodes(v: Seq<Node>, level: nat) -> Seq<char>
    decreases v,
{
    if v.len() == 0 {
        seq![]
    } else {
        render_nodes(v.drop_last(), level) + render_node(v.last(), level)
    }
}

/// What ends an entry: a `;` and a line break, or only the line break when
/// the last value is a dimension, which carries its own `;`.
pub open spec fn entry_end(values: Seq<Node>) -> Seq<char> {
    if values.len() > 0 && values.last() is Dim {
        seq!['\n']
    } else {
        seq![';', '\n']
    }
}

/// The text of dictionary entries: each key, its values, and a `;`.
pub open spec fn render_entries(entries: Seq<(Seq<char>, Seq<Node>)>, level: nat) -> Seq<char>
    decreases entries,
{
    if entries.len() == 0 {
        seq![]
    } else {
        render_entries(entries.drop_last(), level) + indent(level) + quoted(entries.last().0)
            + render_nodes(entries.last().1, level + 1) + entry_end(entries.last().1)
    }
}

/// The words of a dimension, each followed by a space.
pub open spec fn render_words(words: Seq<Seq<char>>) -> Seq<char>
    decreases words.len(),
{
    if words.len() == 0 {
        seq![]
    } else {
        render_words(words.drop_last()) + words.last() + seq![' ']
    }
}

/// The text of a whole tree: the entries of a root dictionary stand at the
/// outermost level, without braces.
pub open spec fn render(n: Node) -> Seq<char> {
    match n {
        Node::Dict(entries) => render_entries(entries, 0),
        _ => render_node(n, 0),
    }
}

/// The indentation one level deeper than `ind`.
fn deeper(ind: &str, Ghost(level): Ghost<nat>) -> (r: String)
    requires
        ind@ == indent(level),
    ensures
        r@ == indent(level + 1),
{
    let mut r = String::from_str(ind);
    r.append("   ");
    proof {
        reveal_strlit("   ");
        assert(indent(level) + "   "@ =~= indent(level + 1));
    }
    r
}

/// Writes a key or value, quoted when it cannot stand bare.
pub fn safe_keyword(keyword: &str) -> (r: String)
    ensures
        r@ == quoted(keyword@),
{
    let mut bare = true;
    for c in it: keyword.chars()
        invariant
            it.seq() == keyword@,
            bare == forall|i: int| 0 <= i < it.index() ==> is_word_char(#[trigger] keyword@[i]),
    {
        let word = is_word_character(c);
        bare = bare && word;
    }
    if bare && !keyword.is_empty() {
        String::from_str(keyword)
    } else {
        proof {
            reveal_strlit("\"");
        }
        let mut r = String::from_str("\"");
        r.append(keyword);
        r.append("\"");
        r
    }
}

proof fn lemma_render_nodes_take(v: Seq<Node>, i: int, level: nat)
    requires
        0 <= i < v.len(),
    ensures
        render_nodes(v.take(i + 1), level) == render_nodes(v.take(i), level) + render_node(
            v[i],
            level,
        ),
{
    assert(v.take(i + 1).drop_last() =~= v.take(i));
}

proof fn lemma_render_entries_take(es: Seq<(Seq<char>, Seq<Node>)>, i: int, level: nat)
    requires
        0 <= i < es.len(),
    ensures
        render_entries(es.take(i + 1), level) == render_entries(es.take(i), level) + indent(level)
            + quoted(es[i].0) + render_nodes(es[i].1, level + 1) + entry_end(es[i].1),
{
    assert(es.take(i + 1).drop_last() =~= es.take(i));
}

/// Appends the entries of a dictionary at `level`, whose indentation is `ind`.
fn write_entries<'a>(
    entries: &Vec<(&'a str, Vec<Foam<'a>>)>,
    ind: &str,
    Ghost(level): Ghost<nat>,
    out: &mut String,
)
    requires
        ind@ == indent(level),
    ensures
        final(out)@ == old(out)@ + render_entries(entries_of(entries@), level),
    decreases entries,
{
    let ghost es = entries_of(entries@);
    let inner = deeper(ind, Ghost(level));
    proof {
        assert(es.take(0) =~= seq![]);
        assert(old(out)@ =~= old(out)@ + render_entries(es.take(0), level));
    }
    let mut i: usize = 0;
    while i < entries.len()
        invariant
            i <= entries@.len(),
            es == entries_of(entries@),
            ind@ == indent(level),
            inner@ == indent(level + 1),
            out@ == old(out)@ + render_entries(es.take(i as int), level),
        decreases entries@.len() - i,
    {
        let ghost before = out@;
        let (key, values) = &entries[i];
        let ghost vs = nodes_of(values@);
        out.append(ind);
        let q = safe_keyword(key);
        out.append(q.as_str());
        proof {
            assert(vs.take(0) =~= seq![]);
            assert(out@ =~= before + indent(level) + quoted(es[i as int].0) + render_nodes(
                vs.take(0),
                level + 1,
            ));
        }
        let mut j: usize = 0;
        while j < values.len()
            invariant
                i < entries@.len(),
                *values == entries@[i as int].1,
                j <= values@.len(),
                vs == nodes_of(values@),
                inner@ == indent(level + 1),
                out@ == before + indent(level) + quoted(es[i as int].0) + render_nodes(
                    vs.take(j as int),
                    level + 1,
                ),
            decreases values@.len() - j,
        {
            proof {
                lemma_render_nodes_take(vs, j as int, level + 1);
                assert(decreases_to!(*entries => entries@[i as int].1@[j as int]));
            }
            values[j].display(inner.as_str(), Ghost(level + 1), out);
            j = j + 1;
        }
        proof {
            reveal_strlit(";\n");
            reveal_strlit("\n");
            assert(vs.take(j as int) =~= vs);
            lemma_render_entries_take(es, i as int, level);
        }
        let n = values.len();
        if n > 0 && matches!(values[n - 1], Foam::Dimension(_)) {
            out.append("\n");
        } else {
            out.append(";\n");
        }
        i = i + 1;
    }
    proof {
        assert(es.take(i as int) =~= es);
    }
}

impl<'a> Foam<'a> {
    /// Appends the text of this node at nesting `level`, whose indentation is `ind`.
    fn display(&self, ind: &str, Ghost(level): Ghost<nat>, out: &mut String)
        requires
            ind@ == indent(level),
        ensures
            final(out)@ == old(out)@ + render_node(self@, level),
        decreases self,
    {
        let ghost start = out@;
        out.append(ind);
        match self {
            Foam::Value(value) => {
                let q = safe_keyword(value);
                out.append(q.as_str());
                out.append(" ");
                proof {
                    reveal_strlit(" ");
                }
            },
            Foam::List(values) => {
                let ghost vs = nodes_of(values@);
                let inner = deeper(ind, Ghost(level));
                out.append("(\n");
                proof {
                    reveal_strlit("(\n");
                    crate::tree::lemma_list_view(*values);
                    assert(vs.take(0) =~= seq![]);
                    assert(out@ =~= start + indent(level) + seq!['(', '\n'] + render_nodes(
                        vs.take(0),
                        level + 1,
                    ));
                }
                let mut j: usize = 0;
                while j < values.len()
                    invariant
                        *self == Foam::List(*values),
                        j <= values@.len(),
                        vs == nodes_of(values@),
                        inner@ == indent(level + 1),
                        out@ == start + indent(level) + seq!['(', '\n'] + render_nodes(
                            vs.take(j as int),
                            level + 1,
                        ),
                    decreases values@.len() - j,
                {
                    proof {
                        lemma_render_nodes_take(vs, j as int, level + 1);
                        assert(*self is List);
                        assert(self->List_0 == *values);
                        assert(decreases_to!(*self => self->List_0));
                        assert(decreases_to!(*values => values@));
                        assert(decreases_to!(values@ => values@[j as int]));
                    }
                    values[j].display(inner.as_str(), Ghost(level + 1), out);
                    j = j + 1;
                }
                proof {
                    assert(vs.take(j as int) =~= vs);
                }
                out.append("\n");
                out.append(ind);
                out.append(")");
                proof {
                    reveal_strlit("\n");
                    reveal_strlit(")");
                }
            },
            Foam::Dictionary(entries) => {
                proof {
                    crate::tree::lemma_dict_view(*entries);
                }
                let inner = deeper(ind, Ghost(level));
                out.append("{\n");
                write_entries(entries, inner.as_str(), Ghost(level + 1), out);
                out.append(ind);
                out.append("}");
                proof {
                    reveal_strlit("{\n");
                    reveal_strlit("}");
                }
            },
            Foam::Dimension(words) => {
                let ghost ws = Seq::new(words@.len(), |i: int| words@[i]@);
                out.append("[ ");
                proof {
                    reveal_strlit("[ ");
                    assert(ws.take(0) =~= seq![]);
                    assert(out@ =~= start + indent(level) + seq!['[', ' '] + render_words(
                        ws.take(0),
                    ));
                }
                let mut j: usize = 0;
                while j < words.len()
                    invariant
                        j <= words@.len(),
                        ws == Seq::new(words@.len(), |i: int| words@[i]@),
                        out@ == start + indent(level) + seq!['[', ' '] + render_words(
                            ws.take(j as int),
                        ),
                    decreases words@.len() - j,
                {
                    out.append(words[j]);
                    out.append(" ");
                    proof {
                        reveal_strlit(" ");
                        assert(ws.take(j + 1).drop_last() =~= ws.take(j as int));
                    }
                    j = j + 1;
                }
                proof {
                    assert(ws.take(j as int) =~= ws);
                }
                out.append("];");
                proof {
                    reveal_strlit("];");
                }
            },
        }
    }

    /// The text of this tree, which parses back to an equal tree (see
    /// `lemma_round_trip`).
    ///
    /// Root entries stand one per line as `key values;`; a nested dictionary
    /// is written as a braced block, a list as a parenthesised block and a
    /// dimension as `[ … ];`, each nesting level indented by three more
    /// spaces. Keys and values other than runs of keyword characters are
    /// quoted.
    pub fn render(&self) -> (r: String)
        ensures
            r@ == render(self@),
    {
        let mut out = String::new();
        let top = String::new();
        proof {
            assert(top@ =~= indent(0));
        }
        match self {
            Foam::Dictionary(entries) => {
                proof {
                    crate::tree::lemma_dict_view(*entries);
                }
                write_entries(entries, top.as_str(), Ghost(0), &mut out);
            },
            _ => {
                self.display(top.as_str(), Ghost(0), &mut out);
            },
        }
        proof {
            assert(out@ =~= render(self@));
        }
        out
    }
}

} // verus!
