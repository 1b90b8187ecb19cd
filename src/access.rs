//! Looking up values in a parsed tree.
use vstd::prelude::*;

use crate::parser::key_index;
use crate::text::same_text;
use crate::tree::{entries_of, node_of, nodes_of, Failure, Foam, FoamError, Node};

verus! {

/// The values under `key` in `entries`; the first entry with that key wins.
pub open spec fn lookup(entries: Seq<(Seq<char>, Seq<Node>)>, key: Seq<char>) -> Option<Seq<Node>> {
    let i = key_index(entries, key);
    if i < entries.len() {
        Some(entries[i as int].1)
    } else {
        None
    }
}

/// What `get` gives for `key` on the node `n`.
pub open spec fn get_spec(n: Node, key: Seq<char>) -> Result<Seq<Node>, Failure> {
    match n {
        Node::Dict(entries) => match lookup(entries, key) {
            Some(values) => Ok(values),
            None => Err(Failure::NoSuchKey),
        },
        _ => Err(Failure::NotADictionary),
    }
}

/// Index of the first node in `v` that satisfies `p`, or `v.len()` when none does.
pub open spec fn first_where(v: Seq<Node>, p: spec_fn(Node) -> bool) -> nat
    decreases v.len(),
{
    if v.len() == 0 {
        0
    } else if p(v[0]) {
        0
    } else {
        1 + first_where(v.drop_first(), p)
    }
}

pub open spec fn is_value(n: Node) -> bool {
    n is Value
}

pub open spec fn is_list(n: Node) -> bool {
    n is List
}

pub open spec fn is_dict(n: Node) -> bool {
    n is Dict
}

/// What the `get_first_*` lookups give: the first of the values under `key`
/// that satisfies `p`.
pub open spec fn first_of_kind(n: Node, key: Seq<char>, p: spec_fn(Node) -> bool) -> Result<
    Node,
    Failure,
> {
    match get_spec(n, key) {
        Ok(values) => {
            let i = first_where(values, p);
            if i < values.len() {
                Ok(values[i as int])
            } else {
                Err(Failure::NoSuchValue)
            }
        },
        Err(e) => Err(e),
    }
}

proof fn lemma_first_where(v: Seq<Node>, p: spec_fn(Node) -> bool, i: int)
    requires
        0 <= i <= v.len(),
    ensures
        first_where(v, p) == i + first_where(v.skip(i), p) || first_where(v, p) < i,
        (forall|j: int| 0 <= j < i ==> !p(#[trigger] v[j])) ==> first_where(v, p) == i
            + first_where(v.skip(i), p),
    decreases i,
{
    if i > 0 {
        lemma_first_where(v.drop_first(), p, i - 1);
        assert(v.drop_first().skip(i - 1) =~= v.skip(i));
        if forall|j: int| 0 <= j < i ==> !p(#[trigger] v[j]) {
            assert(!p(v[0]));
            assert forall|j: int| 0 <= j < i - 1 implies !p(#[trigger] v.drop_first()[j]) by {
                assert(v.drop_first()[j] == v[j + 1]);
            }
        }
    } else {
        assert(v.skip(0) =~= v);
    }
}

proof fn lemma_first_where_hit(v: Seq<Node>, p: spec_fn(Node) -> bool)
    ensures
        first_where(v, p) <= v.len(),
        first_where(v, p) < v.len() ==> p(v[first_where(v, p) as int]),
    decreases v.len(),
{
    if v.len() > 0 && !p(v[0]) {
        lemma_first_where_hit(v.drop_first(), p);
    }
}

/// The kinds of node that the `get_first_*` lookups look for.
enum Kind {
    Value,
    List,
    Dict,
}

spec fn accepts(kind: Kind) -> spec_fn(Node) -> bool {
    match kind {
        Kind::Value => |n: Node| is_value(n),
        Kind::List => |n: Node| is_list(n),
        Kind::Dict => |n: Node| is_dict(n),
    }
}

/// Index of the first of `values` of the given kind, or its length.
fn find_first<'a>(values: &[Foam<'a>], kind: Kind) -> (i: usize)
    ensures
        i == first_where(nodes_of(values@), accepts(kind)),
{
    let ghost v = nodes_of(values@);
    let ghost p = accepts(kind);
    let mut i: usize = 0;
    while i < values.len()
        invariant
            i <= values@.len(),
            v == nodes_of(values@),
            p == accepts(kind),
            forall|j: int| 0 <= j < i ==> !p(#[trigger] v[j]),
        decreases values@.len() - i,
    {
        let hit = match (&values[i], &kind) {
            (Foam::Value(_), Kind::Value) => true,
            (Foam::List(_), Kind::List) => true,
            (Foam::Dictionary(_), Kind::Dict) => true,
            _ => false,
        };
        proof {
            assert(v[i as int] == node_of(values@[i as int]));
            assert(p(v[i as int]) == hit);
        }
        if hit {
            proof {
                lemma_first_where(v, p, i as int);
                assert(v.skip(i as int)[0] == v[i as int]);
            }
            return i;
        }
        i = i + 1;
    }
    proof {
        lemma_first_where(v, p, i as int);
    }
    i
}

impl<'a> Foam<'a> {
    /// The values under `key` when this node is a dictionary.
    ///
    /// Fails with `NotADictionary` on any other node, and with `NoSuchKey`
    /// when the key is absent.
    pub fn get(&self, key: &str) -> (r: Result<&[Foam<'a>], FoamError>)
        ensures
            match get_spec(self@, key@) {
                Ok(values) => r matches Ok(s) && nodes_of(s@) == values,
                Err(e) => r matches Err(x) && x@ == e,
            },
    {
        match self {
            Foam::Dictionary(inner) => {
                let ghost es = entries_of(inner@);
                let mut i: usize = 0;
                proof {
                    assert(es.skip(0) =~= es);
                }
                while i < inner.len()
                    invariant
                        i <= inner@.len(),
                        es == entries_of(inner@),
                        self@ == Node::Dict(es),
                        key_index(es, key@) == i + key_index(es.skip(i as int), key@),
                    decreases inner@.len() - i,
                {
                    proof {
                        assert(es.skip(i as int).drop_first() =~= es.skip(i + 1));
                        assert(es.skip(i as int)[0] == es[i as int]);
                    }
                    if same_text(inner[i].0, key) {
                        proof {
                            assert(self@ == Node::Dict(es));
                            assert(es[i as int].1 == nodes_of(inner@[i as int].1@));
                            assert(es[i as int].0 == key@);
                            assert(key_index(es, key@) == i);
                        }
                        return Ok(inner[i].1.as_slice());
                    }
                    i = i + 1;
                }
                Err(FoamError::NoSuchKey)
            },
            _ => Err(FoamError::NotADictionary),
        }
    }

    /// The first of the values under `key`.
    ///
    /// Fails as `get` does, and with `NoDictValues` when the key carries no
    /// values.
    pub fn get_first<'s>(&'s self, key: &'s str) -> (r: Result<&'s Foam<'a>, FoamError<'s>>)
        ensures
            match get_spec(self@, key@) {
                Ok(values) => if values.len() > 0 {
                    r matches Ok(f) && f@ == values[0]
                } else {
                    r matches Err(x) && x@ == Failure::NoDictValues { name: key@ }
                },
                Err(e) => r matches Err(x) && x@ == e,
            },
    {
        let values = self.get(key)?;
        if values.len() == 0 {
            return Err(FoamError::NoDictValues { name: key });
        }
        Ok(&values[0])
    }

    /// The first `Value` among the values under `key`; other kinds are skipped.
    ///
    /// Fails as `get` does, and with `NoSuchValue` when no value is there.
    pub fn get_first_value(&self, key: &str) -> (r: Result<&str, FoamError>)
        ensures
            match first_of_kind(self@, key@, |n: Node| is_value(n)) {
                Ok(n) => r matches Ok(t) && n == Node::Value(t@),
                Err(e) => r matches Err(x) && x@ == e,
            },
    {
        let values = self.get(key)?;
        let i = find_first(values, Kind::Value);
        proof {
            lemma_first_where_hit(nodes_of(values@), |n: Node| is_value(n));
        }
        if i < values.len() {
            if let Foam::Value(entry) = &values[i] {
                return Ok(entry);
            }
        }
        Err(FoamError::NoSuchValue)
    }

    /// The items of the first `List` among the values under `key`.
    ///
    /// Fails as `get` does, and with `NoSuchValue` when no list is there.
    pub fn get_first_list(&self, key: &str) -> (r: Result<&[Foam<'a>], FoamError>)
        ensures
            match first_of_kind(self@, key@, |n: Node| is_list(n)) {
                Ok(n) => r matches Ok(s) && n == Node::List(nodes_of(s@)),
                Err(e) => r matches Err(x) && x@ == e,
            },
    {
        let values = self.get(key)?;
        let i = find_first(values, Kind::List);
        proof {
            lemma_first_where_hit(nodes_of(values@), |n: Node| is_list(n));
        }
        if i < values.len() {
            if let Foam::List(entries) = &values[i] {
                return Ok(entries.as_slice());
            }
        }
        Err(FoamError::NoSuchValue)
    }

    /// The entries of the first `Dictionary` among the values under `key`.
    ///
    /// Fails as `get` does, and with `NoSuchValue` when no dictionary is there.
    pub fn get_first_dict(&self, key: &str) -> (r: Result<&Vec<(&'a str, Vec<Foam<'a>>)>, FoamError>)
        ensures
            match first_of_kind(self@, key@, |n: Node| is_dict(n)) {
                Ok(n) => r matches Ok(es) && n == Node::Dict(entries_of(es@)),
                Err(e) => r matches Err(x) && x@ == e,
            },
    {
        let values = self.get(key)?;
        let i = find_first(values, Kind::Dict);
        proof {
            lemma_first_where_hit(nodes_of(values@), |n: Node| is_dict(n));
        }
        if i < values.len() {
            if let Foam::Dictionary(entry) = &values[i] {
                return Ok(entry);
            }
        }
        Err(FoamError::NoSuchValue)
    }

    /// The entries of this node when it is a dictionary; `NotADictionary` otherwise.
    pub fn as_dict(&self) -> (r: Result<&Vec<(&'a str, Vec<Foam<'a>>)>, FoamError>)
        ensures
            match self@ {
                Node::Dict(entries) => r matches Ok(es) && entries_of(es@) == entries,
                _ => r matches Err(x) && x@ == Failure::NotADictionary,
            },
    {
        match self {
            Foam::Dictionary(inner) => Ok(inner),
            _ => Err(FoamError::NotADictionary),
        }
    }

    /// The text of this node when it is a value; `NotAValue` otherwise.
    pub fn as_value(&self) -> (r: Result<&'a str, FoamError>)
        ensures
            match self@ {
                Node::Value(t) => r matches Ok(v) && v@ == t,
                _ => r matches Err(x) && x@ == Failure::NotAValue,
            },
    {
        match self {
            Foam::Value(inner) => Ok(inner),
            _ => Err(FoamError::NotAValue),
        }
    }
}

} // verus!
