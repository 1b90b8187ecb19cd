//! The tree that parsing produces, its errors, and their mathematical models.
use vstd::prelude::*;

verus! {

/// A node of a parsed document.
///
/// The root of a document is always a `Dictionary` whose keys are the
/// top-level entries: `variable value;` is a dictionary mapping `variable`
/// to the single value `value`. The text of every node borrows from the
/// parsed input.
///
/// A dictionary keeps its entries in the order in which their keys first
/// appeared; keys are unique within one dictionary. When a key is declared
/// twice in one scope, the later declaration replaces the values of the
/// earlier one, and the key keeps its first position. Two dictionaries are
/// equal when they hold the same entries in the same order.
#[derive(Debug, PartialEq)]
pub enum Foam<'a> {
    /// Key/value-sequence pairs.
    Dictionary(Vec<(&'a str, Vec<Foam<'a>>)>),
    /// A single value.
    Value(&'a str),
    /// An ordered list of nodes.
    List(Vec<Foam<'a>>),
    /// A bracketed list of values used for dimensions.
    Dimension(Vec<&'a str>),
}

/// Errors of parsing and of looking things up in a tree.
#[derive(Debug, PartialEq)]
pub enum FoamError<'a> {
    /// The input ended inside a structure, or held text that is no token.
    EndOfContent,
    /// A key that carries no values where one was asked for.
    NoDictValues { name: &'a str },
    /// A `}` that closes no dictionary.
    InvalidDictEnd { token: &'a str },
    /// A token other than a keyword where a keyword was required.
    MissingKeyword { token: &'a str, start: usize, end: usize },
    /// A token that the structure being read cannot take at that point.
    UnexpectedToken { token: &'a str, structure: &'a str },
    /// A dictionary operation on a node that is not a dictionary.
    NotADictionary,
    /// A value operation on a node that is not a value.
    NotAValue,
    /// The requested key does not exist.
    NoSuchKey,
    /// No element of the requested kind among a key's values.
    NoSuchValue,
}

/// The mathematical model of a `Foam` node.
pub enum Node {
    Dict(Seq<(Seq<char>, Seq<Node>)>),
    Value(Seq<char>),
    List(Seq<Node>),
    Dim(Seq<Seq<char>>),
}

/// The mathematical model of a `FoamError`.
pub enum Failure {
    EndOfContent,
    NoDictValues { name: Seq<char> },
    InvalidDictEnd { token: Seq<char> },
    MissingKeyword { token: Seq<char>, start: nat, end: nat },
    UnexpectedToken { token: Seq<char>, structure: Seq<char> },
    NotADictionary,
    NotAValue,
    NoSuchKey,
    NoSuchValue,
}

/// The model of a node: the same shape, with each text as its characters.
pub open spec fn node_of<'a>(f: Foam<'a>) -> Node
    decreases f,
{
    match f {
        Foam::Dictionary(es) => Node::Dict(entries_of(es@)),
        Foam::Value(v) => Node::Value(v@),
        Foam::List(items) => Node::List(nodes_of(items@)),
        Foam::Dimension(ds) => Node::Dim(Seq::new(ds@.len(), |i: int| ds@[i]@)),
    }
}

/// The models of a sequence of nodes.
pub open spec fn nodes_of<'a>(v: Seq<Foam<'a>>) -> Seq<Node>
    decreases v,
{
    Seq::new(
        v.len(),
        |i: int|
            if 0 <= i < v.len() {
                node_of(v[i])
            } else {
                Node::List(seq![])
            },
    )
}

/// The model of a dictionary's entries.
pub open spec fn entries_of<'a>(es: Seq<(&'a str, Vec<Foam<'a>>)>) -> Seq<(Seq<char>, Seq<Node>)>
    decreases es,
{
    Seq::new(
        es.len(),
        |i: int|
            if 0 <= i < es.len() {
                (es[i].0@, nodes_of(es[i].1@))
            } else {
                (seq![], seq![])
            },
    )
}

impl<'a> View for Foam<'a> {
    type V = Node;

    open spec fn view(&self) -> Node {
        node_of(*self)
    }
}

impl<'a> View for FoamError<'a> {
    type V = Failure;

    open spec fn view(&self) -> Failure {
        match *self {
            FoamError::EndOfContent => Failure::EndOfContent,
            FoamError::NoDictValues { name } => Failure::NoDictValues { name: name@ },
            FoamError::InvalidDictEnd { token } => Failure::InvalidDictEnd { token: token@ },
            FoamError::MissingKeyword { token, start, end } => Failure::MissingKeyword {
                token: token@,
                start: start as nat,
                end: end as nat,
            },
            FoamError::UnexpectedToken { token, structure } => Failure::UnexpectedToken {
                token: token@,
                structure: structure@,
            },
            FoamError::NotADictionary => Failure::NotADictionary,
            FoamError::NotAValue => Failure::NotAValue,
            FoamError::NoSuchKey => Failure::NoSuchKey,
            FoamError::NoSuchValue => Failure::NoSuchValue,
        }
    }
}

/// The model of a dictionary node is the model of its entries.
pub proof fn lemma_dict_view<'a>(entries: Vec<(&'a str, Vec<Foam<'a>>)>)
    ensures
        Foam::Dictionary(entries)@ == Node::Dict(entries_of(entries@)),
{
}

/// The model of a list node is the model of its items.
pub proof fn lemma_list_view<'a>(items: Vec<Foam<'a>>)
    ensures
        Foam::List(items)@ == Node::List(nodes_of(items@)),
{
}

} // verus!
