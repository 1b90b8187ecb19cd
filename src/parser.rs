//! Builds the tree from the tokens of a text.
//!
//! Each open dictionary or list is a scope on an explicit stack, so the depth
//! of nesting is bounded by memory rather than by the call stack. A scope
//! takes one token at a time, as the state machine below describes.
use vstd::prelude::*;

use crate::scanner::{lemma_lex_progress, tokens, Scanner, Tok, Token};
use crate::text::same_text;
use crate::tree::{entries_of, nodes_of, Failure, Foam, FoamError, Node};

verus! {

/// The model of an open scope.
pub enum Scope {
    /// A dictionary: the entries committed so far, and the key being read
    /// with the values gathered for it.
    Dict { entries: Seq<(Seq<char>, Seq<Node>)>, key: Option<Seq<char>>, values: Seq<Node> },
    /// A list and the items read so far.
    List { items: Seq<Node> },
}

pub open spec fn empty_dict() -> Scope {
    Scope::Dict { entries: seq![], key: None, values: seq![] }
}

/// Index of the first entry with `key`, or the number of entries when there is none.
pub open spec fn key_index<V>(entries: Seq<(Seq<char>, V)>, key: Seq<char>) -> nat
    decreases entries.len(),
{
    if entries.len() == 0 {
        0
    } else if entries[0].0 == key {
        0
    } else {
        1 + key_index(entries.drop_first(), key)
    }
}

/// Commits `values` under `key`: a new key goes last, a known key gets the
/// new values in its place.
pub open spec fn put_entry(
    entries: Seq<(Seq<char>, Seq<Node>)>,
    key: Seq<char>,
    values: Seq<Node>,
) -> Seq<(Seq<char>, Seq<Node>)> {
    let i = key_index(entries, key);
    if i < entries.len() {
        entries.update(i as int, (key, values))
    } else {
        entries.push((key, values))
    }
}

/// The entries of a dictionary scope once its pending key, if any, is committed.
pub open spec fn close_entries(
    entries: Seq<(Seq<char>, Seq<Node>)>,
    key: Option<Seq<char>>,
    values: Seq<Node>,
) -> Seq<(Seq<char>, Seq<Node>)> {
    match key {
        Some(k) => put_entry(entries, k, values),
        None => entries,
    }
}

pub open spec fn unexpected(token: &str, structure: &str) -> Failure {
    Failure::UnexpectedToken { token: token@, structure: structure@ }
}

/// Hands a finished node to the scope below it.
pub open spec fn attach(stack: Seq<Scope>, n: Node) -> Seq<Scope> {
    let below = stack.drop_last();
    match stack.last() {
        Scope::Dict { entries, key, values } => below.push(
            Scope::Dict { entries, key, values: values.push(n) },
        ),
        Scope::List { items } => below.push(Scope::List { items: items.push(n) }),
    }
}

/// What one token does to a dictionary scope `Dict { entries, key, values }`
/// on top of `below`.
pub open spec fn dict_transition(
    below: Seq<Scope>,
    entries: Seq<(Seq<char>, Seq<Node>)>,
    key: Option<Seq<char>>,
    values: Seq<Node>,
    tok: Tok,
) -> Result<Seq<Scope>, Failure> {
    let here = Scope::Dict { entries, key, values };
    match tok {
        Tok::Comment(_) | Tok::MultilineComment(_) => Ok(below.push(here)),
        Tok::ListEnd => Err(unexpected(")", "dictionary")),
        Tok::ListStart => if key is None {
            Err(unexpected("(", "dictionary"))
        } else {
            Ok(below.push(here).push(Scope::List { items: seq![] }))
        },
        Tok::DictStart => if key is None {
            Err(unexpected("{", "dictionary"))
        } else {
            Ok(below.push(here).push(empty_dict()))
        },
        Tok::End => match key {
            None => Err(unexpected(";", "dictionary")),
            Some(k) => Ok(
                below.push(
                    Scope::Dict { entries: put_entry(entries, k, values), key: None, values: seq![] },
                ),
            ),
        },
        Tok::Keyword(t) => match key {
            None => Ok(below.push(Scope::Dict { entries, key: Some(t), values })),
            Some(_) => Ok(below.push(Scope::Dict { entries, key, values: values.push(Node::Value(t)) })),
        },
        Tok::DictEnd => if below.len() == 0 {
            Err(Failure::InvalidDictEnd { token: "}"@ })
        } else {
            Ok(attach(below, Node::Dict(close_entries(entries, key, values))))
        },
    }
}

/// What one token does to a list scope `List { items }` on top of `below`.
pub open spec fn list_transition(below: Seq<Scope>, items: Seq<Node>, tok: Tok) -> Result<
    Seq<Scope>,
    Failure,
> {
    let here = Scope::List { items };
    match tok {
        Tok::Comment(_) | Tok::MultilineComment(_) => Ok(below.push(here)),
        Tok::DictEnd => Err(unexpected("}", "list")),
        Tok::End => Err(unexpected(";", "list")),
        Tok::Keyword(t) => Ok(below.push(Scope::List { items: items.push(Node::Value(t)) })),
        Tok::DictStart => Ok(below.push(here).push(empty_dict())),
        Tok::ListStart => Ok(below.push(here).push(Scope::List { items: seq![] })),
        Tok::ListEnd => if below.len() == 0 {
            Err(Failure::EndOfContent)
        } else {
            Ok(attach(below, Node::List(items)))
        },
    }
}

/// What one token does to the stack of open scopes.
pub open spec fn step(stack: Seq<Scope>, tok: Tok) -> Result<Seq<Scope>, Failure> {
    if stack.len() == 0 {
        Err(Failure::EndOfContent)
    } else {
        match stack.last() {
            Scope::Dict { entries, key, values } => dict_transition(
                stack.drop_last(),
                entries,
                key,
                values,
                tok,
            ),
            Scope::List { items } => list_transition(stack.drop_last(), items, tok),
        }
    }
}

/// The end of the input: only the root dictionary may be open; its pending
/// key, if any, is committed.
pub open spec fn finish(stack: Seq<Scope>) -> Result<Node, Failure> {
    if stack.len() == 1 {
        match stack[0] {
            Scope::Dict { entries, key, values } => Ok(Node::Dict(close_entries(entries, key, values))),
            Scope::List { .. } => Err(Failure::EndOfContent),
        }
    } else {
        Err(Failure::EndOfContent)
    }
}

/// Feeds `toks` to the stack of scopes; `failed` says whether the tokens
/// ended at text that is no token.
pub open spec fn run(toks: Seq<Tok>, failed: bool, stack: Seq<Scope>) -> Result<Node, Failure>
    decreases toks.len(),
{
    if toks.len() == 0 {
        if failed {
            Err(Failure::EndOfContent)
        } else {
            finish(stack)
        }
    } else {
        match step(stack, toks[0]) {
            Err(e) => Err(e),
            Ok(next) => run(toks.drop_first(), failed, next),
        }
    }
}

/// The result of parsing the text `s`.
pub open spec fn parse_text(s: Seq<char>) -> Result<Node, Failure> {
    run(tokens(s).0, tokens(s).1, seq![empty_dict()])
}

pub open spec fn is_comment(t: Tok) -> bool {
    t is Comment || t is MultilineComment
}

/// `toks` without its comment tokens.
pub open spec fn drop_comments(toks: Seq<Tok>) -> Seq<Tok>
    decreases toks.len(),
{
    if toks.len() == 0 {
        seq![]
    } else if is_comment(toks[0]) {
        drop_comments(toks.drop_first())
    } else {
        seq![toks[0]] + drop_comments(toks.drop_first())
    }
}

/// Comments are transparent: at any depth of nesting, the result is the same
/// with the comment tokens taken out.
pub proof fn lemma_comments_transparent(toks: Seq<Tok>, failed: bool, stack: Seq<Scope>)
    ensures
        run(toks, failed, stack) == run(drop_comments(toks), failed, stack),
    decreases toks.len(),
{
    if toks.len() > 0 {
        let rest = drop_comments(toks.drop_first());
        if is_comment(toks[0]) {
            if stack.len() > 0 {
                assert(stack.drop_last().push(stack.last()) =~= stack);
                lemma_comments_transparent(toks.drop_first(), failed, stack);
            } else if rest.len() > 0 {
                lemma_comments_transparent(toks.drop_first(), failed, stack);
            }
        } else {
            assert((seq![toks[0]] + rest)[0] == toks[0]);
            assert((seq![toks[0]] + rest).drop_first() =~= rest);
            if let Ok(next) = step(stack, toks[0]) {
                lemma_comments_transparent(toks.drop_first(), failed, next);
            }
        }
    }
}

/// An open scope while parsing.
enum Frame<'a> {
    Dict { entries: Vec<(&'a str, Vec<Foam<'a>>)>, key: Option<&'a str>, values: Vec<Foam<'a>> },
    List { items: Vec<Foam<'a>> },
}

impl<'a> View for Frame<'a> {
    type V = Scope;

    closed spec fn view(&self) -> Scope {
        match *self {
            Frame::Dict { entries, key, values } => Scope::Dict {
                entries: entries_of(entries@),
                key: match key {
                    Some(k) => Some(k@),
                    None => None,
                },
                values: nodes_of(values@),
            },
            Frame::List { items } => Scope::List { items: nodes_of(items@) },
        }
    }
}

spec fn scopes_of<'a>(stack: Seq<Frame<'a>>) -> Seq<Scope> {
    Seq::new(stack.len(), |i: int| stack[i]@)
}

proof fn lemma_scopes_push<'a>(stack: Seq<Frame<'a>>, f: Frame<'a>)
    ensures
        scopes_of(stack.push(f)) == scopes_of(stack).push(f@),
{
    assert(scopes_of(stack.push(f)) =~= scopes_of(stack).push(f@));
}

proof fn lemma_scopes_drop_last<'a>(stack: Seq<Frame<'a>>)
    requires
        stack.len() > 0,
    ensures
        scopes_of(stack.drop_last()) == scopes_of(stack).drop_last(),
        scopes_of(stack).last() == stack.last()@,
{
    assert(scopes_of(stack.drop_last()) =~= scopes_of(stack).drop_last());
}

proof fn lemma_nodes_push<'a>(v: Seq<Foam<'a>>, f: Foam<'a>)
    ensures
        nodes_of(v.push(f)) == nodes_of(v).push(f@),
{
    assert(nodes_of(v.push(f)) =~= nodes_of(v).push(f@));
}

/// Commits `values` under `key`, as `put_entry` describes.
fn insert_entry<'a>(entries: &mut Vec<(&'a str, Vec<Foam<'a>>)>, key: &'a str, values: Vec<Foam<'a>>)
    ensures
        entries_of(final(entries)@) == put_entry(entries_of(old(entries)@), key@, nodes_of(values@)),
{
    let ghost es = entries_of(entries@);
    let mut i: usize = 0;
    proof {
        assert(es.skip(0) =~= es);
    }
    while i < entries.len()
        invariant
            i <= entries@.len(),
            entries@ == old(entries)@,
            es == entries_of(entries@),
            key_index(es, key@) == i + key_index(es.skip(i as int), key@),
        decreases entries@.len() - i,
    {
        proof {
            assert(es.skip(i as int).drop_first() =~= es.skip(i + 1));
            assert(es.skip(i as int)[0] == es[i as int]);
        }
        if same_text(entries[i].0, key) {
            proof {
                assert(es[i as int].0 == key@);
                assert(key_index(es, key@) == i);
                assert(es.update(i as int, (key@, nodes_of(values@))) =~= entries_of(
                    entries@.update(i as int, (key, values)),
                ));
            }
            entries.set(i, (key, values));
            return;
        }
        i = i + 1;
    }
    proof {
        assert(es.skip(i as int).len() == 0);
        assert(es.push((key@, nodes_of(values@))) =~= entries_of(entries@.push((key, values))));
    }
    entries.push((key, values));
}

/// Hands a finished node to the scope on top of `stack`.
fn attach_node<'a>(stack: &mut Vec<Frame<'a>>, node: Foam<'a>)
    requires
        old(stack)@.len() > 0,
    ensures
        scopes_of(final(stack)@) == attach(scopes_of(old(stack)@), node@),
{
    let ghost old_stack = stack@;
    proof {
        lemma_scopes_drop_last(stack@);
    }
    let parent = stack.pop().unwrap();
    match parent {
        Frame::Dict { entries, key, mut values } => {
            proof {
                lemma_nodes_push(values@, node);
            }
            values.push(node);
            proof {
                lemma_scopes_push(stack@, Frame::Dict { entries, key, values });
            }
            stack.push(Frame::Dict { entries, key, values });
        },
        Frame::List { mut items } => {
            proof {
                lemma_nodes_push(items@, node);
            }
            items.push(node);
            proof {
                lemma_scopes_push(stack@, Frame::List { items });
            }
            stack.push(Frame::List { items });
        },
    }
}

/// The empty dictionary scope.
fn new_dict<'a>() -> (f: Frame<'a>)
    ensures
        f@ == empty_dict(),
{
    let f = Frame::Dict { entries: Vec::new(), key: None, values: Vec::new() };
    proof {
        assert(entries_of(Seq::<(&'a str, Vec<Foam<'a>>)>::empty()) =~= seq![]);
        assert(nodes_of(Seq::<Foam<'a>>::empty()) =~= seq![]);
    }
    f
}

/// The empty list scope.
fn new_list<'a>() -> (f: Frame<'a>)
    ensures
        f@ == (Scope::List { items: seq![] }),
{
    let f = Frame::List { items: Vec::new() };
    proof {
        assert(nodes_of(Seq::<Foam<'a>>::empty()) =~= seq![]);
    }
    f
}

/// Pushes `f` on the stack, keeping the model in step.
fn push_frame<'a>(stack: &mut Vec<Frame<'a>>, f: Frame<'a>)
    ensures
        scopes_of(final(stack)@) == scopes_of(old(stack)@).push(f@),
{
    proof {
        lemma_scopes_push(stack@, f);
    }
    stack.push(f);
}

/// One token in a dictionary scope whose frame was taken off `stack`.
fn dict_step<'a>(
    stack: &mut Vec<Frame<'a>>,
    mut entries: Vec<(&'a str, Vec<Foam<'a>>)>,
    key: Option<&'a str>,
    mut values: Vec<Foam<'a>>,
    tok: Token<'a>,
) -> (r: Result<(), FoamError<'a>>)
    ensures
        match dict_transition(
            scopes_of(old(stack)@),
            entries_of(entries@),
            match key {
                Some(k) => Some(k@),
                None => None,
            },
            nodes_of(values@),
            tok@,
        ) {
            Ok(next) => r is Ok && scopes_of(final(stack)@) == next,
            Err(e) => r matches Err(x) && x@ == e,
        },
{
    match tok {
        Token::Comment(_) | Token::MultilineComment(_) => {
            push_frame(stack, Frame::Dict { entries, key, values });
            Ok(())
        },
        Token::ListEnd => Err(FoamError::UnexpectedToken { token: ")", structure: "dictionary" }),
        Token::ListStart => {
            if key.is_none() {
                return Err(FoamError::UnexpectedToken { token: "(", structure: "dictionary" });
            }
            push_frame(stack, Frame::Dict { entries, key, values });
            push_frame(stack, new_list());
            Ok(())
        },
        Token::DictStart => {
            if key.is_none() {
                return Err(FoamError::UnexpectedToken { token: "{", structure: "dictionary" });
            }
            push_frame(stack, Frame::Dict { entries, key, values });
            push_frame(stack, new_dict());
            Ok(())
        },
        Token::End => match key {
            None => Err(FoamError::UnexpectedToken { token: ";", structure: "dictionary" }),
            Some(k) => {
                insert_entry(&mut entries, k, values);
                let f = Frame::Dict { entries, key: None, values: Vec::new() };
                proof {
                    assert(nodes_of(Seq::<Foam<'a>>::empty()) =~= seq![]);
                }
                push_frame(stack, f);
                Ok(())
            },
        },
        Token::Keyword(t) => match key {
            None => {
                push_frame(stack, Frame::Dict { entries, key: Some(t), values });
                Ok(())
            },
            Some(_) => {
                proof {
                    lemma_nodes_push(values@, Foam::Value(t));
                }
                values.push(Foam::Value(t));
                push_frame(stack, Frame::Dict { entries, key, values });
                Ok(())
            },
        },
        Token::DictEnd => {
            if stack.len() == 0 {
                return Err(FoamError::InvalidDictEnd { token: "}" });
            }
            if let Some(k) = key {
                insert_entry(&mut entries, k, values);
            }
            proof {
                crate::tree::lemma_dict_view(entries);
            }
            attach_node(stack, Foam::Dictionary(entries));
            Ok(())
        },
    }
}

/// One token in a list scope whose frame was taken off `stack`.
fn list_step<'a>(stack: &mut Vec<Frame<'a>>, mut items: Vec<Foam<'a>>, tok: Token<'a>) -> (r: Result<
    (),
    FoamError<'a>,
>)
    ensures
        match list_transition(scopes_of(old(stack)@), nodes_of(items@), tok@) {
            Ok(next) => r is Ok && scopes_of(final(stack)@) == next,
            Err(e) => r matches Err(x) && x@ == e,
        },
{
    match tok {
        Token::Comment(_) | Token::MultilineComment(_) => {
            push_frame(stack, Frame::List { items });
            Ok(())
        },
        Token::DictEnd => Err(FoamError::UnexpectedToken { token: "}", structure: "list" }),
        Token::End => Err(FoamError::UnexpectedToken { token: ";", structure: "list" }),
        Token::Keyword(t) => {
            proof {
                lemma_nodes_push(items@, Foam::Value(t));
            }
            items.push(Foam::Value(t));
            push_frame(stack, Frame::List { items });
            Ok(())
        },
        Token::DictStart => {
            push_frame(stack, Frame::List { items });
            push_frame(stack, new_dict());
            Ok(())
        },
        Token::ListStart => {
            push_frame(stack, Frame::List { items });
            push_frame(stack, new_list());
            Ok(())
        },
        Token::ListEnd => {
            if stack.len() == 0 {
                return Err(FoamError::EndOfContent);
            }
            proof {
                crate::tree::lemma_list_view(items);
            }
            attach_node(stack, Foam::List(items));
            Ok(())
        },
    }
}

/// One token on the stack of open scopes.
fn feed<'a>(stack: &mut Vec<Frame<'a>>, tok: Token<'a>) -> (r: Result<(), FoamError<'a>>)
    ensures
        match step(scopes_of(old(stack)@), tok@) {
            Ok(next) => r is Ok && scopes_of(final(stack)@) == next,
            Err(e) => r matches Err(x) && x@ == e,
        },
{
    proof {
        if stack@.len() > 0 {
            lemma_scopes_drop_last(stack@);
        }
    }
    match stack.pop() {
        None => Err(FoamError::EndOfContent),
        Some(Frame::Dict { entries, key, values }) => dict_step(stack, entries, key, values, tok),
        Some(Frame::List { items }) => list_step(stack, items, tok),
    }
}

/// The end of the input.
fn close<'a>(stack: &mut Vec<Frame<'a>>) -> (r: Result<Foam<'a>, FoamError<'a>>)
    ensures
        match finish(scopes_of(old(stack)@)) {
            Ok(n) => r matches Ok(f) && f@ == n,
            Err(e) => r matches Err(x) && x@ == e,
        },
{
    if stack.len() != 1 {
        return Err(FoamError::EndOfContent);
    }
    proof {
        lemma_scopes_drop_last(stack@);
    }
    match stack.pop() {
        Some(Frame::Dict { mut entries, key, values }) => {
            if let Some(k) = key {
                insert_entry(&mut entries, k, values);
            }
            proof {
                crate::tree::lemma_dict_view(entries);
            }
            Ok(Foam::Dictionary(entries))
        },
        _ => Err(FoamError::EndOfContent),
    }
}

impl<'a> Foam<'a> {
    /// Parses `content` into its root dictionary.
    ///
    /// Succeeds exactly when `parse_text` does, with the tree it describes;
    /// otherwise fails with the error it describes, and parsing stops at the
    /// first error. Text that is no token, and input that ends inside a list
    /// or a nested dictionary, give `EndOfContent`; a token that the open
    /// scope cannot take gives `UnexpectedToken`; a `}` with no dictionary
    /// open gives `InvalidDictEnd`. At the end of the input a last entry of
    /// the root dictionary is committed even without its `;`.
    pub fn parse(content: &'a str) -> (r: Result<Foam<'a>, FoamError<'a>>)
        ensures
            match parse_text(content@) {
                Ok(n) => r matches Ok(f) && f@ == n,
                Err(e) => r matches Err(x) && x@ == e,
            },
    {
        let mut scanner = Scanner::new(content);
        let mut stack: Vec<Frame<'a>> = Vec::new();
        push_frame(&mut stack, new_dict());
        proof {
            assert(scopes_of(Seq::<Frame<'a>>::empty()).push(empty_dict()) =~= seq![empty_dict()]);
        }
        loop
            invariant
                scanner.wf(),
                run(tokens(scanner.rest()).0, tokens(scanner.rest()).1, scopes_of(stack@))
                    == parse_text(content@),
            decreases scanner.rest().len(),
        {
            let ghost before = scanner.rest();
            proof {
                lemma_lex_progress(before);
            }
            match scanner.next() {
                None => {
                    return close(&mut stack);
                },
                Some(Err(_)) => {
                    return Err(FoamError::EndOfContent);
                },
                Some(Ok(tok)) => {
                    proof {
                        let ts = tokens(before).0;
                        assert(ts.drop_first() =~= tokens(scanner.rest()).0);
                    }
                    let r = feed(&mut stack, tok);
                    if let Err(e) = r {
                        return Err(e);
                    }
                },
            }
        }
    }
}

} // verus!
