//! The executable parser: each function reads the front of a `&str` and is
//! proved to find there what the grammar says.

use vstd::prelude::*;
use vstd::string::*;
use crate::grammar::{
    blank_len, lemma_node_advances, lemma_prepend_twice, line_len, node, nodes, prepend,
    scan_quoted, shift, symbol_len, Failure, Node, ParseErrorKind, Quoted, Step,
};
use crate::sexpr::{lemma_list_view, views, ParseError, SExpr};
use crate::text::{cut, offset_of, peek};

verus! {

const TAB: u8 = 0x09;

const LINE_FEED: u8 = 0x0A;

const FORM_FEED: u8 = 0x0C;

const CARRIAGE_RETURN: u8 = 0x0D;

const SPACE: u8 = 0x20;

const DOUBLE_QUOTE: u8 = 0x22;

const APOSTROPHE: u8 = 0x27;

const OPEN_PAREN: u8 = 0x28;

const CLOSE_PAREN: u8 = 0x29;

const SEMICOLON: u8 = 0x3B;

const BACKSLASH: u8 = 0x5C;

const BACKTICK: u8 = 0x60;

/// What `read_node` found at the front of a text.
pub enum Scan<'a> {
    Done(SExpr<'a>, &'a str),
    Miss,
    Fail(ParseError<'a>),
}

impl<'a> View for Scan<'a> {
    type V = Step;

    open spec fn view(&self) -> Step {
        match self {
            Scan::Done(e, rest) => Step::Done(e@, rest@),
            Scan::Miss => Step::Miss,
            Scan::Fail(e) => Step::Fail(e@),
        }
    }
}

/// What `read_quoted` found after an opening double quote.
pub enum QuotedText<'a> {
    /// The content, and the text after the closing quote.
    Closed(&'a str, &'a str),
    /// No closing quote; the text that is left, which is empty.
    Open(&'a str),
    Dangling,
}

fn is_space_byte(b: u8) -> (r: bool)
    ensures
        r == (b == SPACE || b == TAB || b == CARRIAGE_RETURN || b == LINE_FEED),
{
    b == SPACE || b == TAB || b == CARRIAGE_RETURN || b == LINE_FEED
}

fn is_delimiter_byte(b: u8) -> (r: bool)
    ensures
        r == (b == OPEN_PAREN || b == CLOSE_PAREN || b == BACKTICK || b == APOSTROPHE || b
            == DOUBLE_QUOTE || b == SPACE || b == TAB || b == LINE_FEED || b == FORM_FEED || b
            == CARRIAGE_RETURN),
{
    b == OPEN_PAREN || b == CLOSE_PAREN || b == BACKTICK || b == APOSTROPHE || b == DOUBLE_QUOTE
        || b == SPACE || b == TAB || b == LINE_FEED || b == FORM_FEED || b == CARRIAGE_RETURN
}

/// Drops the whitespace and the comments that `text` begins with.
pub fn skip_blank<'a>(text: &'a str) -> (rest: &'a str)
    ensures
        blank_len(text@) <= text@.len(),
        rest@ == text@.skip(blank_len(text@) as int),
{
    let mut at: usize = 0;
    let ghost mut n: int = 0;
    proof {
        assert(text@.skip(0) =~= text@);
        assert(text@.take(0) =~= Seq::<char>::empty());
    }
    loop
        invariant
            0 <= n <= text@.len(),
            at == offset_of(text@, n),
            blank_len(text@) == n + blank_len(text@.skip(n)),
        ensures
            0 <= n <= text@.len(),
            at == offset_of(text@, n),
            blank_len(text@) == n,
        decreases text@.len() - n,
    {
        let ghost here = text@.skip(n);
        match peek(text, at, Ghost(n)) {
            None => {
                break ;
            },
            Some((b, w)) => {
                assert(here[0] == text@[n]);
                if is_space_byte(b) {
                    proof {
                        assert(here.drop_first() =~= text@.skip(n + 1));
                        n = n + 1;
                    }
                    at = at + w;
                } else if b == SEMICOLON {
                    let ghost line = here.drop_first();
                    let ghost start = n + 1;
                    proof {
                        assert(line =~= text@.skip(n + 1));
                        n = n + 1;
                    }
                    at = at + w;
                    loop
                        invariant
                            0 <= start <= n <= text@.len(),
                            at == offset_of(text@, n),
                            line == text@.skip(start),
                            line_len(line) == (n - start) + line_len(text@.skip(n)),
                        ensures
                            start <= n <= text@.len(),
                            at == offset_of(text@, n),
                            line_len(line) == n - start,
                        decreases text@.len() - n,
                    {
                        match peek(text, at, Ghost(n)) {
                            None => {
                                break ;
                            },
                            Some((b2, w2)) => {
                                assert(text@.skip(n)[0] == text@[n]);
                                if b2 == LINE_FEED {
                                    break ;
                                }
                                proof {
                                    assert(text@.skip(n).drop_first() =~= text@.skip(n + 1));
                                    n = n + 1;
                                }
                                at = at + w2;
                            },
                        }
                    }
                    proof {
                        let k = 1 + line_len(line);
                        assert(here.skip(k as int) =~= text@.skip(n));
                    }
                } else {
                    break ;
                }
            },
        }
    }
    cut(text, at, Ghost(n)).1
}

/// Splits off the symbol characters that `text` begins with.
pub fn read_symbol<'a>(text: &'a str) -> (r: (&'a str, &'a str))
    ensures
        symbol_len(text@) <= text@.len(),
        r.0@ == text@.take(symbol_len(text@) as int),
        r.1@ == text@.skip(symbol_len(text@) as int),
{
    let mut at: usize = 0;
    let ghost mut n: int = 0;
    proof {
        assert(text@.skip(0) =~= text@);
        assert(text@.take(0) =~= Seq::<char>::empty());
    }
    loop
        invariant
            0 <= n <= text@.len(),
            at == offset_of(text@, n),
            symbol_len(text@) == n + symbol_len(text@.skip(n)),
        ensures
            0 <= n <= text@.len(),
            at == offset_of(text@, n),
            symbol_len(text@) == n,
        decreases text@.len() - n,
    {
        match peek(text, at, Ghost(n)) {
            None => {
                break ;
            },
            Some((b, w)) => {
                assert(text@.skip(n)[0] == text@[n]);
                if is_delimiter_byte(b) {
                    break ;
                }
                proof {
                    assert(text@.skip(n).drop_first() =~= text@.skip(n + 1));
                    n = n + 1;
                }
                at = at + w;
            },
        }
    }
    cut(text, at, Ghost(n))
}

/// Reads the content of a string up to its closing quote; `body` is the text
/// after the opening quote.
pub fn read_quoted<'a>(body: &'a str) -> (r: QuotedText<'a>)
    ensures
        match r {
            QuotedText::Closed(content, after) => {
                &&& scan_quoted(body@) matches Quoted::Closed(k)
                &&& k < body@.len()
                &&& content@ == body@.take(k as int)
                &&& after@ == body@.skip(k as int + 1)
            },
            QuotedText::Open(rest) => scan_quoted(body@) is Open && rest@ == Seq::<char>::empty(),
            QuotedText::Dangling => scan_quoted(body@) is Dangling,
        },
{
    let mut at: usize = 0;
    let ghost mut n: int = 0;
    proof {
        assert(body@.skip(0) =~= body@);
        assert(body@.take(0) =~= Seq::<char>::empty());
    }
    loop
        invariant
            0 <= n <= body@.len(),
            at == offset_of(body@, n),
            scan_quoted(body@) == shift(scan_quoted(body@.skip(n)), n as nat),
        decreases body@.len() - n,
    {
        let ghost here = body@.skip(n);
        match peek(body, at, Ghost(n)) {
            None => {
                let rest = cut(body, at, Ghost(n)).1;
                return QuotedText::Open(rest);
            },
            Some((b, w)) => {
                assert(here[0] == body@[n]);
                if b == DOUBLE_QUOTE {
                    let content = cut(body, at, Ghost(n)).0;
                    let after = cut(body, at + w, Ghost(n + 1)).1;
                    return QuotedText::Closed(content, after);
                } else if b == BACKSLASH {
                    match peek(body, at + w, Ghost(n + 1)) {
                        None => {
                            return QuotedText::Dangling;
                        },
                        Some((_, w2)) => {
                            proof {
                                assert(here.skip(2) =~= body@.skip(n + 2));
                                n = n + 2;
                            }
                            at = at + w + w2;
                        },
                    }
                } else {
                    proof {
                        assert(here.drop_first() =~= body@.skip(n + 1));
                        n = n + 1;
                    }
                    at = at + w;
                }
            },
        }
    }
}

/// Reads the node that `text` begins with.
pub fn read_node<'a>(text: &'a str) -> (r: Scan<'a>)
    ensures
        r@ == node(text@),
    decreases text@.len(), 0nat,
{
    let t = skip_blank(text);
    proof {
        assert(t@.take(0) =~= Seq::<char>::empty());
    }
    match peek(t, 0, Ghost(0)) {
        None => Scan::Miss,
        Some((b, w)) => {
            if b == DOUBLE_QUOTE {
                let body = cut(t, w, Ghost(1)).1;
                match read_quoted(body) {
                    QuotedText::Closed(content, after) => {
                        proof {
                            let k = scan_quoted(body@)->Closed_0;
                            assert(content@ =~= t@.subrange(1, 1 + k as int));
                            assert(after@ =~= t@.skip(2 + k as int));
                        }
                        Scan::Done(SExpr::Str(content), after)
                    },
                    QuotedText::Open(rest) => Scan::Fail(
                        ParseError { kind: ParseErrorKind::Unclosed, rest },
                    ),
                    QuotedText::Dangling => Scan::Fail(
                        ParseError { kind: ParseErrorKind::Unclosed, rest: body },
                    ),
                }
            } else if b == OPEN_PAREN {
                let inner = cut(t, w, Ghost(1)).1;
                match read_nodes(inner) {
                    Err(e) => Scan::Fail(e),
                    Ok((items, rest)) => {
                        let u = skip_blank(rest);
                        proof {
                            assert(u@.take(0) =~= Seq::<char>::empty());
                            lemma_list_view(items);
                        }
                        match peek(u, 0, Ghost(0)) {
                            None => Scan::Fail(
                                ParseError { kind: ParseErrorKind::Unclosed, rest: u },
                            ),
                            Some((b2, w2)) => {
                                if b2 == CLOSE_PAREN {
                                    let after = cut(u, w2, Ghost(1)).1;
                                    Scan::Done(SExpr::List(items), after)
                                } else {
                                    Scan::Fail(
                                        ParseError { kind: ParseErrorKind::Unclosed, rest: u },
                                    )
                                }
                            },
                        }
                    },
                }
            } else if b == BACKTICK || b == APOSTROPHE {
                read_node(cut(t, w, Ghost(1)).1)
            } else if !is_delimiter_byte(b) {
                let (name, rest) = read_symbol(t);
                Scan::Done(SExpr::Sym(name), rest)
            } else {
                Scan::Miss
            }
        },
    }
}

/// Reads the nodes that `text` begins with, as many as there are.
pub fn read_nodes<'a>(text: &'a str) -> (r: Result<(Vec<SExpr<'a>>, &'a str), ParseError<'a>>)
    ensures
        match r {
            Ok((items, rest)) => nodes(text@) == Ok::<(Seq<Node>, Seq<char>), Failure>(
                (views(items@), rest@),
            ),
            Err(e) => nodes(text@) == Err::<(Seq<Node>, Seq<char>), Failure>(e@),
        },
    decreases text@.len(), 1nat,
{
    let mut items: Vec<SExpr<'a>> = Vec::new();
    let mut cur = text;
    proof {
        assert(views(items@) + Seq::<Node>::empty() =~= Seq::<Node>::empty());
        assert(views(items@) =~= Seq::<Node>::empty());
        if let Ok((more, end)) = nodes(text@) {
            assert(Seq::<Node>::empty() + more =~= more);
        }
    }
    loop
        invariant
            cur@.len() <= text@.len(),
            nodes(text@) == prepend(views(items@), nodes(cur@)),
        decreases cur@.len(),
    {
        proof {
            lemma_node_advances(cur@);
        }
        match read_node(cur) {
            Scan::Miss => {
                proof {
                    assert(views(items@) + Seq::<Node>::empty() =~= views(items@));
                }
                return Ok((items, cur));
            },
            Scan::Fail(e) => {
                return Err(e);
            },
            Scan::Done(n, next) => {
                proof {
                    lemma_prepend_twice(views(items@), seq![n@], nodes(next@));
                    assert(views(items@.push(n)) =~= views(items@) + seq![n@]);
                }
                items.push(n);
                cur = next;
            },
        }
    }
}

} // verus!
