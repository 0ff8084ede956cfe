//! Symbolic expressions: the parsed form of a definition file.

use vstd::prelude::*;
use vstd::slice::*;
use vstd::string::*;
use crate::grammar::{document, Failure, Node, ParseErrorKind};
use crate::reader::{read_nodes, skip_blank};
use crate::text::lemma_encode_injective;

verus! {

/// A node of a parsed text. Symbols and strings borrow from the text.
#[derive(Debug, PartialEq)]
pub enum SExpr<'a> {
    Sym(&'a str),
    Str(&'a str),
    List(Vec<SExpr<'a>>),
}

impl<'a> View for SExpr<'a> {
    type V = Node;

    open spec fn view(&self) -> Node
        decreases self,
    {
        match self {
            SExpr::Sym(s) => Node::Sym(s@),
            SExpr::Str(s) => Node::Str(s@),
            SExpr::List(items) => Node::List(
                Seq::new(
                    items@.len(),
                    |i: int|
                        if 0 <= i < items@.len() {
                            items@[i]@
                        } else {
                            Node::List(Seq::empty())
                        },
                ),
            ),
        }
    }
}

/// Why a text did not parse, and the text that was left when parsing stopped.
#[derive(Debug, PartialEq)]
pub struct ParseError<'a> {
    pub kind: ParseErrorKind,
    pub rest: &'a str,
}

impl<'a> View for ParseError<'a> {
    type V = Failure;

    open spec fn view(&self) -> Failure {
        Failure { kind: self.kind, rest: self.rest@ }
    }
}

/// A list stands for the list of what its elements stand for.
pub proof fn lemma_list_view<'a>(items: Vec<SExpr<'a>>)
    ensures
        SExpr::List(items)@ == Node::List(views(items@)),
{
    assert(SExpr::List(items)@.items()->0 =~= views(items@));
}

/// The nodes that a sequence of expressions stands for.
pub open spec fn views<'a>(items: Seq<SExpr<'a>>) -> Seq<Node> {
    Seq::new(items.len(), |i: int| items[i]@)
}

impl Node {
    /// The text of a symbol or of a string.
    pub open spec fn text(self) -> Option<Seq<char>> {
        match self {
            Node::Sym(s) => Some(s),
            Node::Str(s) => Some(s),
            Node::List(_) => None,
        }
    }

    /// The elements of a list.
    pub open spec fn items(self) -> Option<Seq<Node>> {
        match self {
            Node::List(items) => Some(items),
            _ => None,
        }
    }

    /// The arguments of a keyword form: what follows the first element of a
    /// list whose first element is the symbol `name`.
    pub open spec fn args_if_named(self, name: Seq<char>) -> Option<Seq<Node>> {
        match self {
            Node::List(items) => if items.len() > 0 && items[0] == Node::Sym(name) {
                Some(items.skip(1))
            } else {
                None
            },
            _ => None,
        }
    }
}

/// Whether two texts are the same, character by character.
pub fn same_text(a: &str, b: &str) -> (same: bool)
    ensures
        same == (a@ == b@),
{
    let x = a.as_bytes();
    let y = b.as_bytes();
    if x.len() != y.len() {
        return false;
    }
    let mut i: usize = 0;
    while i < x.len()
        invariant
            i <= x.len(),
            x.len() == y.len(),
            x@ == a.spec_bytes(),
            y@ == b.spec_bytes(),
            forall|j: int| 0 <= j < i ==> x@[j] == y@[j],
        decreases x.len() - i,
    {
        if x[i] != y[i] {
            return false;
        }
        i += 1;
    }
    proof {
        assert(x@ =~= y@);
        lemma_encode_injective(a@, b@);
    }
    true
}

impl<'a> SExpr<'a> {
    /// The elements, if this is a list.
    pub fn as_list(&self) -> (r: Option<&[SExpr<'a>]>)
        ensures
            match *self {
                SExpr::List(items) => r matches Some(l) && l@ == items@,
                _ => r is None,
            },
            match r {
                Some(l) => self@.items() == Some(views(l@)),
                None => self@.items() is None,
            },
    {
        match self {
            SExpr::List(list) => Some(list.as_slice()),
            _ => None,
        }
    }

    /// The arguments, if this is a keyword form with the tag `name`: a list
    /// whose first element is the symbol `name`.
    pub fn if_named(&self, name: &str) -> (r: Option<&[SExpr<'a>]>)
        ensures
            match r {
                Some(args) => self@.args_if_named(name@) == Some(views(args@))
                    && (*self matches SExpr::List(items) && args@ == items@.skip(1)),
                None => self@.args_if_named(name@) is None,
            },
    {
        match self {
            SExpr::List(list) => {
                if list.len() == 0 {
                    return None;
                }
                assert(self@.items()->0[0] == list@[0]@);
                match &list[0] {
                    SExpr::Sym(tag) => {
                        if same_text(tag, name) {
                            let args = slice_subrange(list.as_slice(), 1, list.len());
                            assert(views(args@) =~= self@.items()->0.skip(1));
                            Some(args)
                        } else {
                            None
                        }
                    },
                    _ => None,
                }
            },
            _ => None,
        }
    }

    /// The elements by value, if this is a list.
    pub fn into_list(self) -> (r: Option<Vec<SExpr<'a>>>)
        ensures
            match self {
                SExpr::List(items) => r == Some(items),
                _ => r is None,
            },
            match r {
                Some(l) => self@.items() == Some(views(l@)),
                None => self@.items() is None,
            },
    {
        match self {
            SExpr::List(list) => Some(list),
            _ => None,
        }
    }

    /// The text, if this is a symbol or a string.
    pub fn as_str(&self) -> (r: Option<&'a str>)
        ensures
            match r {
                Some(s) => self@.text() == Some(s@),
                None => self@.text() is None,
            },
            match *self {
                SExpr::Sym(s) => r == Some(s),
                SExpr::Str(s) => r == Some(s),
                SExpr::List(_) => r is None,
            },
    {
        match self {
            SExpr::Str(s) => Some(s),
            SExpr::Sym(s) => Some(s),
            _ => None,
        }
    }
}

/// The message for a failure of the given kind with the text `rest` left:
/// what `nom` displays for a failure at `rest`, with the error kind `Char`
/// for `Unclosed` and `Eof` for `Trailing`.
pub uninterp spec fn failure_text(kind: ParseErrorKind, rest: Seq<char>) -> Seq<char>;

/// Formats a failure with `nom`: builds the `nom::Err::Failure` that a `nom`
/// parser reports at `rest` and returns what its `Display` impl writes. The
/// contract only names that text; it is a function of the two arguments.
#[verifier::external_body]
fn render_failure(kind: ParseErrorKind, rest: &str) -> (text: String)
    ensures
        text@ == failure_text(kind, rest@),
{
    let code = match kind {
        ParseErrorKind::Unclosed => nom::error::ErrorKind::Char,
        ParseErrorKind::Trailing => nom::error::ErrorKind::Eof,
    };
    nom::Err::Failure(nom::error::Error::new(rest, code)).to_string()
}

impl<'a> ParseError<'a> {
    /// A description of the failure for people to read.
    pub fn message(&self) -> (text: String)
        ensures
            text@ == failure_text(self@.kind, self@.rest),
    {
        render_failure(self.kind, self.rest)
    }
}

/// Parses a whole text into its top-level expressions, or says where and why
/// it is not one.
pub fn parse_nodes<'a>(input: &'a str) -> (r: Result<Vec<SExpr<'a>>, ParseError<'a>>)
    ensures
        match r {
            Ok(items) => document(input@) == Ok::<Seq<Node>, Failure>(views(items@)),
            Err(e) => document(input@) == Err::<Seq<Node>, Failure>(e@),
        },
{
    match read_nodes(input) {
        Err(e) => Err(e),
        Ok((items, rest)) => {
            let left = skip_blank(rest);
            if left.is_empty() {
                Ok(items)
            } else {
                Err(ParseError { kind: ParseErrorKind::Trailing, rest: left })
            }
        },
    }
}

/// Parses a whole text into its top-level expressions. A text that is not a
/// sequence of expressions gives the message of its failure.
pub fn parse(input: &str) -> (r: Result<Vec<SExpr<'_>>, String>)
    ensures
        match r {
            Ok(items) => document(input@) == Ok::<Seq<Node>, Failure>(views(items@)),
            Err(text) => document(input@) matches Err(f) && text@ == failure_text(f.kind, f.rest),
        },
{
    match parse_nodes(input) {
        Ok(items) => Ok(items),
        Err(e) => Err(e.message()),
    }
}

} // verus!
