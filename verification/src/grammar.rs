//! The grammar of the definition files, stated over sequences of characters.
//!
//! Every function here reads the text that is still to be parsed and says what
//! stands at its front. The executable parser is proved against these
//! definitions.

use vstd::prelude::*;

verus! {

/// A parsed element of a definition file.
pub enum Node {
    /// A bare word.
    Sym(Seq<char>),
    /// The text between two double quotes, escapes left as written.
    Str(Seq<char>),
    /// The elements between two parentheses, in source order.
    List(Seq<Node>),
}

/// Why a text is not a sequence of nodes.
#[derive(Debug, Clone, Copy, PartialEq, Eq, Structural)]
pub enum ParseErrorKind {
    /// A string or a list is never closed.
    Unclosed,
    /// Something that starts no node follows the last node.
    Trailing,
}

/// A failed parse: what went wrong, and the text that was left when it did.
pub struct Failure {
    pub kind: ParseErrorKind,
    pub rest: Seq<char>,
}

/// What stands at the front of a text where a node is looked for.
pub enum Step {
    /// A node, and the text after it.
    Done(Node, Seq<char>),
    /// No node starts here; the caller decides what that means.
    Miss,
    /// A node started here and can never be completed.
    Fail(Failure),
}

/// Whitespace that may separate nodes.
pub open spec fn is_space(c: char) -> bool {
    c == ' ' || c == '\t' || c == '\r' || c == '\n'
}

/// Characters that cannot occur in a symbol.
pub open spec fn is_delimiter(c: char) -> bool {
    c == '(' || c == ')' || c == '`' || c == '\'' || c == '"' || c == ' ' || c == '\t' || c == '\n'
        || c == '\x0C' || c == '\r'
}

/// The two prefixes that quote the node after them.
pub open spec fn is_quote(c: char) -> bool {
    c == '`' || c == '\''
}

/// The number of characters before the first line feed of `s`.
pub open spec fn line_len(s: Seq<char>) -> nat
    decreases s.len(),
{
    if s.len() == 0 || s[0] == '\n' {
        0
    } else {
        1 + line_len(s.drop_first())
    }
}

/// The length of the run of whitespace and comments that `s` begins with.
/// A comment runs from a semicolon up to, not including, the next line feed.
/// (The test on `k` only serves termination: by `lemma_line_len_bound` it
/// always holds.)
pub open spec fn blank_len(s: Seq<char>) -> nat
    decreases s.len(),
{
    if s.len() == 0 {
        0
    } else if is_space(s[0]) {
        1 + blank_len(s.drop_first())
    } else if s[0] == ';' {
        let k = 1 + line_len(s.drop_first());
        if k <= s.len() {
            k + blank_len(s.skip(k as int))
        } else {
            k
        }
    } else {
        0
    }
}

/// The length of the run of symbol characters that `s` begins with.
pub open spec fn symbol_len(s: Seq<char>) -> nat
    decreases s.len(),
{
    if s.len() == 0 || is_delimiter(s[0]) {
        0
    } else {
        1 + symbol_len(s.drop_first())
    }
}

/// How the text after an opening double quote reads.
pub enum Quoted {
    /// The closing quote stands after this many characters.
    Closed(nat),
    /// The text ends before any closing quote.
    Open,
    /// The text ends in a backslash that escapes nothing.
    Dangling,
}

/// Looks for the closing quote of a string whose content starts `s`. A
/// backslash and the character after it are passed over together, so an
/// escaped quote does not close the string.
pub open spec fn scan_quoted(s: Seq<char>) -> Quoted
    decreases s.len(),
{
    if s.len() == 0 {
        Quoted::Open
    } else if s[0] == '"' {
        Quoted::Closed(0)
    } else if s[0] == '\\' {
        if s.len() == 1 {
            Quoted::Dangling
        } else {
            match scan_quoted(s.skip(2)) {
                Quoted::Closed(k) => Quoted::Closed(k + 2),
                other => other,
            }
        }
    } else {
        match scan_quoted(s.drop_first()) {
            Quoted::Closed(k) => Quoted::Closed(k + 1),
            other => other,
        }
    }
}

/// The node that `s` begins with, after any whitespace and comments.
///
/// The alternatives are tried in this order: a string, a list, a quoted node,
/// a symbol. A string or a list that is opened and not closed fails the whole
/// parse; anything else that is no node is a `Miss`.
pub open spec fn node(s: Seq<char>) -> Step
    decreases s.len(), 0nat,
{
    let b = blank_len(s);
    if b >= s.len() {
        Step::Miss
    } else {
        let t = s.skip(b as int);
        let c = t[0];
        if c == '"' {
            match scan_quoted(t.drop_first()) {
                Quoted::Closed(k) => Step::Done(
                    Node::Str(t.subrange(1, 1 + k as int)),
                    t.skip(2 + k as int),
                ),
                Quoted::Open => Step::Fail(
                    Failure { kind: ParseErrorKind::Unclosed, rest: Seq::empty() },
                ),
                Quoted::Dangling => Step::Fail(
                    Failure { kind: ParseErrorKind::Unclosed, rest: t.drop_first() },
                ),
            }
        } else if c == '(' {
            match nodes(t.drop_first()) {
                Err(f) => Step::Fail(f),
                Ok((items, rest)) => {
                    let u = rest.skip(blank_len(rest) as int);
                    if blank_len(rest) < rest.len() && u[0] == ')' {
                        Step::Done(Node::List(items), u.drop_first())
                    } else {
                        Step::Fail(Failure { kind: ParseErrorKind::Unclosed, rest: u })
                    }
                },
            }
        } else if is_quote(c) {
            node(t.drop_first())
        } else if !is_delimiter(c) {
            let k = symbol_len(t);
            Step::Done(Node::Sym(t.take(k as int)), t.skip(k as int))
        } else {
            Step::Miss
        }
    }
}

/// The nodes that `s` begins with, as many as there are, and the text after
/// the last of them. (The test on the length of `rest` only serves
/// termination: by `lemma_node_advances` it always holds.)
pub open spec fn nodes(s: Seq<char>) -> Result<(Seq<Node>, Seq<char>), Failure>
    decreases s.len(), 1nat,
{
    match node(s) {
        Step::Miss => Ok((Seq::empty(), s)),
        Step::Fail(f) => Err(f),
        Step::Done(n, rest) => {
            if rest.len() < s.len() {
                match nodes(rest) {
                    Ok((more, end)) => Ok((seq![n] + more, end)),
                    Err(f) => Err(f),
                }
            } else {
                Ok((seq![n], rest))
            }
        },
    }
}

/// Puts `front` before the nodes of a result.
pub open spec fn prepend(
    front: Seq<Node>,
    r: Result<(Seq<Node>, Seq<char>), Failure>,
) -> Result<(Seq<Node>, Seq<char>), Failure> {
    match r {
        Ok((more, end)) => Ok((front + more, end)),
        Err(f) => Err(f),
    }
}

/// The nodes of a whole text: all of it must be nodes, whitespace and comments.
pub open spec fn document(s: Seq<char>) -> Result<Seq<Node>, Failure> {
    match nodes(s) {
        Err(f) => Err(f),
        Ok((items, rest)) => {
            let b = blank_len(rest);
            if b >= rest.len() {
                Ok(items)
            } else {
                Err(Failure { kind: ParseErrorKind::Trailing, rest: rest.skip(b as int) })
            }
        },
    }
}

/// A line is no longer than the text it starts.
pub proof fn lemma_line_len_bound(s: Seq<char>)
    ensures
        line_len(s) <= s.len(),
    decreases s.len(),
{
    if s.len() != 0 && s[0] != '\n' {
        lemma_line_len_bound(s.drop_first());
    }
}

/// The leading blank is no longer than the text.
pub proof fn lemma_blank_len_bound(s: Seq<char>)
    ensures
        blank_len(s) <= s.len(),
    decreases s.len(),
{
    if s.len() == 0 {
    } else if is_space(s[0]) {
        lemma_blank_len_bound(s.drop_first());
    } else if s[0] == ';' {
        lemma_line_len_bound(s.drop_first());
        let k = 1 + line_len(s.drop_first());
        lemma_blank_len_bound(s.skip(k as int));
    }
}

/// The leading symbol is no longer than the text.
pub proof fn lemma_symbol_len_bound(s: Seq<char>)
    ensures
        symbol_len(s) <= s.len(),
    decreases s.len(),
{
    if s.len() != 0 && !is_delimiter(s[0]) {
        lemma_symbol_len_bound(s.drop_first());
    }
}

/// A closing quote stands inside the text.
pub proof fn lemma_scan_quoted_bound(s: Seq<char>)
    ensures
        scan_quoted(s) matches Quoted::Closed(k) ==> k < s.len() && s[k as int] == '"',
    decreases s.len(),
{
    if s.len() == 0 || s[0] == '"' {
    } else if s[0] == '\\' {
        if s.len() > 1 {
            lemma_scan_quoted_bound(s.skip(2));
        }
    } else {
        lemma_scan_quoted_bound(s.drop_first());
    }
}

/// Moves the closing quote of a scan `n` characters to the right.
pub open spec fn shift(q: Quoted, n: nat) -> Quoted {
    match q {
        Quoted::Closed(k) => Quoted::Closed(k + n),
        other => other,
    }
}

/// Prepending in two steps prepends the concatenation.
pub proof fn lemma_prepend_twice(
    a: Seq<Node>,
    b: Seq<Node>,
    r: Result<(Seq<Node>, Seq<char>), Failure>,
)
    ensures
        prepend(a, prepend(b, r)) == prepend(a + b, r),
{
    if let Ok((more, end)) = r {
        assert(a + (b + more) =~= (a + b) + more);
    }
}

/// Whether `rest` is what remains of `s` after some of its front.
pub open spec fn is_tail_of(rest: Seq<char>, s: Seq<char>) -> bool {
    rest.len() <= s.len() && rest == s.skip(s.len() - rest.len())
}

/// What remains after skipping some characters is a tail.
pub proof fn lemma_skip_is_tail(s: Seq<char>, k: int)
    requires
        0 <= k <= s.len(),
    ensures
        is_tail_of(s.skip(k), s),
{
}

/// A tail of a tail is a tail.
pub proof fn lemma_tail_of_tail(a: Seq<char>, b: Seq<char>, c: Seq<char>)
    requires
        is_tail_of(a, b),
        is_tail_of(b, c),
    ensures
        is_tail_of(a, c),
{
    assert(a =~= c.skip(c.len() - a.len()));
}

/// A node takes at least one character, and leaves a tail of the text.
pub proof fn lemma_node_advances(s: Seq<char>)
    ensures
        node(s) matches Step::Done(_, rest) ==> rest.len() < s.len() && is_tail_of(rest, s),
    decreases s.len(), 0nat,
{
    lemma_blank_len_bound(s);
    let b = blank_len(s);
    if b < s.len() {
        let t = s.skip(b as int);
        let c = t[0];
        lemma_skip_is_tail(s, b as int);
        if c == '"' {
            lemma_scan_quoted_bound(t.drop_first());
            if let Quoted::Closed(k) = scan_quoted(t.drop_first()) {
                lemma_skip_is_tail(t, 2 + k as int);
                lemma_tail_of_tail(t.skip(2 + k as int), t, s);
            }
        } else if c == '(' {
            lemma_nodes_advance(t.drop_first());
            if let Ok((items, rest)) = nodes(t.drop_first()) {
                lemma_blank_len_bound(rest);
                let u = rest.skip(blank_len(rest) as int);
                if blank_len(rest) < rest.len() {
                    lemma_skip_is_tail(rest, blank_len(rest) as int);
                    lemma_skip_is_tail(u, 1);
                    lemma_skip_is_tail(t, 1);
                    lemma_tail_of_tail(u.drop_first(), u, rest);
                    lemma_tail_of_tail(u.drop_first(), rest, t.drop_first());
                    lemma_tail_of_tail(u.drop_first(), t.drop_first(), t);
                    lemma_tail_of_tail(u.drop_first(), t, s);
                }
            }
        } else if is_quote(c) {
            lemma_node_advances(t.drop_first());
            if let Step::Done(_, rest) = node(t.drop_first()) {
                lemma_skip_is_tail(t, 1);
                lemma_tail_of_tail(rest, t.drop_first(), t);
                lemma_tail_of_tail(rest, t, s);
            }
        } else if !is_delimiter(c) {
            lemma_symbol_len_bound(t);
            lemma_skip_is_tail(t, symbol_len(t) as int);
            lemma_tail_of_tail(t.skip(symbol_len(t) as int), t, s);
        }
    }
}

/// A run of nodes leaves a tail of the text.
pub proof fn lemma_nodes_advance(s: Seq<char>)
    ensures
        nodes(s) matches Ok((_, rest)) ==> is_tail_of(rest, s),
    decreases s.len(), 1nat,
{
    lemma_node_advances(s);
    match node(s) {
        Step::Done(n, rest) => {
            lemma_nodes_advance(rest);
            if let Ok((_, end)) = nodes(rest) {
                lemma_tail_of_tail(end, rest, s);
            }
        },
        Step::Miss => {
            assert(s.skip(0) =~= s);
        },
        _ => {},
    }
}

} // verus!
