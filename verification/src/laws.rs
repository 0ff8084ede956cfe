//! Laws of the grammar and of the extraction, proved from their definitions.

use vstd::prelude::*;
use crate::extract::record_views;
use crate::grammar::{
    blank_len, document, is_quote, lemma_node_advances, node, nodes, Failure, Node,
    ParseErrorKind, Step,
};
use crate::{lists, Package};

verus! {

/// Extracting twice from the same text gives the same outcome: two results
/// that `parse_scm` may give for one text hold the same records in the same
/// order, or the same message.
pub proof fn law_extraction_repeats(
    file: Seq<char>,
    first: Result<Vec<Package<&str>>, String>,
    second: Result<Vec<Package<&str>>, String>,
)
    requires
        lists(file, first),
        lists(file, second),
    ensures
        match (first, second) {
            (Ok(a), Ok(b)) => record_views(a@) == record_views(b@),
            (Err(a), Err(b)) => a@ == b@,
            _ => false,
        },
{
}

/// A quote prefix changes nothing: the text `'s` or `` `s `` begins with the
/// node that `s` begins with.
pub proof fn law_quote_is_dropped(q: char, s: Seq<char>)
    requires
        is_quote(q),
    ensures
        node(seq![q] + s) == node(s),
{
    let t = seq![q] + s;
    assert(blank_len(t) == 0);
    assert(t.skip(0) =~= t);
    assert(t.drop_first() =~= s);
}

/// A quote prefix before the first node of a text changes nothing in what the
/// whole text parses to.
pub proof fn law_quoted_document(q: char, s: Seq<char>)
    requires
        is_quote(q),
        !(node(s) is Miss),
    ensures
        document(seq![q] + s) == document(s),
{
    law_quote_is_dropped(q, s);
    lemma_node_advances(s);
}

/// The character `c`, `n` times.
pub open spec fn repeat(c: char, n: nat) -> Seq<char> {
    Seq::new(n, |i: int| c)
}

/// Empty lists nested `n` deep, for `n` of at least one: `()`, `(())`, ...
pub open spec fn nest(n: nat) -> Node
    decreases n,
{
    if n <= 1 {
        Node::List(Seq::empty())
    } else {
        Node::List(seq![nest((n - 1) as nat)])
    }
}

/// `n` opening parentheses followed by `n` closing ones begin with the empty
/// lists nested `n` deep, whatever follows.
pub proof fn lemma_nested_lists(n: nat, rest: Seq<char>)
    requires
        n >= 1,
    ensures
        node(repeat('(', n) + repeat(')', n) + rest) == Step::Done(nest(n), rest),
    decreases n,
{
    let s = repeat('(', n) + repeat(')', n) + rest;
    let m = (n - 1) as nat;
    let after = seq![')'] + rest;
    let inner = repeat('(', m) + repeat(')', m) + after;
    assert(s[0] == '(');
    assert(blank_len(s) == 0);
    assert(s.skip(0) =~= s);
    assert(s.drop_first() =~= inner);
    assert(after[0] == ')');
    assert(blank_len(after) == 0);
    assert(after.skip(0) =~= after);
    assert(after.drop_first() =~= rest);
    assert(node(after) is Miss);
    assert(nodes(after) == Ok::<(Seq<Node>, Seq<char>), Failure>((Seq::empty(), after)));
    if m == 0 {
        assert(inner =~= after);
        assert(nodes(inner) == Ok::<(Seq<Node>, Seq<char>), Failure>((Seq::empty(), after)));
    } else {
        lemma_nested_lists(m, after);
        assert(seq![nest(m)] + Seq::<Node>::empty() =~= seq![nest(m)]);
        assert(nodes(inner) == Ok::<(Seq<Node>, Seq<char>), Failure>((seq![nest(m)], after)));
    }
}

/// Nesting depth: `n` opening parentheses followed by `n` closing ones parse,
/// for every `n`, to the empty lists nested `n` deep (to no node at all for
/// `n` of zero).
pub proof fn law_nested_lists_parse(n: nat)
    ensures
        document(repeat('(', n) + repeat(')', n)) == Ok::<Seq<Node>, Failure>(
            if n == 0 {
                Seq::empty()
            } else {
                seq![nest(n)]
            },
        ),
{
    let s = repeat('(', n) + repeat(')', n);
    let none = Seq::<char>::empty();
    assert(node(none) is Miss);
    assert(nodes(none) == Ok::<(Seq<Node>, Seq<char>), Failure>((Seq::empty(), none)));
    if n == 0 {
        assert(s =~= none);
    } else {
        lemma_nested_lists(n, none);
        assert(s + none =~= s);
        assert(seq![nest(n)] + Seq::<Node>::empty() =~= seq![nest(n)]);
    }
}

/// `n` opening parentheses followed by fewer closing ones begin with a list
/// that is never closed.
pub proof fn lemma_unclosed_lists(n: nat, k: nat)
    requires
        k < n,
    ensures
        node(repeat('(', n) + repeat(')', k)) == Step::Fail(
            Failure { kind: ParseErrorKind::Unclosed, rest: Seq::empty() },
        ),
    decreases n,
{
    let s = repeat('(', n) + repeat(')', k);
    let m = (n - 1) as nat;
    let inner = repeat('(', m) + repeat(')', k);
    let none = Seq::<char>::empty();
    assert(s[0] == '(');
    assert(blank_len(s) == 0);
    assert(s.skip(0) =~= s);
    assert(s.drop_first() =~= inner);
    assert(node(none) is Miss);
    assert(nodes(none) == Ok::<(Seq<Node>, Seq<char>), Failure>((Seq::empty(), none)));
    assert(none.skip(0) =~= none);
    let fail = Failure { kind: ParseErrorKind::Unclosed, rest: none };
    if k < m {
        lemma_unclosed_lists(m, k);
        assert(nodes(inner) == Err::<(Seq<Node>, Seq<char>), Failure>(fail));
    } else if m == 0 {
        assert(inner =~= none);
        assert(nodes(inner) == Ok::<(Seq<Node>, Seq<char>), Failure>((Seq::empty(), none)));
    } else {
        lemma_nested_lists(m, none);
        assert(inner + none =~= inner);
        assert(repeat('(', m) + repeat(')', m) + none =~= inner);
        assert(node(inner) == Step::Done(nest(m), none));
        assert(seq![nest(m)] + Seq::<Node>::empty() =~= seq![nest(m)]);
        assert(nodes(inner) == Ok::<(Seq<Node>, Seq<char>), Failure>((seq![nest(m)], none)));
    }
}

/// Nesting depth: a text of `n` opening parentheses that lacks one or more of
/// its closing ones does not parse.
pub proof fn law_unclosed_lists_fail(n: nat, k: nat)
    requires
        k < n,
    ensures
        document(repeat('(', n) + repeat(')', k)) == Err::<Seq<Node>, Failure>(
            Failure { kind: ParseErrorKind::Unclosed, rest: Seq::empty() },
        ),
{
    lemma_unclosed_lists(n, k);
}

} // verus!
