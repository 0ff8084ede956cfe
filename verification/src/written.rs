//! Ways of writing a tree down, and the law that each of them parses back to
//! the tree: whitespace, comments and quote prefixes at the boundaries of the
//! nodes change nothing.

use vstd::prelude::*;
use crate::grammar::{
    blank_len, document, is_delimiter, is_quote, is_space, lemma_blank_len_bound,
    lemma_node_advances, lemma_scan_quoted_bound, line_len, node, nodes, scan_quoted,
    symbol_len, Failure, Node, Quoted, Step,
};

verus! {

/// One way of writing a node down.
pub enum Form {
    /// A symbol, by its characters.
    Sym(Seq<char>),
    /// A string, by the characters between its quotes.
    Str(Seq<char>),
    /// A list: its elements, the padding before each of them, and the padding
    /// before the closing parenthesis.
    List { pads: Seq<Seq<char>>, forms: Seq<Form>, end: Seq<char> },
    /// A quote prefix, the padding after it, and what it quotes.
    Quoted { prefix: char, pad: Seq<char>, form: Box<Form> },
}

/// One way of writing a whole text down: its top-level nodes, the padding
/// before each of them, and what stands after the last.
pub struct Written {
    pub pads: Seq<Seq<char>>,
    pub forms: Seq<Form>,
    pub end: Seq<char>,
}

/// Padding: whitespace, and comments that run up to a line feed that is part
/// of the padding.
pub open spec fn is_padding(w: Seq<char>) -> bool
    decreases w.len(),
{
    if w.len() == 0 {
        true
    } else if is_space(w[0]) {
        is_padding(w.drop_first())
    } else if w[0] == ';' {
        let k = 1 + line_len(w.drop_first());
        k < w.len() && is_padding(w.skip(k as int))
    } else {
        false
    }
}

/// The first character of `s`, or `after` where `s` is empty.
pub open spec fn head(s: Seq<char>, after: Option<char>) -> Option<char> {
    if s.len() > 0 {
        Some(s[0])
    } else {
        after
    }
}

impl Form {
    /// The characters of this way of writing.
    pub open spec fn text(self) -> Seq<char>
        decreases self, 0nat,
    {
        match self {
            Form::Sym(t) => t,
            Form::Str(t) => seq!['"'] + t + seq!['"'],
            Form::List { pads, forms, end } => seq!['('] + run_text(pads, forms, 0) + end + seq![
                ')',
            ],
            Form::Quoted { prefix, pad, form } => seq![prefix] + pad + form.text(),
        }
    }

    /// The node that is written.
    pub open spec fn tree(self) -> Node
        decreases self, 0nat,
    {
        match self {
            Form::Sym(t) => Node::Sym(t),
            Form::Str(t) => Node::Str(t),
            Form::List { pads, forms, end } => Node::List(run_trees(forms, 0)),
            Form::Quoted { prefix, pad, form } => form.tree(),
        }
    }

    /// Whether the last character written belongs to a symbol, so that a
    /// symbol character after it would be read as part of that symbol.
    pub open spec fn ends_open(self) -> bool
        decreases self,
    {
        match self {
            Form::Sym(_) => true,
            Form::Quoted { prefix, pad, form } => form.ends_open(),
            _ => false,
        }
    }

    /// Whether this way of writing may stand before the character `next`, or
    /// at the end of the text where `next` is `None`.
    pub open spec fn may_precede(self, next: Option<char>) -> bool {
        self.ends_open() ==> (next matches Some(c) ==> is_delimiter(c))
    }

    /// Whether this is a way of writing a node: a symbol is a run of symbol
    /// characters that does not start a comment, the text of a string ends
    /// where the string is closed, padding is padding, and no symbol runs
    /// into what follows it.
    pub open spec fn well_formed(self) -> bool
        decreases self, 0nat,
    {
        match self {
            Form::Sym(t) => t.len() > 0 && t[0] != ';' && symbol_len(t) == t.len(),
            Form::Str(t) => scan_quoted(t + seq!['"']) == Quoted::Closed(t.len()),
            Form::List { pads, forms, end } => {
                &&& pads.len() == forms.len()
                &&& is_padding(end)
                &&& run_ok(pads, forms, 0, head(end, Some(')')))
            },
            Form::Quoted { prefix, pad, form } => {
                &&& is_quote(prefix)
                &&& is_padding(pad)
                &&& form.well_formed()
            },
        }
    }
}

/// The characters of the elements from index `i` on, each after its padding.
pub open spec fn run_text(pads: Seq<Seq<char>>, forms: Seq<Form>, i: int) -> Seq<char>
    decreases forms, forms.len() - i,
{
    if 0 <= i < forms.len() {
        pads[i] + forms[i].text() + run_text(pads, forms, i + 1)
    } else {
        Seq::empty()
    }
}

/// The nodes that the elements from index `i` on write.
pub open spec fn run_trees(forms: Seq<Form>, i: int) -> Seq<Node>
    decreases forms, forms.len() - i,
{
    if 0 <= i < forms.len() {
        seq![forms[i].tree()] + run_trees(forms, i + 1)
    } else {
        Seq::empty()
    }
}

/// Whether the elements from index `i` on are ways of writing nodes one
/// after the other, before the character `after`.
pub open spec fn run_ok(
    pads: Seq<Seq<char>>,
    forms: Seq<Form>,
    i: int,
    after: Option<char>,
) -> bool
    decreases forms, forms.len() - i,
{
    if 0 <= i < forms.len() {
        &&& is_padding(pads[i])
        &&& forms[i].well_formed()
        &&& forms[i].may_precede(head(run_text(pads, forms, i + 1), after))
        &&& run_ok(pads, forms, i + 1, after)
    } else {
        true
    }
}

impl Written {
    /// The characters of the text.
    pub open spec fn text(self) -> Seq<char> {
        run_text(self.pads, self.forms, 0) + self.end
    }

    /// The nodes that the text writes.
    pub open spec fn trees(self) -> Seq<Node> {
        run_trees(self.forms, 0)
    }

    /// Whether this is a way of writing a text: after the last node stand
    /// only whitespace and comments.
    pub open spec fn well_formed(self) -> bool {
        &&& self.pads.len() == self.forms.len()
        &&& blank_len(self.end) == self.end.len()
        &&& run_ok(self.pads, self.forms, 0, head(self.end, None))
    }
}

/// A line that ends inside a text is the same line when more text follows.
pub proof fn lemma_line_len_prefix(a: Seq<char>, b: Seq<char>)
    requires
        line_len(a) < a.len(),
    ensures
        line_len(a + b) == line_len(a),
    decreases a.len(),
{
    if a[0] != '\n' {
        lemma_line_len_prefix(a.drop_first(), b);
        assert((a + b).drop_first() =~= a.drop_first() + b);
    }
}

/// Padding before a text is skipped together with the blank that the text
/// begins with.
pub proof fn lemma_padding_skipped(w: Seq<char>, s: Seq<char>)
    requires
        is_padding(w),
    ensures
        blank_len(w + s) == w.len() + blank_len(s),
    decreases w.len(),
{
    if w.len() == 0 {
        assert(w + s =~= s);
    } else if is_space(w[0]) {
        lemma_padding_skipped(w.drop_first(), s);
        assert((w + s).drop_first() =~= w.drop_first() + s);
    } else {
        let k = 1 + line_len(w.drop_first());
        lemma_line_len_prefix(w.drop_first(), s);
        assert((w + s).drop_first() =~= w.drop_first() + s);
        lemma_padding_skipped(w.skip(k as int), s);
        assert((w + s).skip(k as int) =~= w.skip(k as int) + s);
    }
}

/// A run of symbol characters before a delimiter, or at the end of the text,
/// is a whole symbol.
pub proof fn lemma_symbol_prefix(t: Seq<char>, rest: Seq<char>)
    requires
        symbol_len(t) == t.len(),
        rest.len() > 0 ==> is_delimiter(rest[0]),
    ensures
        symbol_len(t + rest) == t.len(),
    decreases t.len(),
{
    if t.len() == 0 {
        assert(t + rest =~= rest);
    } else {
        lemma_symbol_prefix(t.drop_first(), rest);
        assert((t + rest).drop_first() =~= t.drop_first() + rest);
    }
}

/// The text of a string is closed by the quote after it, whatever follows.
pub proof fn lemma_quoted_prefix(t: Seq<char>, rest: Seq<char>)
    requires
        scan_quoted(t + seq!['"']) == Quoted::Closed(t.len()),
    ensures
        scan_quoted(t + seq!['"'] + rest) == Quoted::Closed(t.len()),
    decreases t.len(),
{
    let a = t + seq!['"'];
    let b = t + seq!['"'] + rest;
    if t.len() == 0 {
        assert(b[0] == '"');
    } else if t[0] == '"' {
        assert(a[0] == '"');
    } else if t[0] == '\\' {
        assert(a[0] == '\\');
        assert(b[0] == '\\');
        if t.len() == 1 {
            assert(a.skip(2) =~= Seq::<char>::empty());
        } else {
            assert(a.skip(2) =~= t.skip(2) + seq!['"']);
            assert(b.skip(2) =~= t.skip(2) + seq!['"'] + rest);
            lemma_quoted_prefix(t.skip(2), rest);
        }
    } else {
        assert(a[0] == t[0]);
        assert(b[0] == t[0]);
        assert(a.drop_first() =~= t.drop_first() + seq!['"']);
        assert(b.drop_first() =~= t.drop_first() + seq!['"'] + rest);
        lemma_quoted_prefix(t.drop_first(), rest);
    }
}

/// What a well-formed way of writing begins with is no blank.
pub proof fn lemma_form_starts(form: Form, rest: Seq<char>)
    requires
        form.well_formed(),
    ensures
        form.text().len() > 0,
        blank_len(form.text() + rest) == 0,
        (form.text() + rest)[0] == form.text()[0],
{
    let t = form.text();
    match form {
        Form::Sym(_) => {},
        Form::Str(_) => {
            assert(t[0] == '"');
        },
        Form::List { pads, forms, end } => {
            assert(t[0] == '(');
        },
        Form::Quoted { prefix, pad, form } => {
            assert(t[0] == prefix);
        },
    }
}

/// The node law: a well-formed way of writing a node, after any padding and
/// before any text that it may precede, is read as the node it writes, and
/// leaves that text.
pub proof fn law_form_reads_back(form: Form, pad: Seq<char>, rest: Seq<char>)
    requires
        form.well_formed(),
        is_padding(pad),
        form.may_precede(head(rest, None)),
    ensures
        node(pad + form.text() + rest) == Step::Done(form.tree(), rest),
    decreases form, 0nat,
{
    let s = pad + form.text() + rest;
    let t = form.text() + rest;
    lemma_form_starts(form, rest);
    lemma_padding_skipped(pad, t);
    assert(s =~= pad + t);
    assert(s.skip(pad.len() as int) =~= t);
    match form {
        Form::Sym(name) => {
            lemma_symbol_prefix(name, rest);
            assert(t.take(name.len() as int) =~= name);
            assert(t.skip(name.len() as int) =~= rest);
        },
        Form::Str(body) => {
            lemma_quoted_prefix(body, rest);
            assert(t.drop_first() =~= body + seq!['"'] + rest);
            assert(t.subrange(1, 1 + body.len() as int) =~= body);
            assert(t.skip(2 + body.len() as int) =~= rest);
        },
        Form::List { pads, forms, end } => {
            let close = seq![')'] + rest;
            let tail = end + close;
            lemma_padding_skipped(end, close);
            assert(close[0] == ')');
            assert(blank_len(close) == 0);
            assert(tail.skip(end.len() as int) =~= close);
            assert(node(tail) is Miss);
            assert(head(tail, None) == head(end, Some(')')));
            lemma_run_reads_back(pads, forms, 0, tail);
            assert(t.drop_first() =~= run_text(pads, forms, 0) + tail);
            assert(close.drop_first() =~= rest);
        },
        Form::Quoted { prefix, pad: inner_pad, form: inner } => {
            law_form_reads_back(*inner, inner_pad, rest);
            assert(t.drop_first() =~= inner_pad + inner.text() + rest);
        },
    }
}

/// The elements of a run, written one after the other before a text that
/// starts no node, are read as the nodes they write, and leave that text.
pub proof fn lemma_run_reads_back(
    pads: Seq<Seq<char>>,
    forms: Seq<Form>,
    i: int,
    tail: Seq<char>,
)
    requires
        pads.len() == forms.len(),
        0 <= i <= forms.len(),
        run_ok(pads, forms, i, head(tail, None)),
        node(tail) is Miss,
    ensures
        nodes(run_text(pads, forms, i) + tail) == Ok::<(Seq<Node>, Seq<char>), Failure>(
            (run_trees(forms, i), tail),
        ),
    decreases forms, forms.len() - i,
{
    let s = run_text(pads, forms, i) + tail;
    if i < forms.len() {
        let after = run_text(pads, forms, i + 1) + tail;
        assert(head(after, None) == head(run_text(pads, forms, i + 1), head(tail, None)));
        law_form_reads_back(forms[i], pads[i], after);
        assert(s =~= pads[i] + forms[i].text() + after);
        lemma_run_reads_back(pads, forms, i + 1, tail);
        lemma_node_advances(s);
    } else {
        assert(s =~= tail);
    }
}

/// The padding law, before a node: padding put before any text changes
/// nothing in the node that the text begins with, nor in what is left.
pub proof fn law_padding_before_node(pad: Seq<char>, s: Seq<char>)
    requires
        is_padding(pad),
    ensures
        node(pad + s) == node(s),
{
    lemma_padding_skipped(pad, s);
    lemma_blank_len_bound(s);
    let b = blank_len(s);
    if b < s.len() {
        assert((pad + s).skip(pad.len() + b as int) =~= s.skip(b as int));
    }
}

/// The padding law, before a text: padding put before any text changes
/// nothing in what the text parses to.
pub proof fn law_padding_before_text(pad: Seq<char>, s: Seq<char>)
    requires
        is_padding(pad),
    ensures
        document(pad + s) == document(s),
{
    law_padding_before_node(pad, s);
    lemma_node_advances(s);
    if node(s) is Miss {
        lemma_padding_skipped(pad, s);
        lemma_blank_len_bound(s);
        let b = blank_len(s);
        if b < s.len() {
            assert((pad + s).skip(pad.len() + b as int) =~= s.skip(b as int));
        }
    }
}

/// The padding law: however a sequence of nodes is written down, with
/// whatever whitespace, comments and quote prefixes at the boundaries of its
/// nodes, the text parses to those nodes.
pub proof fn law_written_text_reads_back(w: Written)
    requires
        w.well_formed(),
    ensures
        document(w.text()) == Ok::<Seq<Node>, Failure>(w.trees()),
{
    lemma_blank_len_bound(w.end);
    assert(node(w.end) is Miss);
    lemma_run_reads_back(w.pads, w.forms, 0, w.end);
}

/// The padding law, between two texts: two ways of writing the same nodes,
/// which differ only in padding and quote prefixes, parse alike.
pub proof fn law_padding_changes_nothing(a: Written, b: Written)
    requires
        a.well_formed(),
        b.well_formed(),
        a.trees() == b.trees(),
    ensures
        document(a.text()) == document(b.text()),
{
    law_written_text_reads_back(a);
    law_written_text_reads_back(b);
}

/// A line ends at a line feed or at the end of the text.
pub proof fn lemma_line_end(a: Seq<char>)
    ensures
        line_len(a) <= a.len(),
        line_len(a) < a.len() ==> a[line_len(a) as int] == '\n',
    decreases a.len(),
{
    if a.len() != 0 && a[0] != '\n' {
        lemma_line_end(a.drop_first());
    }
}

/// A line that ends inside the first `m` characters is the line of those.
pub proof fn lemma_line_len_take(a: Seq<char>, m: int)
    requires
        line_len(a) < m <= a.len(),
    ensures
        line_len(a.take(m)) == line_len(a),
    decreases a.len(),
{
    if a[0] != '\n' {
        lemma_line_len_take(a.drop_first(), m - 1);
        assert(a.take(m).drop_first() =~= a.drop_first().take(m - 1));
    }
}

/// The blank that a text begins with, where something follows it, is padding,
/// and what follows begins with no blank.
pub proof fn lemma_blank_is_padding(s: Seq<char>)
    requires
        blank_len(s) < s.len(),
    ensures
        is_padding(s.take(blank_len(s) as int)),
        !is_space(s[blank_len(s) as int]),
        s[blank_len(s) as int] != ';',
    decreases s.len(),
{
    let b = blank_len(s) as int;
    let w = s.take(b);
    if is_space(s[0]) {
        lemma_blank_is_padding(s.drop_first());
        assert(w.drop_first() =~= s.drop_first().take(b - 1));
    } else if s[0] == ';' {
        let line = s.drop_first();
        let k = 1 + line_len(line) as int;
        lemma_line_end(line);
        let after = s.skip(k);
        lemma_blank_len_bound(after);
        assert(after[0] == '\n');
        assert(blank_len(after) >= 1);
        lemma_blank_is_padding(after);
        lemma_line_len_take(line, b - 1);
        assert(w.drop_first() =~= line.take(b - 1));
        assert(w.skip(k) =~= after.take(blank_len(after) as int));
        assert(s[b] == after[blank_len(after) as int]);
    }
}

/// The symbol characters that a text begins with are a whole symbol, and a
/// delimiter follows them, if anything does.
pub proof fn lemma_symbol_take(t: Seq<char>)
    ensures
        symbol_len(t) <= t.len(),
        symbol_len(t.take(symbol_len(t) as int)) == symbol_len(t),
        symbol_len(t) < t.len() ==> is_delimiter(t[symbol_len(t) as int]),
    decreases t.len(),
{
    let k = symbol_len(t) as int;
    if t.len() == 0 || is_delimiter(t[0]) {
        assert(t.take(0) =~= Seq::<char>::empty());
    } else {
        lemma_symbol_take(t.drop_first());
        assert(t.take(k).drop_first() =~= t.drop_first().take(k - 1));
    }
}

/// The text of a string, up to its closing quote, is closed by that quote.
pub proof fn lemma_quoted_take(x: Seq<char>)
    requires
        scan_quoted(x) is Closed,
    ensures
        scan_quoted(x)->Closed_0 < x.len(),
        scan_quoted(x.take(scan_quoted(x)->Closed_0 as int) + seq!['"']) == scan_quoted(x),
    decreases x.len(),
{
    let k = scan_quoted(x)->Closed_0 as int;
    let y = x.take(k) + seq!['"'];
    if x[0] == '"' {
        assert(y[0] == '"');
    } else if x[0] == '\\' {
        lemma_quoted_take(x.skip(2));
        assert(y[0] == '\\');
        assert(y.skip(2) =~= x.skip(2).take(k - 2) + seq!['"']);
    } else {
        lemma_quoted_take(x.drop_first());
        assert(y[0] == x[0]);
        assert(y.drop_first() =~= x.drop_first().take(k - 1) + seq!['"']);
    }
}

/// Putting one element before a run moves the indices of the run by one.
pub proof fn lemma_run_shift(
    pad: Seq<char>,
    form: Form,
    pads: Seq<Seq<char>>,
    forms: Seq<Form>,
    i: int,
    after: Option<char>,
)
    requires
        pads.len() == forms.len(),
        0 <= i <= forms.len(),
    ensures
        run_text(seq![pad] + pads, seq![form] + forms, i + 1) == run_text(pads, forms, i),
        run_ok(seq![pad] + pads, seq![form] + forms, i + 1, after) == run_ok(
            pads,
            forms,
            i,
            after,
        ),
    decreases forms.len() - i,
{
    if i < forms.len() {
        lemma_run_shift(pad, form, pads, forms, i + 1, after);
        assert((seq![pad] + pads)[i + 1] == pads[i]);
        assert((seq![form] + forms)[i + 1] == forms[i]);
    }
}

/// A text that begins with a node begins with a way of writing a node: some
/// padding and a well-formed `Form`, which may precede what the node leaves.
pub proof fn lemma_node_is_written(s: Seq<char>) -> (r: (Seq<char>, Form))
    requires
        node(s) is Done,
    ensures
        is_padding(r.0),
        r.1.well_formed(),
        r.0 + r.1.text() + node(s)->Done_1 == s,
        r.1.may_precede(head(node(s)->Done_1, None)),
    decreases s.len(), 0nat,
{
    lemma_blank_len_bound(s);
    lemma_blank_is_padding(s);
    let b = blank_len(s) as int;
    let pad = s.take(b);
    let t = s.skip(b);
    let rest = node(s)->Done_1;
    let c = t[0];
    assert(s =~= pad + t);
    if c == '"' {
        let x = t.drop_first();
        lemma_quoted_take(x);
        let k = scan_quoted(x)->Closed_0 as int;
        let body = t.subrange(1, 1 + k);
        assert(body =~= x.take(k));
        let form = Form::Str(body);
        assert(form.text() + rest =~= t) by {
            lemma_scan_quoted_bound(x);
        }
        assert(pad + form.text() + rest =~= s);
        (pad, form)
    } else if c == '(' {
        let inner = t.drop_first();
        let (pads, forms) = lemma_nodes_are_written(inner);
        let left = nodes(inner)->Ok_0.1;
        lemma_blank_len_bound(left);
        lemma_blank_is_padding(left);
        let e = blank_len(left) as int;
        let end = left.take(e);
        let u = left.skip(e);
        assert(u[0] == ')');
        let form = Form::List { pads, forms, end };
        assert(head(left, None) == head(end, Some(')'))) by {
            if e > 0 {
                assert(end[0] == left[0]);
            }
        }
        assert(left =~= end + seq![')'] + rest);
        assert(t =~= seq!['('] + inner);
        assert(inner == run_text(pads, forms, 0) + left);
        assert(form.text() == seq!['('] + run_text(pads, forms, 0) + end + seq![')']);
        assert(form.text() + rest =~= t);
        assert(pad + form.text() + rest =~= s);
        (pad, form)
    } else if is_quote(c) {
        let (inner_pad, inner) = lemma_node_is_written(t.drop_first());
        let form = Form::Quoted { prefix: c, pad: inner_pad, form: Box::new(inner) };
        assert(t =~= seq![c] + t.drop_first());
        assert(t.drop_first() == inner_pad + inner.text() + rest);
        assert(form.text() == seq![c] + inner_pad + inner.text());
        assert(form.text() + rest =~= t);
        assert(pad + form.text() + rest =~= s);
        (pad, form)
    } else {
        lemma_symbol_take(t);
        let k = symbol_len(t) as int;
        let form = Form::Sym(t.take(k));
        assert(t.take(k)[0] == c);
        assert(t.take(k) + t.skip(k) =~= t);
        assert(pad + form.text() + rest =~= s);
        if rest.len() > 0 {
            assert(rest[0] == t[k]);
        }
        (pad, form)
    }
}

/// A text that begins with a run of nodes begins with a way of writing the
/// run, before the text that the run leaves.
pub proof fn lemma_nodes_are_written(s: Seq<char>) -> (r: (Seq<Seq<char>>, Seq<Form>))
    requires
        nodes(s) is Ok,
    ensures
        r.0.len() == r.1.len(),
        run_text(r.0, r.1, 0) + nodes(s)->Ok_0.1 == s,
        run_ok(r.0, r.1, 0, head(nodes(s)->Ok_0.1, None)),
        node(nodes(s)->Ok_0.1) is Miss,
    decreases s.len(), 1nat,
{
    let left = nodes(s)->Ok_0.1;
    lemma_node_advances(s);
    match node(s) {
        Step::Done(n, rest) => {
            let (pad, form) = lemma_node_is_written(s);
            let (pads, forms) = lemma_nodes_are_written(rest);
            let all_pads = seq![pad] + pads;
            let all_forms = seq![form] + forms;
            let after = head(left, None);
            lemma_run_shift(pad, form, pads, forms, 0, after);
            let run = run_text(pads, forms, 0);
            assert(head(rest, None) == head(run, after)) by {
                assert(rest == run + left);
                if run.len() > 0 {
                    assert(rest[0] == run[0]);
                }
            }
            assert(all_pads[0] == pad);
            assert(all_forms[0] == form);
            assert(run_text(all_pads, all_forms, 0) + left =~= s);
            (all_pads, all_forms)
        },
        _ => {
            let none_pads = Seq::<Seq<char>>::empty();
            let none_forms = Seq::<Form>::empty();
            assert(run_text(none_pads, none_forms, 0) + left =~= s);
            (none_pads, none_forms)
        },
    }
}

/// Every text that parses is a way of writing its nodes: the padding law
/// speaks of all of them.
pub proof fn law_parsed_text_is_written(s: Seq<char>) -> (w: Written)
    requires
        document(s) is Ok,
    ensures
        w.well_formed(),
        w.text() == s,
        document(s) == Ok::<Seq<Node>, Failure>(w.trees()),
{
    let (pads, forms) = lemma_nodes_are_written(s);
    let end = nodes(s)->Ok_0.1;
    lemma_blank_len_bound(end);
    let w = Written { pads, forms, end };
    law_written_text_reads_back(w);
    w
}

} // verus!
