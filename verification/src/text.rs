//! Walking a `&str` by characters while indexing it by bytes.
//!
//! A position in a text is kept twice: as the number of characters before it,
//! which the grammar speaks of, and as the number of bytes before it, which
//! slicing needs. The functions here keep the two in step.

use vstd::prelude::*;
use vstd::string::*;
use vstd::utf8::*;

verus! {

/// The number of bytes that the first `n` characters of `s` take.
pub open spec fn offset_of(s: Seq<char>, n: int) -> int {
    encode_utf8(s.take(n)).len() as int
}

/// Whether `b` can be the first byte of the encoding of `c`, as far as the
/// grammar needs to know: a byte below 0x80 is the character itself, any other
/// byte starts a character that is not ASCII.
pub open spec fn stands_for(b: u8, c: char) -> bool {
    if b < 0x80 {
        c == b as char
    } else {
        c as u32 >= 0x80
    }
}

/// Encoding a concatenation concatenates the encodings.
pub proof fn lemma_encode_concat(a: Seq<char>, b: Seq<char>)
    ensures
        encode_utf8(a + b) == encode_utf8(a) + encode_utf8(b),
    decreases a.len(),
{
    if a.len() == 0 {
        assert(a + b == b);
        assert(encode_utf8(a) + encode_utf8(b) == encode_utf8(b));
    } else {
        lemma_encode_concat(a.drop_first(), b);
        assert((a + b).drop_first() == a.drop_first() + b);
        assert(encode_utf8(a + b) == encode_scalar(a[0] as u32) + (encode_utf8(a.drop_first())
            + encode_utf8(b)));
        assert(encode_utf8(a + b) == encode_utf8(a) + encode_utf8(b));
    }
}

/// The encoding of a text splits at `offset_of(s, n)` into the encodings of
/// its first `n` characters and of the rest.
pub proof fn lemma_encode_split(s: Seq<char>, n: int)
    requires
        0 <= n <= s.len(),
    ensures
        0 <= offset_of(s, n) <= encode_utf8(s).len(),
        encode_utf8(s).subrange(0, offset_of(s, n)) == encode_utf8(s.take(n)),
        encode_utf8(s).subrange(offset_of(s, n), encode_utf8(s).len() as int) == encode_utf8(
            s.skip(n),
        ),
{
    lemma_encode_concat(s.take(n), s.skip(n));
    assert(s.take(n) + s.skip(n) == s);
    let a = encode_utf8(s.take(n));
    let b = encode_utf8(s.skip(n));
    assert((a + b).subrange(0, a.len() as int) == a);
    assert((a + b).subrange(a.len() as int, (a + b).len() as int) == b);
}

/// What the first byte of an encoded text says of its first character.
pub proof fn lemma_first_byte(s: Seq<char>)
    requires
        s.len() > 0,
    ensures
        valid_first_scalar(encode_utf8(s)),
        encode_utf8(s).len() >= length_of_first_scalar(encode_utf8(s)) >= 1,
        offset_of(s, 1) == length_of_first_scalar(encode_utf8(s)),
        stands_for(encode_utf8(s)[0], s[0]),
{
    let bytes = encode_utf8(s);
    encode_utf8_first_scalar(s);
    assert(s.take(1) == seq![s[0]]);
    assert(s.take(1).drop_first() == Seq::<char>::empty());
    assert(encode_utf8(s.take(1)) == encode_scalar(s[0] as u32) + encode_utf8(
        Seq::<char>::empty(),
    ));
    assert(encode_utf8(s.take(1)) == encode_scalar(s[0] as u32));
    let b0 = bytes[0];
    if b0 < 0x80 {
        assert(b0 & 0x7F == b0) by (bit_vector)
            requires
                b0 < 0x80,
        ;
        char_u32_cast(s[0], b0 as u32);
    }
}

/// `offset_of(s, n)` falls between two characters of the encoded text.
pub proof fn lemma_offset_is_boundary(s: Seq<char>, n: int)
    requires
        0 <= n <= s.len(),
    ensures
        is_char_boundary(encode_utf8(s), offset_of(s, n)),
    decreases n,
{
    encode_utf8_valid_utf8(s);
    if n == 0 {
        assert(s.take(0) == Seq::<char>::empty());
    } else {
        let bytes = encode_utf8(s);
        let tail = s.drop_first();
        lemma_offset_is_boundary(tail, n - 1);
        encode_utf8_first_scalar(s);
        assert(pop_first_scalar(bytes) == encode_utf8(tail));
        assert(s.take(n) == seq![s[0]] + tail.take(n - 1));
        lemma_encode_concat(seq![s[0]], tail.take(n - 1));
        lemma_first_byte(s);
        assert(s.take(1) == seq![s[0]]);
        assert(offset_of(s, n) == length_of_first_scalar(bytes) + offset_of(tail, n - 1));
        lemma_encode_split(tail, n - 1);
    }
}

/// Two texts with the same encoding are the same text.
pub proof fn lemma_encode_injective(a: Seq<char>, b: Seq<char>)
    requires
        encode_utf8(a) == encode_utf8(b),
    ensures
        a == b,
{
    encode_utf8_decode_utf8(a);
    encode_utf8_decode_utf8(b);
}

/// The first byte of the character at index `n`, whose first byte stands at
/// `at`, and the number of bytes that the character takes; `None` at the end
/// of the text.
pub fn peek(text: &str, at: usize, Ghost(n): Ghost<int>) -> (r: Option<(u8, usize)>)
    requires
        0 <= n <= text@.len(),
        at == offset_of(text@, n),
    ensures
        r is None <==> n == text@.len(),
        r matches Some((b, w)) ==> {
            &&& w >= 1
            &&& at + w == offset_of(text@, n + 1)
            &&& at + w <= text.spec_bytes().len() <= usize::MAX
            &&& stands_for(b, text@[n])
        },
{
    let bytes = text.as_bytes();
    proof {
        lemma_encode_split(text@, n);
        if n < text@.len() {
            let rest = text@.skip(n);
            lemma_first_byte(rest);
            lemma_encode_split(text@, n + 1);
            assert(text@.take(n + 1) == text@.take(n) + rest.take(1));
            lemma_encode_concat(text@.take(n), rest.take(1));
            assert(bytes@[at as int] == encode_utf8(rest)[0]);
            assert(rest[0] == text@[n]);
            assert(offset_of(text@, n + 1) == at + length_of_first_scalar(encode_utf8(rest)));
        } else {
            assert(text@.take(n) == text@);
        }
    }
    if at >= bytes.len() {
        None
    } else {
        let b = bytes[at];
        let w: usize = if b < 0x80 {
            1
        } else if b < 0xE0 {
            2
        } else if b < 0xF0 {
            3
        } else {
            4
        };
        Some((b, w))
    }
}

/// Cuts `text` in two before the character at index `n`, whose first byte
/// stands at `at`.
pub fn cut<'a>(text: &'a str, at: usize, Ghost(n): Ghost<int>) -> (r: (&'a str, &'a str))
    requires
        0 <= n <= text@.len(),
        at == offset_of(text@, n),
    ensures
        r.0@ == text@.take(n),
        r.1@ == text@.skip(n),
{
    proof {
        lemma_offset_is_boundary(text@, n);
        lemma_encode_split(text@, n);
    }
    let r = text.split_at(at);
    proof {
        lemma_encode_injective(r.0@, text@.take(n));
        lemma_encode_injective(r.1@, text@.skip(n));
    }
    r
}

} // verus!
