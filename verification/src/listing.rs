//! What each file of a directory of definitions contributes to a listing.

use vstd::prelude::*;
use vstd::string::*;
use vstd::utf8::*;
use crate::extract::{packages_in, record_views};
use crate::grammar::document;
use crate::sexpr::failure_text;
use crate::text::{lemma_encode_concat, lemma_encode_injective};
use crate::{parse_scm, Package};

verus! {

/// Whether `s` ends with `suffix`.
pub open spec fn ends_with(s: Seq<char>, suffix: Seq<char>) -> bool {
    s.len() >= suffix.len() && s.skip(s.len() - suffix.len()) == suffix
}

/// The encoding of the extension that definition files have.
proof fn lemma_extension_bytes()
    ensures
        encode_utf8(".scm"@) == seq![0x2Eu8, 0x73u8, 0x63u8, 0x6Du8],
{
    reveal_strlit(".scm");
    let e = ".scm"@;
    assert(e =~= seq!['.', 's', 'c', 'm']);
    assert(is_ascii_chars(e));
    is_ascii_chars_encode_utf8(e);
    assert(encode_utf8(e) =~= seq![0x2Eu8, 0x73u8, 0x63u8, 0x6Du8]);
}

/// The name of the module that a file of the given name defines: the file
/// name without its extension `.scm`. A file without that extension defines
/// none.
pub fn module_name(file_name: &str) -> (r: Option<String>)
    ensures
        r is Some <==> ends_with(file_name@, ".scm"@),
        r matches Some(stem) ==> stem@ + ".scm"@ == file_name@,
{
    let bytes = file_name.as_bytes();
    let n = bytes.len();
    proof {
        lemma_extension_bytes();
        if ends_with(file_name@, ".scm"@) {
            let k = file_name@.len() - ".scm"@.len();
            assert(file_name@ =~= file_name@.take(k) + ".scm"@);
            lemma_encode_concat(file_name@.take(k), ".scm"@);
            let front = encode_utf8(file_name@.take(k));
            assert(bytes@ == front + encode_utf8(".scm"@));
            assert(n == front.len() + 4);
            assert(bytes@[n - 4] == encode_utf8(".scm"@)[0]);
            assert(bytes@[n - 3] == encode_utf8(".scm"@)[1]);
            assert(bytes@[n - 2] == encode_utf8(".scm"@)[2]);
            assert(bytes@[n - 1] == encode_utf8(".scm"@)[3]);
        }
    }
    if n < 4 {
        return None;
    }
    if bytes[n - 4] != 0x2E || bytes[n - 3] != 0x73 || bytes[n - 2] != 0x63 || bytes[n - 1]
        != 0x6D {
        return None;
    }
    proof {
        encode_utf8_valid_utf8(file_name@);
        is_char_boundary_iff_not_is_continuation_byte(bytes@, n - 4);
    }
    let (stem, extension) = file_name.split_at(n - 4);
    proof {
        assert(extension.spec_bytes() =~= encode_utf8(".scm"@));
        lemma_encode_injective(extension@, ".scm"@);
        lemma_encode_concat(stem@, extension@);
        assert(stem.spec_bytes() + extension.spec_bytes() =~= bytes@);
        lemma_encode_injective(stem@ + extension@, file_name@);
        assert(file_name@.skip(file_name@.len() - ".scm"@.len()) =~= ".scm"@);
    }
    Some(stem.to_owned())
}

/// What is left of a text when the whitespace at its start is removed, as
/// `str::trim_start` removes it.
pub uninterp spec fn trim_start_of(s: Seq<char>) -> Seq<char>;

/// Calls `str::trim_start`, which returns the text without its leading
/// whitespace. The contract only names that result.
#[verifier::external_body]
fn trim_start<'a>(text: &'a str) -> (r: &'a str)
    ensures
        r@ == trim_start_of(text@),
{
    text.trim_start()
}

/// What each record of `found` holds, as sequences of characters.
pub open spec fn owned_views(found: Seq<Package<String>>) -> Seq<Package<Seq<char>>> {
    Seq::new(found.len(), |i: int| Package { name: found[i].name@, version: found[i].version@ })
}

/// Copies records out of the text that they borrow from.
pub fn to_owned_records(found: &Vec<Package<&str>>) -> (r: Vec<Package<String>>)
    ensures
        owned_views(r@) == record_views(found@),
{
    let mut owned: Vec<Package<String>> = Vec::new();
    let mut i: usize = 0;
    while i < found.len()
        invariant
            i <= found.len(),
            owned@.len() == i,
            forall|j: int|
                0 <= j < i ==> owned@[j].name@ == found@[j].name@ && owned@[j].version@
                    == found@[j].version@,
        decreases found.len() - i,
    {
        let name = found[i].name.to_owned();
        let version = found[i].version.to_owned();
        owned.push(Package { name, version });
        i += 1;
    }
    proof {
        assert(owned_views(owned@) =~= record_views(found@));
    }
    owned
}

/// The records of one definition file. A file that holds only whitespace has
/// none, whatever the grammar says of it; any other file has those of its
/// top-level forms, or fails as its text fails to parse.
pub fn file_packages(text: &str) -> (r: Result<Vec<Package<String>>, String>)
    ensures
        match r {
            Ok(found) => if trim_start_of(text@).len() == 0 {
                found@.len() == 0
            } else {
                document(text@) matches Ok(forms) && owned_views(found@) == packages_in(forms)
            },
            Err(message) => {
                &&& trim_start_of(text@).len() != 0
                &&& document(text@) matches Err(f)
                &&& message@ == failure_text(f.kind, f.rest)
            },
        },
{
    if trim_start(text).is_empty() {
        return Ok(Vec::new());
    }
    match parse_scm(text) {
        Ok(found) => Ok(to_owned_records(&found)),
        Err(message) => Err(message),
    }
}

/// The entry of a listing for the module `name` with the records `found`:
/// a module without records has no entry.
pub fn listing_entry(name: String, found: Vec<Package<String>>) -> (r: Option<
    (String, Vec<Package<String>>),
>)
    ensures
        r == if found@.len() == 0 {
            None
        } else {
            Some((name, found))
        },
{
    if found.len() == 0 {
        None
    } else {
        Some((name, found))
    }
}

} // verus!
