//! Reads Guix package definitions and lists the crates they package.

use vstd::prelude::*;
use crate::extract::{packages_in, packages_of, record_views};
use crate::grammar::document;
use crate::sexpr::{failure_text, parse};

pub mod extract;
pub mod grammar;
pub mod laws;
pub mod listing;
pub mod reader;
pub mod sexpr;
pub mod text;
pub mod written;

verus! {

/// Where Guix keeps its package definitions.
pub const GUIX_REPO_URL: &'static str = "https://git.savannah.gnu.org/git/guix.git";

/// A crate that a package definition names, with the version it is packaged at.
#[derive(Debug, Clone)]
#[non_exhaustive]
pub struct Package<S> {
    pub name: S,
    pub version: S,
}

/// Whether `r` is what a definition file with the text `file` gives: the
/// records of its top-level forms if it parses, the message of its failure if
/// it does not.
pub open spec fn lists(file: Seq<char>, r: Result<Vec<Package<&str>>, String>) -> bool {
    match r {
        Ok(found) => document(file) matches Ok(forms) && record_views(found@) == packages_in(
            forms,
        ),
        Err(message) => document(file) matches Err(f) && message@ == failure_text(f.kind, f.rest),
    }
}

/// Parses a definition file and lists the crates that its packages name, in
/// the order of the definitions. A text that does not parse gives the message
/// of its failure.
pub fn parse_scm<'a>(file: &'a str) -> (r: Result<Vec<Package<&'a str>>, String>)
    ensures
        lists(file@, r),
{
    match parse(file) {
        Ok(all) => Ok(packages_of(all.as_slice())),
        Err(message) => Err(message),
    }
}

} // verus!
