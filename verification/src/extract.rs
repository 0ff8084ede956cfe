//! Finding package records in parsed definitions.
//!
//! A record comes from a top-level form of the shape
//! `(define-public NAME (package FIELD ...))`. Among the fields, the crate's
//! name stands under `source`, `origin`, `uri`, `crate-uri`, and its version
//! under `version`. A form of any other shape gives no record.

use vstd::prelude::*;
use vstd::slice::*;
use crate::grammar::Node;
use crate::sexpr::{views, SExpr};
use crate::Package;

verus! {

/// The arguments of the first keyword form tagged `name` among `items`.
pub open spec fn first_named(items: Seq<Node>, name: Seq<char>) -> Option<Seq<Node>>
    decreases items.len(),
{
    if items.len() == 0 {
        None
    } else {
        match items[0].args_if_named(name) {
            Some(args) => Some(args),
            None => first_named(items.drop_first(), name),
        }
    }
}

/// The arguments of the `crate-uri` form that is the first argument of `form`,
/// if `form` is tagged `uri` and has such an argument.
pub open spec fn crate_uri_in(form: Node) -> Option<Seq<Node>> {
    match form.args_if_named("uri"@) {
        Some(args) => if args.len() > 0 {
            args[0].args_if_named("crate-uri"@)
        } else {
            None
        },
        None => None,
    }
}

/// The arguments of `crate-uri` in the first of `items` that has them.
pub open spec fn first_crate_uri(items: Seq<Node>) -> Option<Seq<Node>>
    decreases items.len(),
{
    if items.len() == 0 {
        None
    } else {
        match crate_uri_in(items[0]) {
            Some(args) => Some(args),
            None => first_crate_uri(items.drop_first()),
        }
    }
}

/// The text of the first of `items`, if there is one and it is a symbol or a
/// string.
pub open spec fn first_text(items: Seq<Node>) -> Option<Seq<char>> {
    if items.len() > 0 {
        items[0].text()
    } else {
        None
    }
}

/// The version that `form` states: the text of its first argument, if `form`
/// is tagged `version`.
pub open spec fn version_in(form: Node) -> Option<Seq<char>> {
    match form.args_if_named("version"@) {
        Some(args) => first_text(args),
        None => None,
    }
}

/// The version of a package: what the first of its fields that states a
/// version states.
pub open spec fn package_version(fields: Seq<Node>) -> Option<Seq<char>>
    decreases fields.len(),
{
    if fields.len() == 0 {
        None
    } else {
        match version_in(fields[0]) {
            Some(v) => Some(v),
            None => package_version(fields.drop_first()),
        }
    }
}

/// The crate name that the arguments of a `source` form give: the first
/// argument must be tagged `origin`, and the name is the text of the first
/// argument of the first `crate-uri` under it.
pub open spec fn source_name(source: Seq<Node>) -> Option<Seq<char>> {
    if source.len() == 0 {
        None
    } else {
        match source[0].args_if_named("origin"@) {
            None => None,
            Some(origin) => match first_crate_uri(origin) {
                None => None,
                Some(args) => first_text(args),
            },
        }
    }
}

/// The crate name of a package: what its first `source` field gives.
pub open spec fn package_name(fields: Seq<Node>) -> Option<Seq<char>> {
    match first_named(fields, "source"@) {
        None => None,
        Some(source) => source_name(source),
    }
}

/// The record that a top-level form gives, if it gives one.
pub open spec fn package_in(form: Node) -> Option<Package<Seq<char>>> {
    match form.args_if_named("define-public"@) {
        None => None,
        Some(args) => if args.len() < 2 {
            None
        } else {
            match args[1].args_if_named("package"@) {
                None => None,
                Some(fields) => match (package_name(fields), package_version(fields)) {
                    (Some(name), Some(version)) => Some(Package { name, version }),
                    _ => None,
                },
            }
        },
    }
}

/// The records of a sequence of top-level forms, in the order of the forms.
pub open spec fn packages_in(forms: Seq<Node>) -> Seq<Package<Seq<char>>>
    decreases forms.len(),
{
    if forms.len() == 0 {
        Seq::empty()
    } else {
        let before = packages_in(forms.drop_last());
        match package_in(forms.last()) {
            Some(p) => before.push(p),
            None => before,
        }
    }
}

/// What each record of `found` holds, as sequences of characters.
pub open spec fn record_views<'a>(found: Seq<Package<&'a str>>) -> Seq<Package<Seq<char>>> {
    Seq::new(found.len(), |i: int| Package { name: found[i].name@, version: found[i].version@ })
}

/// What a slice of expressions, if any, stands for.
pub open spec fn args_view<'a>(args: Option<&[SExpr<'a>]>) -> Option<Seq<Node>> {
    match args {
        Some(a) => Some(views(a@)),
        None => None,
    }
}

/// What a text, if any, holds.
pub open spec fn text_view(text: Option<&str>) -> Option<Seq<char>> {
    match text {
        Some(t) => Some(t@),
        None => None,
    }
}

fn find_named<'b, 'a>(items: &'b [SExpr<'a>], name: &str) -> (r: Option<&'b [SExpr<'a>]>)
    ensures
        args_view(r) == first_named(views(items@), name@),
{
    let mut i: usize = 0;
    proof {
        assert(views(items@).skip(0) =~= views(items@));
    }
    while i < items.len()
        invariant
            i <= items.len(),
            first_named(views(items@), name@) == first_named(views(items@).skip(i as int), name@),
        decreases items.len() - i,
    {
        proof {
            assert(views(items@).skip(i as int)[0] == items@[i as int]@);
            assert(views(items@).skip(i as int).drop_first() =~= views(items@).skip(i + 1));
        }
        match items[i].if_named(name) {
            Some(args) => {
                return Some(args);
            },
            None => {},
        }
        i += 1;
    }
    None
}

fn find_crate_uri<'b, 'a>(items: &'b [SExpr<'a>]) -> (r: Option<&'b [SExpr<'a>]>)
    ensures
        args_view(r) == first_crate_uri(views(items@)),
{
    let mut i: usize = 0;
    proof {
        assert(views(items@).skip(0) =~= views(items@));
    }
    while i < items.len()
        invariant
            i <= items.len(),
            first_crate_uri(views(items@)) == first_crate_uri(views(items@).skip(i as int)),
        decreases items.len() - i,
    {
        proof {
            assert(views(items@).skip(i as int)[0] == items@[i as int]@);
            assert(views(items@).skip(i as int).drop_first() =~= views(items@).skip(i + 1));
        }
        match items[i].if_named("uri") {
            Some(args) => {
                if args.len() > 0 {
                    assert(views(args@)[0] == args@[0]@);
                    match args[0].if_named("crate-uri") {
                        Some(inner) => {
                            return Some(inner);
                        },
                        None => {},
                    }
                }
            },
            None => {},
        }
        i += 1;
    }
    None
}

fn text_of_first<'b, 'a>(items: &'b [SExpr<'a>]) -> (r: Option<&'a str>)
    ensures
        text_view(r) == first_text(views(items@)),
{
    if items.len() > 0 {
        assert(views(items@)[0] == items@[0]@);
        items[0].as_str()
    } else {
        None
    }
}

fn find_version<'b, 'a>(fields: &'b [SExpr<'a>]) -> (r: Option<&'a str>)
    ensures
        text_view(r) == package_version(views(fields@)),
{
    let mut i: usize = 0;
    proof {
        assert(views(fields@).skip(0) =~= views(fields@));
    }
    while i < fields.len()
        invariant
            i <= fields.len(),
            package_version(views(fields@)) == package_version(views(fields@).skip(i as int)),
        decreases fields.len() - i,
    {
        proof {
            assert(views(fields@).skip(i as int)[0] == fields@[i as int]@);
            assert(views(fields@).skip(i as int).drop_first() =~= views(fields@).skip(i + 1));
        }
        match fields[i].if_named("version") {
            Some(args) => {
                match text_of_first(args) {
                    Some(v) => {
                        return Some(v);
                    },
                    None => {},
                }
            },
            None => {},
        }
        i += 1;
    }
    None
}

fn find_name<'b, 'a>(fields: &'b [SExpr<'a>]) -> (r: Option<&'a str>)
    ensures
        text_view(r) == package_name(views(fields@)),
{
    match find_named(fields, "source") {
        None => None,
        Some(source) => {
            if source.len() == 0 {
                return None;
            }
            assert(views(source@)[0] == source@[0]@);
            match source[0].if_named("origin") {
                None => None,
                Some(origin) => match find_crate_uri(origin) {
                    None => None,
                    Some(args) => text_of_first(args),
                },
            }
        },
    }
}

/// The record that a top-level form gives, if it gives one.
pub fn package_of<'a>(form: &SExpr<'a>) -> (r: Option<Package<&'a str>>)
    ensures
        match r {
            Some(p) => package_in(form@) == Some(Package { name: p.name@, version: p.version@ }),
            None => package_in(form@) is None,
        },
{
    match form.if_named("define-public") {
        None => None,
        Some(args) => {
            if args.len() < 2 {
                return None;
            }
            assert(views(args@)[1] == args@[1]@);
            match args[1].if_named("package") {
                None => None,
                Some(fields) => {
                    let name = find_name(fields);
                    let version = find_version(fields);
                    match (name, version) {
                        (Some(name), Some(version)) => Some(Package { name, version }),
                        _ => None,
                    }
                },
            }
        },
    }
}

/// The records of a sequence of top-level forms, in the order of the forms.
pub fn packages_of<'a>(forms: &[SExpr<'a>]) -> (found: Vec<Package<&'a str>>)
    ensures
        record_views(found@) == packages_in(views(forms@)),
{
    let mut found: Vec<Package<&'a str>> = Vec::new();
    let mut i: usize = 0;
    proof {
        assert(views(forms@).take(0) =~= Seq::<Node>::empty());
        assert(record_views(found@) =~= Seq::<Package<Seq<char>>>::empty());
    }
    while i < forms.len()
        invariant
            i <= forms.len(),
            record_views(found@) == packages_in(views(forms@).take(i as int)),
        decreases forms.len() - i,
    {
        proof {
            let next = views(forms@).take(i + 1);
            assert(next.drop_last() =~= views(forms@).take(i as int));
            assert(next.last() == forms@[i as int]@);
        }
        let ghost before = found@;
        match package_of(&forms[i]) {
            Some(p) => {
                found.push(p);
                proof {
                    assert(record_views(found@) =~= record_views(before).push(
                        Package { name: p.name@, version: p.version@ },
                    ));
                }
            },
            None => {},
        }
        i += 1;
    }
    proof {
        assert(views(forms@).take(forms@.len() as int) =~= views(forms@));
    }
    found
}

} // verus!
