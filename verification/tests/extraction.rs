use guix_crates::extract::{package_of, packages_of};
use guix_crates::parse_scm;
use guix_crates::sexpr::{parse, SExpr};

const RUST_FOO: &str = "(define-public rust-foo (package (name \"rust-foo\") (version \"1.2.3\") (source (origin (method url-fetch) (uri (crate-uri \"foo\" version)) (sha256 (base32 \"xxx\"))))))";

fn pairs(text: &str) -> Vec<(String, String)> {
    parse_scm(text).unwrap().iter().map(|p| (p.name.to_string(), p.version.to_string())).collect()
}

fn pair(name: &str, version: &str) -> (String, String) {
    (name.to_string(), version.to_string())
}

#[test]
fn a_package_gives_its_crate_name_and_version() {
    assert_eq!(pairs(RUST_FOO), vec![pair("foo", "1.2.3")]);
}

#[test]
fn a_package_without_version_is_skipped() {
    let text = "(define-public rust-foo (package (name \"rust-foo\") (source (origin (method url-fetch) (uri (crate-uri \"foo\" version)) (sha256 (base32 \"xxx\"))))))";
    assert_eq!(pairs(text), vec![]);
}

#[test]
fn a_package_without_source_is_skipped() {
    assert_eq!(pairs("(define-public rust-foo (package (name \"rust-foo\") (version \"1.2.3\")))"), vec![]);
}

#[test]
fn unrelated_top_level_forms_are_skipped() {
    assert_eq!(pairs("(use-modules (guix packages))"), vec![]);
    assert_eq!(pairs("foo \"bar\" () (define-public) (define-public x) (define x (package))"), vec![]);
    let text = format!("(use-modules (guix packages))\n{}\n(define (helper) 1)", RUST_FOO);
    assert_eq!(pairs(&text), vec![pair("foo", "1.2.3")]);
}

#[test]
fn records_come_in_the_order_of_the_definitions() {
    let text = "
        (define-public rust-b (package (version \"2.0\") (source (origin (uri (crate-uri \"b\" version))))))
        ;; not a crate
        (define-public hello (package (version \"2.12\") (source (origin (uri (string-append \"mirror://\" version))))))
        (define-public rust-a (package (source (origin (uri (crate-uri \"a\" version)))) (version \"0.1.0\")))
        (define-public rust-b-1 (package (version \"1.0\") (source (origin (uri (crate-uri \"b\" version))))))
    ";
    assert_eq!(pairs(text), vec![pair("b", "2.0"), pair("a", "0.1.0"), pair("b", "1.0")]);
}

#[test]
fn the_texts_are_taken_as_written() {
    let text = "(define-public x (package (version 1.0-rc) (source (origin (uri (crate-uri \"a\\\"b\"))))))";
    assert_eq!(pairs(text), vec![pair("a\\\"b", "1.0-rc")]);
    let text = "(define-public x (package (version \"1\") (source (origin (uri (crate-uri foo))))))";
    assert_eq!(pairs(text), vec![pair("foo", "1")]);
}

#[test]
fn the_first_version_wins() {
    let text = "(define-public x (package (version \"1\") (version \"2\") (source (origin (uri (crate-uri \"a\"))))))";
    assert_eq!(pairs(text), vec![pair("a", "1")]);
    let text = "(define-public x (package (version) (version (oops)) (version \"3\") (source (origin (uri (crate-uri \"a\"))))))";
    assert_eq!(pairs(text), vec![pair("a", "3")]);
}

#[test]
fn the_first_source_decides_the_name() {
    let text = "(define-public x (package (version \"1\") (source (origin (uri (crate-uri \"a\")))) (source (origin (uri (crate-uri \"b\"))))))";
    assert_eq!(pairs(text), vec![pair("a", "1")]);
    let text = "(define-public x (package (version \"1\") (source #f) (source (origin (uri (crate-uri \"b\"))))))";
    assert_eq!(pairs(text), vec![]);
    let text = "(define-public x (package (version \"1\") (source) (source (origin (uri (crate-uri \"b\"))))))";
    assert_eq!(pairs(text), vec![]);
}

#[test]
fn the_first_uri_with_a_crate_uri_gives_the_name() {
    let text = "(define-public x (package (version \"1\") (source (origin (uri \"http://x\") (uri (git-reference)) (uri (crate-uri \"a\")) (uri (crate-uri \"b\"))))))";
    assert_eq!(pairs(text), vec![pair("a", "1")]);
    let text = "(define-public x (package (version \"1\") (source (origin (uri (crate-uri)) (uri (crate-uri \"b\"))))))";
    assert_eq!(pairs(text), vec![]);
    let text = "(define-public x (package (version \"1\") (source (origin (uri (crate-uri (a))) (uri (crate-uri \"b\"))))))";
    assert_eq!(pairs(text), vec![]);
}

#[test]
fn the_origin_must_come_first_under_source() {
    let text = "(define-public x (package (version \"1\") (source (other) (origin (uri (crate-uri \"a\"))))))";
    assert_eq!(pairs(text), vec![]);
}

#[test]
fn the_package_must_be_the_third_element() {
    let text = "(define-public x y (package (version \"1\") (source (origin (uri (crate-uri \"a\"))))))";
    assert_eq!(pairs(text), vec![]);
    let text = "(define-public x (package (version \"1\") (source (origin (uri (crate-uri \"a\"))))) y)";
    assert_eq!(pairs(text), vec![pair("a", "1")]);
    let text = "(define-public x (package/inherit (version \"1\") (source (origin (uri (crate-uri \"a\"))))))";
    assert_eq!(pairs(text), vec![]);
}

#[test]
fn tags_are_symbols() {
    let text = "(\"define-public\" x (package (version \"1\") (source (origin (uri (crate-uri \"a\"))))))";
    assert_eq!(pairs(text), vec![]);
    let text = "(define-public x (\"package\" (version \"1\") (source (origin (uri (crate-uri \"a\"))))))";
    assert_eq!(pairs(text), vec![]);
    let text = "(define-public x (package (\"version\" \"1\") (source (origin (uri (crate-uri \"a\"))))))";
    assert_eq!(pairs(text), vec![]);
}

#[test]
fn quoting_and_padding_do_not_matter() {
    let text = "'( define-public rust-foo ; the name\n `(package\n (version ; here\n \"1.2.3\")\n (source '(origin (uri (crate-uri \"foo\" version))))))";
    assert_eq!(pairs(text), vec![pair("foo", "1.2.3")]);
}

#[test]
fn a_text_that_does_not_parse_gives_no_records() {
    let text = format!("{} (", RUST_FOO);
    assert_eq!(parse_scm(&text).err(), Some("Parsing Failure: Error { input: \"\", code: Char }".to_string()));
    let text = format!("{} )", RUST_FOO);
    assert_eq!(parse_scm(&text).err(), Some("Parsing Failure: Error { input: \")\", code: Eof }".to_string()));
}

#[test]
fn extracting_twice_gives_the_same_records() {
    let text = format!("{}\n(x)\n{}", RUST_FOO, RUST_FOO);
    assert_eq!(pairs(&text), pairs(&text));
    assert_eq!(pairs(&text), vec![pair("foo", "1.2.3"), pair("foo", "1.2.3")]);
}

#[test]
fn package_of_reads_one_form() {
    let forms = parse(RUST_FOO).unwrap();
    let found = package_of(&forms[0]).unwrap();
    assert_eq!((found.name, found.version), ("foo", "1.2.3"));
    assert!(package_of(&SExpr::Sym("define-public")).is_none());
    assert!(package_of(&SExpr::List(vec![])).is_none());
    assert!(package_of(&SExpr::List(vec![SExpr::Sym("define-public"), SExpr::Sym("x")])).is_none());
}

#[test]
fn packages_of_reads_every_form() {
    let text = format!("a {} (b) {}", RUST_FOO, RUST_FOO);
    let forms = parse(&text).unwrap();
    let found = packages_of(&forms);
    assert_eq!(found.len(), 2);
    assert_eq!((found[1].name, found[1].version), ("foo", "1.2.3"));
    assert!(packages_of(&[]).is_empty());
}
