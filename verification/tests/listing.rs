use guix_crates::listing::{file_packages, listing_entry, module_name};
use guix_crates::{parse_scm, GUIX_REPO_URL};

const RUST_FOO: &str = "(define-public rust-foo (package (version \"1.2.3\") (source (origin (uri (crate-uri \"foo\" version))))))";

#[test]
fn a_definition_file_names_its_module() {
    assert_eq!(module_name("crates-io.scm"), Some("crates-io".to_string()));
    assert_eq!(module_name("a.scm.scm"), Some("a.scm".to_string()));
    assert_eq!(module_name(".scm"), Some(String::new()));
    assert_eq!(module_name("日本語.scm"), Some("日本語".to_string()));
}

#[test]
fn other_files_name_no_module() {
    assert_eq!(module_name(""), None);
    assert_eq!(module_name("scm"), None);
    assert_eq!(module_name("rust.sc"), None);
    assert_eq!(module_name("rust.scm~"), None);
    assert_eq!(module_name("rust.SCM"), None);
    assert_eq!(module_name("rust-scm"), None);
    assert_eq!(module_name("patches"), None);
    assert_eq!(module_name("é"), None);
    assert_eq!(module_name("xé.sc"), None);
}

#[test]
fn a_file_gives_owned_records() {
    let found = file_packages(RUST_FOO).unwrap();
    assert_eq!(found.len(), 1);
    assert_eq!(found[0].name, "foo".to_string());
    assert_eq!(found[0].version, "1.2.3".to_string());
}

#[test]
fn a_blank_file_has_no_records() {
    assert!(file_packages("").unwrap().is_empty());
    assert!(file_packages(" \n\t ").unwrap().is_empty());
}

#[test]
fn a_file_of_whitespace_that_the_grammar_does_not_skip_has_no_records() {
    assert!(parse_scm(" \u{c} ").is_err());
    assert!(file_packages(" \u{c} ").unwrap().is_empty());
    assert!(file_packages("\u{2003}\u{a0}").unwrap().is_empty());
}

#[test]
fn a_file_that_does_not_parse_fails() {
    let message = file_packages("(a").err();
    assert_eq!(message, Some("Parsing Failure: Error { input: \"\", code: Char }".to_string()));
    let message = file_packages(" x \u{c}").err();
    assert_eq!(message, Some("Parsing Failure: Error { input: \"\\u{c}\", code: Eof }".to_string()));
}

#[test]
fn a_module_without_records_has_no_entry() {
    assert!(listing_entry("empty".to_string(), file_packages("(a b)").unwrap()).is_none());
    let (name, found) = listing_entry("rust".to_string(), file_packages(RUST_FOO).unwrap()).unwrap();
    assert_eq!(name, "rust");
    assert_eq!(found.len(), 1);
    assert_eq!(found[0].name, "foo");
}

#[test]
fn the_repository_is_the_one_on_savannah() {
    assert_eq!(GUIX_REPO_URL, "https://git.savannah.gnu.org/git/guix.git");
}
