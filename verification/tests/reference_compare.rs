//! Compares the library's payloads against an independent JSON encoder
//! building the same object shape: a `files` object keyed by final path
//! segments with `content` values, and a `public` flag, with keys in the
//! encoder's sorted-map order.

use gist::Gist;
use gist::GistFile;
use rustc_serialize::json::Json;
use std::collections::BTreeMap;

fn reference_payload(public: bool, files: &[(&str, &str)]) -> String {
    let mut root: BTreeMap<String, Json> = BTreeMap::new();
    let mut fmap: BTreeMap<String, Json> = BTreeMap::new();
    for pair in files {
        let v: Vec<&str> = pair.0.split('/').collect();
        let key = v.last().unwrap().to_string();
        let mut obj: BTreeMap<String, Json> = BTreeMap::new();
        obj.insert("content".to_string(), Json::String(pair.1.to_string()));
        fmap.insert(key, Json::Object(obj));
    }
    root.insert("public".to_string(), Json::Boolean(public));
    root.insert("files".to_string(), Json::Object(fmap));
    Json::Object(root).to_string()
}

fn library_payload(public: bool, files: &[(&str, &str)]) -> String {
    let mut g = Gist::new(public, true, None).unwrap();
    for pair in files {
        let mut f = GistFile::new(pair.0.to_string());
        f.contents = pair.1.to_string();
        g.add_file(f);
    }
    g.to_json()
}

fn check(public: bool, files: &[(&str, &str)]) {
    assert_eq!(library_payload(public, files), reference_payload(public, files));
}

#[test]
fn agrees_on_empty_request() {
    check(true, &[]);
    check(false, &[]);
}

#[test]
fn agrees_on_plain_files() {
    check(true, &[("/path/to/file.txt", "public file contents")]);
    check(false, &[("notes.md", "# heading"), ("dir/code.rs", "fn main() {}")]);
}

#[test]
fn agrees_on_many_unsorted_names() {
    check(
        true,
        &[
            ("z.txt", "z"),
            ("a/m.txt", "m"),
            ("deep/ly/nested/a.txt", "a"),
            ("b.txt", "b"),
        ],
    );
}

#[test]
fn agrees_on_colliding_names() {
    check(true, &[("a/x.txt", "first"), ("b/x.txt", "second")]);
}

#[test]
fn agrees_on_special_characters() {
    check(
        false,
        &[(
            "weird.txt",
            "quote \" slash \\ newline \n tab \t cr \r bell \u{7} del \u{7f} caf\u{e9} \u{1f600}",
        )],
    );
}

#[test]
fn agrees_on_name_ending_in_separator() {
    check(true, &[("trailing/", "empty key")]);
}
