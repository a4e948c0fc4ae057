use gist::Error;
use gist::Gist;
use gist::GistFile;
use gist::HttpOutcome;

fn fake_gist_file(contents: Option<&str>) -> GistFile {
    let mut f = GistFile::new("/path/to/file.txt".to_string());
    if contents.is_some() {
        f.contents = contents.unwrap().to_string();
    }
    return f;
}

#[test]
fn add_files() {
    let mut g = Gist::new(true, true, None).unwrap();
    g.add_file(fake_gist_file(None));
    g.add_file(fake_gist_file(None));
    assert_eq!(g.files.len(), 2);
}

#[test]
fn emptyness() {
    let mut g = Gist::new(true, true, None).unwrap();
    assert!(g.is_empty());

    g.add_file(fake_gist_file(None));
    assert!(!g.is_empty());
}

#[test]
fn public_json() {
    let mut public = Gist::new(true, true, None).unwrap();
    public.add_file(fake_gist_file(Some("public file contents")));

    let public_json = public.to_json();
    assert_eq!(
        public_json,
        "{\"files\":{\"file.txt\":{\"content\":\"public file \
         contents\"}},\"public\":true}"
    );
}

#[test]
fn private_json() {
    let mut private = Gist::new(false, true, None).unwrap();
    private.add_file(fake_gist_file(Some("private file contents")));

    let private_json = private.to_json();
    assert_eq!(
        private_json,
        "{\"files\":{\"file.txt\":{\"content\":\"private file \
         contents\"}},\"public\":false}"
    );
}

#[test]
fn missing_token_is_configuration_error() {
    let r = Gist::new(true, false, None);
    assert!(r.is_err());
    assert_eq!(r.err().unwrap(), Error::ConfigurationError);
}

#[test]
fn token_kept_when_supplied() {
    let g = Gist::new(false, false, Some("token123".to_string())).unwrap();
    assert_eq!(g.token, "token123");
    let req = g.create_request();
    assert_eq!(req.auth_bearer, Some("token123".to_string()));
}

#[test]
fn anonymous_discards_supplied_token() {
    let g = Gist::new(true, true, Some("token123".to_string())).unwrap();
    assert_eq!(g.token, "");
    let req = g.create_request();
    assert_eq!(req.auth_bearer, None);
}

#[test]
fn anonymous_request_has_no_credential() {
    let mut g = Gist::new(true, true, None).unwrap();
    g.add_file(fake_gist_file(Some("x")));
    let req = g.create_request();
    assert_eq!(req.method, "POST");
    assert_eq!(req.url, "https://api.github.com/gists");
    assert_eq!(req.user_agent, "Pepito Gist");
    assert_eq!(req.content_type, "application/json");
    assert_eq!(req.auth_bearer, None);
    assert_eq!(req.body, g.to_json());
}

#[test]
fn created_response_returns_body_unchanged() {
    let g = Gist::new(true, true, None).unwrap();
    let outcome = HttpOutcome::Response { status: 201, body: "{\"id\":\"abc\"}".to_string() };
    assert_eq!(g.create(outcome), Ok("{\"id\":\"abc\"}".to_string()));
}

#[test]
fn non_created_response_is_api_error() {
    let g = Gist::new(true, true, None).unwrap();
    let outcome = HttpOutcome::Response { status: 422, body: "unprocessable".to_string() };
    assert_eq!(g.create(outcome), Err(Error::ApiError));
}

#[test]
fn transport_failure_is_network_error() {
    let g = Gist::new(true, true, None).unwrap();
    assert_eq!(g.create(HttpOutcome::TransportFailure), Err(Error::NetworkError));
}

#[test]
fn key_is_final_path_segment() {
    let mut g = Gist::new(true, true, None).unwrap();
    let mut f = GistFile::new("/very/deeply/nested/dirs/deep.txt".to_string());
    f.contents = "d".to_string();
    g.add_file(f);
    assert_eq!(
        g.to_json(),
        "{\"files\":{\"deep.txt\":{\"content\":\"d\"}},\"public\":true}"
    );
}

#[test]
fn name_without_separator_is_its_own_key() {
    let mut g = Gist::new(true, true, None).unwrap();
    let mut f = GistFile::new("plain.txt".to_string());
    f.contents = "p".to_string();
    g.add_file(f);
    assert_eq!(
        g.to_json(),
        "{\"files\":{\"plain.txt\":{\"content\":\"p\"}},\"public\":true}"
    );
}

#[test]
fn colliding_names_keep_later_content_only() {
    let mut g = Gist::new(true, true, None).unwrap();
    let mut f1 = GistFile::new("a/x.txt".to_string());
    f1.contents = "first".to_string();
    let mut f2 = GistFile::new("b/x.txt".to_string());
    f2.contents = "second".to_string();
    g.add_file(f1);
    g.add_file(f2);
    assert_eq!(
        g.to_json(),
        "{\"files\":{\"x.txt\":{\"content\":\"second\"}},\"public\":true}"
    );
}

#[test]
fn keys_are_sorted_regardless_of_insertion_order() {
    let mut g = Gist::new(true, true, None).unwrap();
    let mut fb = GistFile::new("b.txt".to_string());
    fb.contents = "bee".to_string();
    let mut fa = GistFile::new("dir/a.txt".to_string());
    fa.contents = "ay".to_string();
    g.add_file(fb);
    g.add_file(fa);
    assert_eq!(
        g.to_json(),
        "{\"files\":{\"a.txt\":{\"content\":\"ay\"},\"b.txt\":{\"content\":\"bee\"}},\"public\":true}"
    );
}

#[test]
fn zero_files_serialize_to_empty_object() {
    let g = Gist::new(false, true, None).unwrap();
    assert_eq!(g.to_json(), "{\"files\":{},\"public\":false}");
}

#[test]
fn file_entry_serializes_single_content_key() {
    let mut f = GistFile::new("whatever".to_string());
    f.contents = "hello".to_string();
    assert_eq!(f.to_json(), "{\"content\":\"hello\"}");
}

#[test]
fn escaping_matches_json_rules() {
    let mut f = GistFile::new("esc.txt".to_string());
    f.contents = "quote \" slash \\ newline \n tab \t cr \r".to_string();
    assert_eq!(
        f.to_json(),
        "{\"content\":\"quote \\\" slash \\\\ newline \\n tab \\t cr \\r\"}"
    );
}

#[test]
fn control_characters_get_unicode_escapes() {
    let mut f = GistFile::new("ctl.txt".to_string());
    f.contents = "\u{1}\u{b}\u{1f}\u{7f}".to_string();
    assert_eq!(
        f.to_json(),
        "{\"content\":\"\\u0001\\u000b\\u001f\\u007f\"}"
    );
}

#[test]
fn error_messages() {
    assert_eq!(
        Error::ConfigurationError.message(),
        "Missing GITHUB_TOKEN environment variable."
    );
    assert_eq!(Error::ApiError.message(), "API error.");
}

#[test]
fn same_file_map_gives_identical_payload() {
    let mut g1 = Gist::new(true, true, None).unwrap();
    let mut f = GistFile::new("a/x.txt".to_string());
    f.contents = "old".to_string();
    g1.add_file(f);
    let mut f = GistFile::new("y.txt".to_string());
    f.contents = "why".to_string();
    g1.add_file(f);
    let mut f = GistFile::new("deep/dir/x.txt".to_string());
    f.contents = "new".to_string();
    g1.add_file(f);

    let mut g2 = Gist::new(true, false, Some("token123".to_string())).unwrap();
    let mut f = GistFile::new("x.txt".to_string());
    f.contents = "new".to_string();
    g2.add_file(f);
    let mut f = GistFile::new("elsewhere/y.txt".to_string());
    f.contents = "why".to_string();
    g2.add_file(f);

    assert_eq!(g1.to_json(), g2.to_json());
}
