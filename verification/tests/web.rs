use rustbin::error::{bad_request, AppError};
use rustbin::paste::{sanitize_form, CreatePasteForm, Paste};
use rustbin::web::{
    build_paste_url, creation_response, forwarded_value, is_url, link_destination, paste_extension,
    paste_view, render_cache_key, CreatedResponse, PasteView, RequestHeaders,
};

#[test]
fn recognizes_short_links() {
    assert!(is_url("https://example.com"));
    assert!(is_url("  http://example.com/a?b=c \n"));
    assert!(!is_url("https://example.com\nsecond line"));
    assert!(!is_url("ftp://example.com"));
    assert!(!is_url("see https://example.com"));
    assert_eq!(link_destination("  https://example.com \n"), "https://example.com");
}

#[test]
fn cache_keys() {
    assert_eq!(render_cache_key("abc", Some("rs")), "abc:rs");
    assert_eq!(render_cache_key("abc", Some("  rs ")), "abc:rs");
    assert_eq!(render_cache_key("abc", Some("  ")), "abc");
    assert_eq!(render_cache_key("abc", None), "abc");
}

#[test]
fn forwarded_values() {
    assert_eq!(forwarded_value(" https , http"), "https");
    assert_eq!(forwarded_value("example.com"), "example.com");
    assert_eq!(forwarded_value(""), "");
}

#[test]
fn builds_paste_urls() {
    let none = RequestHeaders { forwarded_host: None, host: None, forwarded_proto: None, forwarded_prefix: None };
    assert_eq!(build_paste_url(&none, "abc"), "http://localhost/abc");
    let host = RequestHeaders { host: Some("bin.example.com".to_string()), ..none };
    assert_eq!(build_paste_url(&host, "abc"), "http://bin.example.com/abc");
    let proxied = RequestHeaders {
        forwarded_host: Some("public.example, inner".to_string()),
        host: Some("internal:8080".to_string()),
        forwarded_proto: Some("https".to_string()),
        forwarded_prefix: Some("/bin".to_string()),
    };
    assert_eq!(build_paste_url(&proxied, "abc"), "https://public.example/bin/abc");
}

#[test]
fn creation_answers() {
    match creation_response(true, Some("https://x.y".to_string()), "http://h/id".to_string()) {
        CreatedResponse::LinkPage { short_url, destination } => {
            assert_eq!(short_url, "http://h/id");
            assert_eq!(destination, "https://x.y");
        }
        _ => panic!("expected link page"),
    }
    match creation_response(true, None, "http://h/id".to_string()) {
        CreatedResponse::SeeOther { location } => assert_eq!(location, "http://h/id"),
        _ => panic!("expected redirect"),
    }
    match creation_response(false, Some("https://x.y".to_string()), "http://h/id".to_string()) {
        CreatedResponse::Created { location, body } => {
            assert_eq!(location, "http://h/id");
            assert_eq!(body, "http://h/id\n");
        }
        _ => panic!("expected created"),
    }
}

#[test]
fn display_extensions() {
    assert_eq!(paste_extension("abc.md", Some("rs")), Some("md".to_string()));
    assert_eq!(paste_extension("abc", Some("rs")), Some("rs".to_string()));
    assert_eq!(paste_extension("abc", None), None);
    assert_eq!(paste_extension("abc.", Some("rs")), Some("".to_string()));
}

#[test]
fn paste_views() {
    let link = Paste { id: "a".to_string(), language: None, content: " https://e.x/p \n".to_string() };
    match paste_view("a", &link) {
        PasteView::Redirect { url } => assert_eq!(url, "https://e.x/p"),
        _ => panic!("expected redirect"),
    }
    let md = Paste { id: "b".to_string(), language: Some("rs".to_string()), content: "# T".to_string() };
    match paste_view("b.MD", &md) {
        PasteView::Page { extension, is_markdown, cache_key } => {
            assert_eq!(extension.as_deref(), Some("MD"));
            assert!(is_markdown);
            assert_eq!(cache_key, "b:MD");
        }
        _ => panic!("expected page"),
    }
    match paste_view("b", &md) {
        PasteView::Page { extension, is_markdown, cache_key } => {
            assert_eq!(extension.as_deref(), Some("rs"));
            assert!(!is_markdown);
            assert_eq!(cache_key, "b:rs");
        }
        _ => panic!("expected page"),
    }
}

#[test]
fn error_answers() {
    let e = AppError::NotFound("Paste not found.").response_parts();
    assert_eq!((e.status, e.code, e.message.as_str()), (404, "404", "Paste not found."));
    let e = AppError::UnprocessableEntity("Can't paste empty input!").response_parts();
    assert_eq!((e.status, e.code), (422, "422"));
    let e = AppError::BadRequest("bad".to_string()).response_parts();
    assert_eq!((e.status, e.code, e.message.as_str()), (400, "400", "bad"));
    let e = AppError::Internal(sqlx::Error::PoolClosed).response_parts();
    assert_eq!((e.status, e.code, e.message.as_str()), (500, "500", "Internal server error."));
    match bad_request(42) {
        AppError::BadRequest(m) => assert_eq!(m, "42"),
        _ => panic!("expected bad request"),
    }
}

#[test]
fn short_link_survives_storage() {
    let submitted = "https://example.com/page\r\r";
    assert!(is_url(submitted));
    let shown = link_destination(submitted);
    let form = CreatePasteForm {
        content: Some(submitted.to_string()),
        ..CreatePasteForm::default()
    };
    let stored = sanitize_form(form).content.unwrap();
    assert_eq!(stored, "https://example.com/page");
    assert!(is_url(&stored));
    assert_eq!(link_destination(&stored), shown);
    assert_eq!(shown, "https://example.com/page");
}
