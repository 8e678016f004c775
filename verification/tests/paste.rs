use rustbin::error::AppError;
use rustbin::paste::{
    apply_field, field_kind, finish_form, new_paste, parse_expiry,
    is_served, paste_ref_fallback, prepare_paste, sanitize_form, served_paste, CreatePasteForm,
    FieldKind, Paste,
};

fn form(content: Option<&str>, expires_in: Option<&str>) -> CreatePasteForm {
    CreatePasteForm {
        expires_in: expires_in.map(str::to_string),
        filename: None,
        language: Some("rs".to_string()),
        content: content.map(str::to_string),
        from_browser: false,
    }
}

#[test]
fn sanitizes_form_fields() {
    let f = CreatePasteForm {
        expires_in: Some("  3600 \t".to_string()),
        filename: Some("  main.rs\n".to_string()),
        language: Some(" RuSt ".to_string()),
        content: Some("line\r\n\r\r".to_string()),
        from_browser: true,
    };
    let s = sanitize_form(f);
    assert_eq!(s.expires_in.as_deref(), Some("3600"));
    assert_eq!(s.filename.as_deref(), Some("main.rs"));
    assert_eq!(s.language.as_deref(), Some("rust"));
    assert_eq!(s.content.as_deref(), Some("line\r\n"));
    assert!(s.from_browser);
}

#[test]
fn missing_expiry_becomes_never() {
    let s = sanitize_form(CreatePasteForm::default());
    assert_eq!(s.expires_in.as_deref(), Some("never"));
    assert_eq!(s.content, None);
    assert_eq!(s.filename, None);
    assert_eq!(s.language, None);
}

#[test]
fn sanitizing_twice_is_sanitizing_once() {
    let f = CreatePasteForm {
        expires_in: Some(" Never ".to_string()),
        filename: Some(" a.TXT ".to_string()),
        language: Some("\u{a0}PY\u{3000}".to_string()),
        content: Some("x\r".to_string()),
        from_browser: false,
    };
    let once = sanitize_form(f);
    let twice = sanitize_form(once.clone());
    assert_eq!(once.expires_in, twice.expires_in);
    assert_eq!(once.filename, twice.filename);
    assert_eq!(once.language, twice.language);
    assert_eq!(once.content, twice.content);
    assert_eq!(once.language.as_deref(), Some("py"));
}

#[test]
fn parses_expiry_options() {
    assert_eq!(parse_expiry("never", 1000), Some(None));
    assert_eq!(parse_expiry("", 1000), Some(None));
    assert_eq!(parse_expiry("3600", 1000), Some(Some(4600)));
    assert_eq!(parse_expiry("+10", 1000), Some(Some(1010)));
    assert_eq!(parse_expiry("0", 1000), None);
    assert_eq!(parse_expiry("-5", 1000), None);
    assert_eq!(parse_expiry("abc", 1000), None);
    assert_eq!(parse_expiry(" 10", 1000), None);
    assert_eq!(parse_expiry("Never", 1000), None);
    assert_eq!(parse_expiry("+", 1000), None);
    assert_eq!(parse_expiry("99999999999999999999", 1000), None);
    assert_eq!(parse_expiry("9223372036854775807", 0), Some(Some(i64::MAX)));
}

#[test]
fn far_expiry_is_held_at_the_largest_time() {
    assert_eq!(parse_expiry("9223372036854775807", 1), Some(Some(i64::MAX)));
    assert_eq!(parse_expiry("10", i64::MAX - 3), Some(Some(i64::MAX)));
    assert_eq!(parse_expiry("3", i64::MAX - 3), Some(Some(i64::MAX)));
    assert_eq!(parse_expiry("2", i64::MAX - 3), Some(Some(i64::MAX - 1)));
    let p = prepare_paste(form(Some("x"), Some("9223372036854775807")), "id".to_string(), 1_000)
        .expect("valid");
    assert_eq!(p.expires_at, Some(i64::MAX));
}

#[test]
fn prepares_paste_row() {
    let p = prepare_paste(form(Some("hello"), Some("60")), "abcdefghij".to_string(), 100)
        .expect("valid paste");
    assert_eq!(p.id, "abcdefghij");
    assert_eq!(p.content, "hello");
    assert_eq!(p.language.as_deref(), Some("rs"));
    assert_eq!(p.created_at, 100);
    assert_eq!(p.expires_at, Some(160));
    let never = prepare_paste(form(Some("x"), None), "id".to_string(), 5).expect("valid");
    assert_eq!(never.expires_at, None);
}

#[test]
fn refuses_empty_paste() {
    match prepare_paste(form(None, None), "id".to_string(), 0) {
        Err(AppError::UnprocessableEntity(m)) => assert_eq!(m, "Can't paste empty input!"),
        other => panic!("unexpected {other:?}"),
    }
    match prepare_paste(form(Some(""), Some("bad")), "id".to_string(), 0) {
        Err(AppError::UnprocessableEntity(m)) => assert_eq!(m, "Can't paste empty input!"),
        other => panic!("unexpected {other:?}"),
    }
}

#[test]
fn refuses_invalid_expiry() {
    match prepare_paste(form(Some("x"), Some("soon")), "id".to_string(), 0) {
        Err(AppError::BadRequest(m)) => assert_eq!(m, "Invalid expiry option."),
        other => panic!("unexpected {other:?}"),
    }
}

#[test]
fn new_paste_gets_fresh_id() {
    let p = new_paste(form(Some("hello"), Some("never"))).expect("valid");
    assert_eq!(p.id.chars().count(), 10);
    assert!(p.id.chars().all(|c| c.is_ascii_alphanumeric() || c == '_' || c == '-'));
    assert_eq!(p.expires_at, None);
    let far = new_paste(form(Some("x"), Some("9223372036854775807"))).expect("valid");
    assert_eq!(far.expires_at, Some(i64::MAX));
}

#[test]
fn reference_with_extension_names_the_paste() {
    assert_eq!(paste_ref_fallback("abc123def4.rs"), Some("abc123def4".to_string()));
    assert_eq!(paste_ref_fallback("a.b.c"), Some("a.b".to_string()));
    assert_eq!(paste_ref_fallback("abc"), None);
    assert_eq!(paste_ref_fallback(".rs"), None);
    assert_eq!(paste_ref_fallback("abc."), None);
}

#[test]
fn multipart_fields() {
    assert_eq!(field_kind("file"), FieldKind::File);
    assert_eq!(field_kind("content"), FieldKind::Content);
    assert_eq!(field_kind("expires_in"), FieldKind::ExpiresIn);
    assert_eq!(field_kind("language"), FieldKind::Other);
    let mut f = CreatePasteForm::default();
    apply_field(&mut f, FieldKind::File, Some("a.rs".to_string()), "fn".to_string());
    apply_field(&mut f, FieldKind::ExpiresIn, None, "60".to_string());
    apply_field(&mut f, FieldKind::Other, None, "ignored".to_string());
    assert_eq!(f.filename.as_deref(), Some("a.rs"));
    assert_eq!(f.content.as_deref(), Some("fn"));
    assert_eq!(f.expires_in.as_deref(), Some("60"));
    assert!(!f.from_browser);
    apply_field(&mut f, FieldKind::Content, None, "typed".to_string());
    assert!(f.from_browser);
    assert_eq!(f.content.as_deref(), Some("typed"));
    assert!(finish_form(f).is_ok());
    match finish_form(CreatePasteForm::default()) {
        Err(AppError::BadRequest(m)) => assert_eq!(m, "Missing multipart file field `file`."),
        other => panic!("unexpected {other:?}"),
    }
}

#[test]
fn expired_pastes_are_not_served() {
    assert!(is_served(None, 1_000));
    assert!(is_served(Some(1_001), 1_000));
    assert!(!is_served(Some(1_000), 1_000));
    assert!(!is_served(Some(999), 1_000));
}

#[test]
fn fresh_paste_is_served_when_created() {
    let row = prepare_paste(form(Some("hello"), Some("60")), "abc".to_string(), 1_000).unwrap();
    assert_eq!(row.expires_at, Some(1_060));
    assert!(is_served(row.expires_at, row.created_at));
    assert!(!is_served(row.expires_at, 1_060));
}

#[test]
fn served_paste_filters_by_expiry() {
    let paste = || Paste {
        id: "abc".to_string(),
        language: None,
        content: "hello".to_string(),
    };
    let kept = served_paste(paste(), None).unwrap();
    assert_eq!(kept.id, "abc");
    assert_eq!(kept.content, "hello");
    assert!(served_paste(paste(), Some(0)).is_none());
    assert!(served_paste(paste(), Some(i64::MAX)).is_some());
}

#[test]
fn empty_content_is_refused_whatever_the_expiry() {
    for expiry in [None, Some("never"), Some("abc"), Some("9223372036854775807")] {
        match new_paste(form(Some(""), expiry)) {
            Err(AppError::UnprocessableEntity(m)) => assert_eq!(m, "Can't paste empty input!"),
            _ => panic!("empty content must be refused"),
        }
        match new_paste(form(None, expiry)) {
            Err(AppError::UnprocessableEntity(m)) => assert_eq!(m, "Can't paste empty input!"),
            _ => panic!("missing content must be refused"),
        }
    }
}

#[test]
fn new_paste_errors_only_on_invalid_expiry() {
    match new_paste(form(Some("hi"), Some("-5"))) {
        Err(AppError::BadRequest(m)) => assert_eq!(m, "Invalid expiry option."),
        _ => panic!("invalid expiry must be refused"),
    }
    for expiry in [None, Some("never"), Some(""), Some("60")] {
        assert!(matches!(new_paste(form(Some("hi"), expiry)), Ok(_)));
    }
}
