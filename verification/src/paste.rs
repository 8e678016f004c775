//! The paste form and the rules that turn it into a stored paste: how its
//! fields are cleaned, when it is refused, and when it expires.
use vstd::prelude::*;

use crate::error::AppError;
use crate::text::{
    all_digits, ascii_lower, chars_of, digits_value, is_ascii_digit, lemma_digits_value_nonneg,
    lemma_digits_value_prefix, lowered_string, opt_view, parse_i64, range_equals,
    skip_trailing, string_of, trim, trim_bounds, trim_end_class, trim_str, CharClass,
};

verus! {

/// A paste as submitted: each field as it came in, absent when the request did not carry it.
#[derive(Debug, Default, Clone)]
pub struct CreatePasteForm {
    pub expires_in: Option<String>,
    pub filename: Option<String>,
    pub language: Option<String>,
    pub content: Option<String>,
    pub from_browser: bool,
}

/// A stored paste, as it is read back.
#[derive(Debug, Clone)]
pub struct Paste {
    pub id: String,
    pub language: Option<String>,
    pub content: String,
}

/// A paste ready to be stored: its row in the `pastes` table.
#[derive(Debug, Clone)]
pub struct NewPaste {
    pub id: String,
    pub language: Option<String>,
    pub content: String,
    pub created_at: i64,
    pub expires_at: Option<i64>,
}

pub open spec fn never() -> Seq<char> {
    "never"@
}

/// The expiry option that the form asks for; `"never"` when it names none.
pub open spec fn requested_expiry(form: CreatePasteForm) -> Seq<char> {
    match form.expires_in {
        Some(e) => e@,
        None => never(),
    }
}

pub open spec fn sanitized_content(c: Option<Seq<char>>) -> Option<Seq<char>> {
    match c {
        Some(s) => Some(trim_end_class(s, CharClass::Exactly('\r'))),
        None => None,
    }
}

pub open spec fn sanitized_filename(f: Option<Seq<char>>) -> Option<Seq<char>> {
    match f {
        Some(s) => Some(trim(s)),
        None => None,
    }
}

pub open spec fn sanitized_language(l: Option<Seq<char>>) -> Option<Seq<char>> {
    match l {
        Some(s) => Some(ascii_lower(trim(s))),
        None => None,
    }
}

/// Cleaning a clean form changes none of its fields.
pub proof fn lemma_sanitize_idempotent(
    form: CreatePasteForm,
    once: CreatePasteForm,
    twice: CreatePasteForm,
)
    requires
        is_sanitized(once, form),
        is_sanitized(twice, once),
    ensures
        opt_view(twice.expires_in) == opt_view(once.expires_in),
        opt_view(twice.content) == opt_view(once.content),
        opt_view(twice.filename) == opt_view(once.filename),
        opt_view(twice.language) == opt_view(once.language),
        twice.from_browser == once.from_browser,
{
    crate::text::lemma_trim_idempotent(requested_expiry(form));
    if let Some(c) = form.content {
        crate::text::lemma_trim_end_idempotent(c@, CharClass::Exactly('\r'));
    }
    if let Some(f) = form.filename {
        crate::text::lemma_trim_idempotent(f@);
    }
    if let Some(l) = form.language {
        crate::text::lemma_lower_trimmed(l@);
    }
}

/// The number of seconds that an expiry option names: a positive `i64`.
pub open spec fn expiry_seconds(value: Seq<char>) -> Option<int> {
    match parse_i64(value) {
        Some(s) => if s > 0 {
            Some(s)
        } else {
            None
        },
        None => None,
    }
}

/// A time, held at the largest `i64` when it lies beyond.
pub open spec fn saturated(t: int) -> int {
    if t > i64::MAX {
        i64::MAX as int
    } else {
        t
    }
}

/// What an expiry option means at time `now`: `Some(None)` for a paste that never
/// expires (`"never"` or nothing), `Some(Some(t))` for one that expires at `t`,
/// `now` plus the seconds (held at the largest `i64`), `None` for an option that
/// is refused.
pub open spec fn expiry_at(value: Seq<char>, now: int) -> Option<Option<int>> {
    if value == never() || value.len() == 0 {
        Some(None)
    } else {
        match expiry_seconds(value) {
            Some(s) => Some(Some(saturated(now + s))),
            None => None,
        }
    }
}

/// Whether a paste that expires at `expires_at` (never, for `None`) is still
/// served at time `now`: until the moment it expires, not from then on.
pub open spec fn is_live(expires_at: Option<int>, now: int) -> bool {
    match expires_at {
        Some(t) => t > now,
        None => true,
    }
}

pub open spec fn opt_int(o: Option<i64>) -> Option<int> {
    match o {
        Some(t) => Some(t as int),
        None => None,
    }
}

/// An expiring paste expires after the moment it is created, so a paste is
/// served at the time it is created, whatever expiry option it was given.
pub proof fn lemma_expiry_in_future(value: Seq<char>, now: int)
    requires
        now < i64::MAX,
    ensures
        expiry_at(value, now) matches Some(Some(t)) ==> t > now,
        expiry_at(value, now) matches Some(e) ==> is_live(e, now),
{
}

pub open spec fn empty_input() -> Seq<char> {
    "Can't paste empty input!"@
}

pub open spec fn invalid_expiry() -> Seq<char> {
    "Invalid expiry option."@
}

/// Whether `res` is `form` with its fields cleaned: the expiry option trimmed
/// (`"never"` when absent), trailing carriage returns dropped from the content,
/// the filename trimmed and the language trimmed and lowered.
pub open spec fn is_sanitized(res: CreatePasteForm, form: CreatePasteForm) -> bool {
    &&& opt_view(res.expires_in) == Some(trim(requested_expiry(form)))
    &&& opt_view(res.content) == sanitized_content(opt_view(form.content))
    &&& opt_view(res.filename) == sanitized_filename(opt_view(form.filename))
    &&& opt_view(res.language) == sanitized_language(opt_view(form.language))
    &&& res.from_browser == form.from_browser
}

/// The form with its fields cleaned.
pub fn sanitize_form(form: CreatePasteForm) -> (res: CreatePasteForm)
    ensures
        is_sanitized(res, form),
{
    let expires_in = match &form.expires_in {
        Some(e) => trim_str(e.as_str()),
        None => trim_str("never"),
    };
    let content = match &form.content {
        Some(c) => {
            let v = chars_of(c.as_str());
            let end = skip_trailing(&v, 0, v.len(), CharClass::Exactly('\r'));
            proof {
                assert(v@.subrange(0, v@.len() as int) =~= v@);
            }
            Some(string_of(&v, 0, end))
        },
        None => None,
    };
    let filename = match &form.filename {
        Some(f) => Some(trim_str(f.as_str())),
        None => None,
    };
    let language = match &form.language {
        Some(l) => {
            let v = chars_of(l.as_str());
            let (a, b) = trim_bounds(&v, 0, v.len());
            proof {
                assert(v@.subrange(0, v@.len() as int) =~= v@);
            }
            Some(lowered_string(&v, a, b))
        },
        None => None,
    };
    proof {
        if let Some(c) = form.content {
            assert(opt_view(content) == sanitized_content(opt_view(form.content)));
        }
    }
    CreatePasteForm {
        expires_in: Some(expires_in),
        filename,
        language,
        content,
        from_browser: form.from_browser,
    }
}

/// The positive number of seconds that `v[lo..hi]` names, if it names one
/// (an optional `+`, then digits, within `i64`).
fn positive_seconds(v: &Vec<char>) -> (res: Option<i64>)
    ensures
        match res {
            Some(s) => expiry_seconds(v@) == Some(s as int),
            None => expiry_seconds(v@) is None,
        },
{
    let n = v.len();
    if n == 0 {
        return None;
    }
    let neg = v[0] == '-';
    let start: usize = if v[0] == '-' || v[0] == '+' {
        1
    } else {
        0
    };
    let ghost digits = v@.skip(start as int);
    proof {
        if start == 1 {
            assert(v@.drop_first() =~= v@.skip(1));
        } else {
            assert(v@.skip(0) =~= v@);
        }
    }
    if start == n {
        return None;
    }
    let mut acc: i64 = 0;
    let mut i = start;
    while i < n
        invariant
            start <= i <= n == v@.len(),
            start < n,
            digits == v@.skip(start as int),
            start == 1 ==> v@.drop_first() == digits,
            start == 0 ==> v@ == digits,
            (start == 1) == (v@[0] == '-' || v@[0] == '+'),
            start <= 1,
            neg == (v@[0] == '-'),
            all_digits(digits.take(i - start)),
            acc as int == digits_value(digits.take(i - start)),
            0 <= acc,
        decreases n - i,
    {
        let c = v[i];
        if !('0' <= c && c <= '9') {
            proof {
                assert(digits[i - start] == c);
                assert(!all_digits(digits));
            }
            return None;
        }
        let d: i64 = (c as u32 - '0' as u32) as i64;
        let next: i128 = (acc as i128) * 10 + (d as i128);
        proof {
            let t = digits.take(i + 1 - start);
            assert(t.drop_last() =~= digits.take(i - start));
            assert(t.last() == c);
            assert(all_digits(t));
        }
        if next > i64::MAX as i128 {
            proof {
                if all_digits(digits) {
                    lemma_digits_value_prefix(digits, i + 1 - start);
                }
            }
            return None;
        }
        acc = next as i64;
        i = i + 1;
    }
    proof {
        assert(digits.take(n - start) =~= digits);
    }
    if neg {
        proof {
            lemma_digits_value_nonneg(digits);
        }
        None
    } else if acc == 0 {
        None
    } else {
        Some(acc)
    }
}

/// What the expiry option `value` means at time `now`: `Some(None)` for `"never"`
/// or an empty option, `Some(Some(now + s))` for a positive number `s` of seconds
/// (held at the largest `i64`), and `None` for anything else.
pub fn parse_expiry(value: &str, now: i64) -> (res: Option<Option<i64>>)
    ensures
        match res {
            Some(Some(t)) => expiry_at(value@, now as int) == Some(Some(t as int)),
            Some(None) => expiry_at(value@, now as int) == Some(None::<int>),
            None => expiry_at(value@, now as int) is None,
        },
{
    let v = chars_of(value);
    if v.len() == 0 || range_equals(&v, 0, v.len(), "never") {
        proof {
            assert(v@.subrange(0, v@.len() as int) =~= v@);
        }
        return Some(None);
    }
    proof {
        assert(v@.subrange(0, v@.len() as int) =~= v@);
    }
    match positive_seconds(&v) {
        Some(s) => {
            if now > i64::MAX - s {
                Some(Some(i64::MAX))
            } else {
                Some(Some(now + s))
            }
        },
        None => None,
    }
}

/// The row to store for `form`, identified by `id` and created at `now`.
/// Refused when the content is missing or empty, or when the expiry option is invalid.
pub fn prepare_paste(form: CreatePasteForm, id: String, now: i64) -> (res: Result<
    NewPaste,
    AppError,
>)
    ensures
        match res {
            Ok(p) => {
                &&& form.content matches Some(c) && c@.len() > 0
                &&& expiry_at(requested_expiry(form), now as int) matches Some(e)
                &&& p.id@ == id@
                &&& opt_view(p.language) == opt_view(form.language)
                &&& p.content@ == form.content->0@
                &&& p.created_at == now
                &&& match p.expires_at {
                    Some(t) => e == Some(t as int),
                    None => e == None::<int>,
                }
            },
            Err(AppError::UnprocessableEntity(m)) => m@ == empty_input() && (
            form.content is None || form.content->0@.len() == 0),
            Err(AppError::BadRequest(m)) => {
                &&& m@ == invalid_expiry()
                &&& form.content matches Some(c) && c@.len() > 0
                &&& expiry_at(requested_expiry(form), now as int) is None
            },
            Err(_) => false,
        },
{
    let content = match form.content {
        Some(c) => c,
        None => {
            return Err(AppError::UnprocessableEntity("Can't paste empty input!"));
        },
    };
    if content.as_str().is_empty() {
        return Err(AppError::UnprocessableEntity("Can't paste empty input!"));
    }
    let expires_at = match &form.expires_in {
        Some(e) => parse_expiry(e.as_str(), now),
        None => parse_expiry("never", now),
    };
    let expires_at = match expires_at {
        Some(e) => e,
        None => {
            return Err(AppError::BadRequest("Invalid expiry option.".to_owned()));
        },
    };
    Ok(NewPaste { id, language: form.language, content, created_at: now, expires_at })
}

/// The current time in seconds since the Unix epoch.
/// Calls `time::OffsetDateTime::now_utc` and `unix_timestamp`; the result depends on
/// the clock, so nothing is stated of it.
#[verifier::external_body]
fn now_timestamp() -> (res: i64) {
    time::OffsetDateTime::now_utc().unix_timestamp()
}

pub open spec fn is_url_safe_char(c: char) -> bool {
    ||| ('a' <= c && c <= 'z')
    ||| ('A' <= c && c <= 'Z')
    ||| ('0' <= c && c <= '9')
    ||| c == '_'
    ||| c == '-'
}

/// A fresh random paste id of ten URL-safe characters.
/// Calls `nanoid::format` with `nanoid::rngs::default` and the alphabet
/// `nanoid::alphabet::SAFE` (64 characters, `A-Za-z0-9_-`), as `nanoid!(10)` does;
/// its source pushes one alphabet character per requested byte, so the id has
/// ten of them. Which ones is random and is not stated.
#[verifier::external_body]
fn new_paste_id() -> (res: String)
    ensures
        res@.len() == 10,
        forall|i: int| 0 <= i < res@.len() ==> is_url_safe_char(#[trigger] res@[i]),
{
    nanoid::format(nanoid::rngs::default, &nanoid::alphabet::SAFE, 10)
}

/// Whether the form's content is missing or empty.
pub open spec fn content_missing(form: CreatePasteForm) -> bool {
    form.content is None || form.content->0@.len() == 0
}

/// Whether an expiry option is accepted: `"never"`, empty, or a positive `i64`
/// number of seconds. Unlike the time it names, this does not depend on the clock.
pub open spec fn expiry_valid(value: Seq<char>) -> bool {
    value == never() || value.len() == 0 || expiry_seconds(value) is Some
}

/// The row to store for `form`, under a fresh id and stamped with the current time.
/// Empty content is refused before anything else, an invalid expiry option next.
pub fn new_paste(form: CreatePasteForm) -> (res: Result<NewPaste, AppError>)
    ensures
        content_missing(form) ==> (res matches Err(AppError::UnprocessableEntity(m)) && m@
            == empty_input()),
        !content_missing(form) && !expiry_valid(requested_expiry(form)) ==> (res matches Err(
            AppError::BadRequest(m),
        ) && m@ == invalid_expiry()),
        !content_missing(form) && expiry_valid(requested_expiry(form)) ==> res is Ok,
        res matches Ok(p) ==> {
            &&& p.id@.len() == 10
            &&& forall|i: int| 0 <= i < p.id@.len() ==> is_url_safe_char(#[trigger] p.id@[i])
            &&& form.content matches Some(c) && c@.len() > 0 && p.content@ == c@
            &&& opt_view(p.language) == opt_view(form.language)
            &&& expiry_at(requested_expiry(form), p.created_at as int) matches Some(e)
            &&& match p.expires_at {
                Some(t) => e == Some(t as int),
                None => e == None::<int>,
            }
        },
{
    let empty = match &form.content {
        Some(c) => c.as_str().is_empty(),
        None => true,
    };
    if empty {
        return Err(AppError::UnprocessableEntity("Can't paste empty input!"));
    }
    let id = new_paste_id();
    let now = now_timestamp();
    prepare_paste(form, id, now)
}

/// Whether a paste that expires at `expires_at` is still served at time `now`.
pub fn is_served(expires_at: Option<i64>, now: i64) -> (res: bool)
    ensures
        res == is_live(opt_int(expires_at), now as int),
{
    match expires_at {
        Some(t) => t > now,
        None => true,
    }
}

/// The stored `paste`, which expires at `expires_at`, if it is still served at the
/// time read from the clock.
pub fn served_paste(paste: Paste, expires_at: Option<i64>) -> (res: Option<Paste>)
    ensures
        res matches Some(p) ==> p == paste,
        exists|now: int| (res is Some) == is_live(opt_int(expires_at), now),
{
    let now = now_timestamp();
    if is_served(expires_at, now) {
        Some(paste)
    } else {
        None
    }
}

/// The id that a paste reference names when it is not itself an id: the part
/// before its last `.`, when both that part and the extension after it are non-empty.
pub open spec fn reference_base(r: Seq<char>) -> Option<Seq<char>> {
    match crate::text::rsplit_once(r, '.') {
        Some((id, ext)) => if id.len() > 0 && ext.len() > 0 {
            Some(id)
        } else {
            None
        },
        None => None,
    }
}

/// The id to look up when no paste has the id `paste_ref` itself (`abc123.rs` names `abc123`).
pub fn paste_ref_fallback(paste_ref: &str) -> (res: Option<String>)
    ensures
        opt_view(res) == reference_base(paste_ref@),
{
    let v = chars_of(paste_ref);
    match crate::text::last_index_of(&v, 0, v.len(), '.') {
        Some(i) => {
            proof {
                let s = v@.subrange(0, v@.len() as int);
                assert(s =~= v@);
                crate::text::lemma_last_index_unique(v@, '.', i as int);
            }
            if i > 0 && i + 1 < v.len() {
                let r = string_of(&v, 0, i);
                proof {
                    assert(v@.take(i as int) =~= v@.subrange(0, i as int));
                }
                Some(r)
            } else {
                proof {
                    assert(v@.skip(i + 1).len() == v@.len() - i - 1);
                }
                None
            }
        },
        None => {
            proof {
                assert(v@.subrange(0, v@.len() as int) =~= v@);
            }
            None
        },
    }
}

/// What a field of the multipart upload form carries.
#[derive(Debug, Clone, Copy, PartialEq, Eq, Structural)]
pub enum FieldKind {
    /// `file`: the paste uploaded as a file.
    File,
    /// `content`: the paste typed into the browser form.
    Content,
    /// `expires_in`: the expiry option.
    ExpiresIn,
    /// Anything else, read and ignored.
    Other,
}

pub open spec fn field_kind_of(name: Seq<char>) -> FieldKind {
    if name == "file"@ {
        FieldKind::File
    } else if name == "content"@ {
        FieldKind::Content
    } else if name == "expires_in"@ {
        FieldKind::ExpiresIn
    } else {
        FieldKind::Other
    }
}

/// The kind of the multipart field named `name`.
pub fn field_kind(name: &str) -> (res: FieldKind)
    ensures
        res == field_kind_of(name@),
{
    let v = chars_of(name);
    proof {
        assert(v@.subrange(0, v@.len() as int) =~= v@);
    }
    if range_equals(&v, 0, v.len(), "file") {
        FieldKind::File
    } else if range_equals(&v, 0, v.len(), "content") {
        FieldKind::Content
    } else if range_equals(&v, 0, v.len(), "expires_in") {
        FieldKind::ExpiresIn
    } else {
        FieldKind::Other
    }
}

/// The form after a field of kind `kind` with text `text` (and, for a file, the
/// uploaded file's name `file_name`): a file sets the filename and the content, a
/// browser field the content and marks the form as coming from a browser, the
/// expiry field the expiry option; any other field changes nothing. A later field
/// replaces what an earlier one set.
pub fn apply_field(form: &mut CreatePasteForm, kind: FieldKind, file_name: Option<String>, text: String)
    ensures
        kind == FieldKind::File ==> {
            &&& opt_view(final(form).filename) == opt_view(file_name)
            &&& opt_view(final(form).content) == Some(text@)
            &&& opt_view(final(form).expires_in) == opt_view(old(form).expires_in)
            &&& opt_view(final(form).language) == opt_view(old(form).language)
            &&& final(form).from_browser == old(form).from_browser
        },
        kind == FieldKind::Content ==> {
            &&& opt_view(final(form).filename) == opt_view(old(form).filename)
            &&& opt_view(final(form).content) == Some(text@)
            &&& opt_view(final(form).expires_in) == opt_view(old(form).expires_in)
            &&& opt_view(final(form).language) == opt_view(old(form).language)
            &&& final(form).from_browser
        },
        kind == FieldKind::ExpiresIn ==> {
            &&& opt_view(final(form).filename) == opt_view(old(form).filename)
            &&& opt_view(final(form).content) == opt_view(old(form).content)
            &&& opt_view(final(form).expires_in) == Some(text@)
            &&& opt_view(final(form).language) == opt_view(old(form).language)
            &&& final(form).from_browser == old(form).from_browser
        },
        kind == FieldKind::Other ==> *final(form) == *old(form),
{
    match kind {
        FieldKind::File => {
            form.filename = file_name;
            form.content = Some(text);
        },
        FieldKind::Content => {
            form.from_browser = true;
            form.content = Some(text);
        },
        FieldKind::ExpiresIn => {
            form.expires_in = Some(text);
        },
        FieldKind::Other => {},
    }
}

pub open spec fn missing_file_field() -> Seq<char> {
    "Missing multipart file field `file`."@
}

/// The parsed form, refused when no field gave it content.
pub fn finish_form(form: CreatePasteForm) -> (res: Result<CreatePasteForm, AppError>)
    ensures
        form.content is None ==> (res matches Err(AppError::BadRequest(m)) && m@
            == missing_file_field()),
        form.content is Some ==> res == Ok::<CreatePasteForm, AppError>(form),
{
    if form.content.is_none() {
        return Err(AppError::BadRequest("Missing multipart file field `file`.".to_owned()));
    }
    Ok(form)
}

} // verus!
