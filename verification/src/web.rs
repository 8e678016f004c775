//! The decisions that the request handlers make: short links, the URL of a new
//! paste, the answer to a paste's creation, and how a stored paste is shown.
use vstd::prelude::*;

use crate::paste::Paste;
use crate::text::{
    chars_of, has_char, is_prefix, last_index_of, lemma_last_index_unique, opt_str_view,
    opt_view, range_has_char, range_starts_with, rsplit_once, string_of, trim, trim_bounds,
    trim_end_class, trim_str, CharClass,
};

verus! {

/// A paste is a short link when, trimmed, it is one line that starts with
/// `http://` or `https://`.
pub open spec fn is_url_spec(content: Seq<char>) -> bool {
    let t = trim(content);
    &&& !has_char(t, '\n')
    &&& (is_prefix("http://"@, t) || is_prefix("https://"@, t))
}

/// Whether `content` is a short link.
pub fn is_url(content: &str) -> (res: bool)
    ensures
        res == is_url_spec(content@),
{
    let v = chars_of(content);
    let (a, b) = trim_bounds(&v, 0, v.len());
    proof {
        assert(v@.subrange(0, v@.len() as int) =~= v@);
    }
    !range_has_char(&v, a, b, '\n') && (range_starts_with(&v, a, b, "http://")
        || range_starts_with(&v, a, b, "https://"))
}

/// The destination of a short link: the content, trimmed.
pub fn link_destination(content: &str) -> (res: String)
    ensures
        res@ == trim(content@),
{
    trim_str(content)
}

/// The key under which the rendering of paste `id` shown with `extension` is cached:
/// `id:ext` with the extension trimmed, or the bare id when there is no extension.
pub open spec fn cache_key(id: Seq<char>, extension: Option<Seq<char>>) -> Seq<char> {
    match extension {
        Some(e) => if trim(e).len() > 0 {
            id + seq![':'] + trim(e)
        } else {
            id
        },
        None => id,
    }
}

pub fn render_cache_key(id: &str, extension: Option<&str>) -> (res: String)
    ensures
        res@ == cache_key(id@, opt_str_view(extension)),
{
    let mut key = String::from_str(id);
    match extension {
        Some(e) => {
            let t = trim_str(e);
            if !t.as_str().is_empty() {
                crate::text::push_char(&mut key, ':');
                key.append(t.as_str());
            }
        },
        None => {},
    }
    key
}

/// The first comma-separated value of a forwarding header, trimmed.
pub open spec fn first_forwarded(value: Seq<char>) -> Seq<char> {
    match crate::text::first_index_of(value, ',') {
        Some(i) => trim(value.take(i)),
        None => trim(value),
    }
}

pub fn forwarded_value(value: &str) -> (res: String)
    ensures
        res@ == first_forwarded(value@),
{
    let v = chars_of(value);
    let end = match crate::text::first_index_in(&v, ',') {
        Some(i) => i,
        None => v.len(),
    };
    let (a, b) = trim_bounds(&v, 0, end);
    proof {
        assert(v@.subrange(0, v@.len() as int) =~= v@);
        assert(v@.subrange(0, end as int) =~= v@.take(end as int));
    }
    string_of(&v, a, b)
}

/// The request headers that the URL of a new paste is built from, each as its
/// text when present and readable.
pub struct RequestHeaders {
    pub forwarded_host: Option<String>,
    pub host: Option<String>,
    pub forwarded_proto: Option<String>,
    pub forwarded_prefix: Option<String>,
}

pub open spec fn forwarded_or(h: Option<Seq<char>>, fallback: Seq<char>) -> Seq<char> {
    match h {
        Some(v) => first_forwarded(v),
        None => fallback,
    }
}

/// `proto://host prefix/id`, from the forwarding headers when a proxy set them:
/// the host is the forwarded host, else the `Host` header, else `localhost`; the
/// scheme is the forwarded one or `http`; the prefix the forwarded one or nothing.
pub open spec fn paste_url(h: RequestHeaders, id: Seq<char>) -> Seq<char> {
    let host = match opt_view(h.forwarded_host) {
        Some(v) => first_forwarded(v),
        None => match opt_view(h.host) {
            Some(v) => v,
            None => "localhost"@,
        },
    };
    let proto = forwarded_or(opt_view(h.forwarded_proto), "http"@);
    let prefix = forwarded_or(opt_view(h.forwarded_prefix), Seq::empty());
    proto + "://"@ + host + prefix + seq!['/'] + id
}

/// The scheme of a paste's URL comes from `X-Forwarded-Proto` alone (`http`
/// without it), whatever the host headers are; the URL ends with `/` and the id.
pub proof fn lemma_scheme_from_forwarded_proto(h: RequestHeaders, id: Seq<char>)
    ensures
        h.forwarded_proto matches Some(p) ==> is_prefix(
            first_forwarded(p@) + "://"@,
            paste_url(h, id),
        ),
        h.forwarded_proto is None ==> is_prefix("http://"@, paste_url(h, id)),
        paste_url(h, id).skip(paste_url(h, id).len() - id.len() - 1) == seq!['/'] + id,
{
    let u = paste_url(h, id);
    let proto = forwarded_or(opt_view(h.forwarded_proto), "http"@);
    reveal_strlit("://");
    reveal_strlit("http");
    reveal_strlit("http://");
    assert(u.take(proto.len() + 3int) =~= proto + "://"@);
    if let Some(p) = h.forwarded_proto {
        assert(proto == first_forwarded(p@));
        assert(is_prefix(first_forwarded(p@) + "://"@, u));
    } else {
        assert("http"@ + "://"@ =~= "http://"@);
        assert(is_prefix("http://"@, u));
    }
    assert(u.skip(u.len() - id.len() - 1) =~= seq!['/'] + id);
}

/// Without forwarding headers, a paste's URL is `http://`, the `Host` header, `/`
/// and the id; a forwarded host replaces the `Host` header and a forwarded prefix
/// goes between the host and the id.
pub proof fn lemma_url_parts(h: RequestHeaders, id: Seq<char>)
    ensures
        h.forwarded_host is None && h.forwarded_proto is None && h.forwarded_prefix is None ==> (
        h.host matches Some(v) ==> paste_url(h, id) == "http://"@ + v@ + seq!['/'] + id),
        h.forwarded_host matches Some(fh) ==> paste_url(h, id) == forwarded_or(
            opt_view(h.forwarded_proto),
            "http"@,
        ) + "://"@ + first_forwarded(fh@) + forwarded_or(opt_view(h.forwarded_prefix), Seq::empty())
            + seq!['/'] + id,
{
    reveal_strlit("://");
    reveal_strlit("http");
    reveal_strlit("http://");
    if h.forwarded_host is None && h.forwarded_proto is None && h.forwarded_prefix is None {
        if let Some(v) = h.host {
            assert(paste_url(h, id) =~= "http://"@ + v@ + seq!['/'] + id);
        }
    }
}

pub fn build_paste_url(headers: &RequestHeaders, id: &str) -> (res: String)
    ensures
        res@ == paste_url(*headers, id@),
{
    let host = match &headers.forwarded_host {
        Some(v) => forwarded_value(v.as_str()),
        None => match &headers.host {
            Some(v) => v.clone(),
            None => String::from_str("localhost"),
        },
    };
    let proto = match &headers.forwarded_proto {
        Some(v) => forwarded_value(v.as_str()),
        None => String::from_str("http"),
    };
    let prefix = match &headers.forwarded_prefix {
        Some(v) => forwarded_value(v.as_str()),
        None => String::new(),
    };
    let mut url = proto;
    url.append("://");
    url.append(host.as_str());
    url.append(prefix.as_str());
    crate::text::push_char(&mut url, '/');
    url.append(id);
    proof {
        assert(url@ =~= paste_url(*headers, id@));
    }
    url
}

/// How a paste's creation is answered.
pub enum CreatedResponse {
    /// A browser that shortened a link is shown the short link and its destination.
    LinkPage { short_url: String, destination: String },
    /// A browser is sent on to the new paste (`303 See Other`).
    SeeOther { location: String },
    /// Any other client gets `201 Created`, the location, and the location and a
    /// line feed as the body.
    Created { location: String, body: String },
}

pub fn creation_response(from_browser: bool, destination: Option<String>, location: String) -> (res:
    CreatedResponse)
    ensures
        from_browser && destination is Some ==> (res matches CreatedResponse::LinkPage {
            short_url,
            destination: d,
        } && short_url@ == location@ && d@ == destination->0@),
        from_browser && destination is None ==> (res matches CreatedResponse::SeeOther {
            location: l,
        } && l@ == location@),
        !from_browser ==> (res matches CreatedResponse::Created { location: l, body } && l@
            == location@ && body@ == location@.push('\n')),
{
    if from_browser {
        match destination {
            Some(d) => CreatedResponse::LinkPage { short_url: location, destination: d },
            None => CreatedResponse::SeeOther { location },
        }
    } else {
        let mut body = location.clone();
        crate::text::push_char(&mut body, '\n');
        CreatedResponse::Created { location, body }
    }
}

/// The extension a paste is shown with: the one in the reference after its last
/// `.`, else the paste's stored language.
pub open spec fn display_extension(paste_ref: Seq<char>, language: Option<Seq<char>>) -> Option<
    Seq<char>,
> {
    match rsplit_once(paste_ref, '.') {
        Some((_, ext)) => Some(ext),
        None => language,
    }
}

pub fn paste_extension(paste_ref: &str, language: Option<&str>) -> (res: Option<String>)
    ensures
        opt_view(res) == display_extension(paste_ref@, opt_str_view(language)),
{
    let v = chars_of(paste_ref);
    match last_index_of(&v, 0, v.len(), '.') {
        Some(i) => {
            proof {
                assert(v@.subrange(0, v@.len() as int) =~= v@);
                lemma_last_index_unique(v@, '.', i as int);
                assert(v@.skip(i + 1) =~= v@.subrange(i + 1, v@.len() as int));
            }
            Some(string_of(&v, i + 1, v.len()))
        },
        None => {
            proof {
                assert(v@.subrange(0, v@.len() as int) =~= v@);
            }
            match language {
                Some(l) => Some(String::from_str(l)),
                None => None,
            }
        },
    }
}

/// How a stored paste is shown.
pub enum PasteView {
    /// A short link: redirect (`302 Found`) to its destination.
    Redirect { url: String },
    /// A page: the paste rendered for `extension`, as markdown or as a listing,
    /// cached under `cache_key`.
    Page { extension: Option<String>, is_markdown: bool, cache_key: String },
}

pub fn paste_view(paste_ref: &str, paste: &Paste) -> (res: PasteView)
    ensures
        is_url_spec(paste.content@) ==> (res matches PasteView::Redirect { url } && url@ == trim(
            paste.content@,
        )),
        !is_url_spec(paste.content@) ==> (res matches PasteView::Page {
            extension,
            is_markdown,
            cache_key: key,
        } && opt_view(extension) == display_extension(paste_ref@, opt_view(paste.language))
            && is_markdown == crate::highlight::is_markdown_spec(opt_view(extension)) && key@
            == cache_key(paste.id@, opt_view(extension))),
{
    if is_url(paste.content.as_str()) {
        return PasteView::Redirect { url: link_destination(paste.content.as_str()) };
    }
    let language = match &paste.language {
        Some(l) => Some(l.as_str()),
        None => None,
    };
    let extension = paste_extension(paste_ref, language);
    let ext = match &extension {
        Some(e) => Some(e.as_str()),
        None => None,
    };
    let markdown = crate::highlight::is_markdown(ext);
    let key = render_cache_key(paste.id.as_str(), ext);
    PasteView::Page { extension, is_markdown: markdown, cache_key: key }
}

/// A paste's id with an extension appended (`abc123.rs`) names the paste, and is
/// shown with that extension, whatever language the paste was stored with.
pub proof fn lemma_reference_with_extension(
    id: Seq<char>,
    ext: Seq<char>,
    language: Option<Seq<char>>,
)
    requires
        id.len() > 0,
        ext.len() > 0,
        !has_char(id, '.'),
        !has_char(ext, '.'),
    ensures
        crate::paste::reference_base(id + seq!['.'] + ext) == Some(id),
        display_extension(id + seq!['.'] + ext, language) == Some(ext),
{
    let r = id + seq!['.'] + ext;
    let i = id.len() as int;
    assert(r[i] == '.');
    assert forall|j: int| i < j < r.len() implies r[j] != '.' by {
        assert(r[j] == ext[j - i - 1]);
    }
    lemma_last_index_unique(r, '.', i);
    assert(r.take(i) =~= id);
    assert(r.skip(i + 1) =~= ext);
}

/// A short link is still a short link once stored, and leads to the destination
/// that was shown when it was created: storing drops the content's trailing
/// carriage returns, and neither the test for a link nor its trimmed destination
/// sees them.
pub proof fn lemma_link_survives_storage(content: Seq<char>)
    ensures
        is_url_spec(trim_end_class(content, CharClass::Exactly('\r'))) == is_url_spec(content),
        trim(trim_end_class(content, CharClass::Exactly('\r'))) == trim(content),
{
    crate::text::lemma_trim_after_dropping_returns(content);
}

/// A fresh paste id has no `.`, so an extension can always be appended to it.
pub proof fn lemma_url_safe_id_has_no_dot(id: Seq<char>)
    requires
        forall|i: int| 0 <= i < id.len() ==> crate::paste::is_url_safe_char(#[trigger] id[i]),
    ensures
        !has_char(id, '.'),
{
    if has_char(id, '.') {
        let i = choose|i: int| 0 <= i < id.len() && id[i] == '.';
        assert(crate::paste::is_url_safe_char(id[i]));
    }
}

} // verus!
