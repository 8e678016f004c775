//! Markdown pastes: pulldown-cmark parses them and writes their HTML; the code
//! blocks in between are replaced by blocks highlighted like listings.
use vstd::prelude::*;

use pulldown_cmark::{CodeBlockKind, Event, Options, Tag, TagEnd};

use crate::highlight::Highlighter;
use crate::text::{
    chars_of, count_leading, count_leading_non_ws, first_word, lemma_count_leading_bound,
    opt_view, skip_leading, string_of, trim_start_class, CharClass,
};

verus! {

/// `pulldown_cmark::Event`.
#[verifier::external_type_specification]
#[verifier::external_body]
pub struct ExEvent<'a>(Event<'a>);

/// The pulldown-cmark extensions that markdown pastes are parsed with, as the bits
/// of `pulldown_cmark::Options`: tables (`1 << 1`), footnotes (`1 << 2`),
/// strikethrough (`1 << 3`), task lists (`1 << 4`), smart punctuation (`1 << 5`)
/// and heading attributes (`1 << 6`).
pub const MARKDOWN_EXTENSIONS: u32 = 0b111_1110;

/// What the code-block rewriting sees of a markdown event.
#[derive(Debug)]
pub enum MdEvent {
    /// The start of a code block: `Some` with the info string of a fenced block,
    /// `None` for an indented one.
    CodeBlockStart(Option<String>),
    /// Text.
    Text(String),
    /// The end of a code block.
    CodeBlockEnd,
    /// Any other event.
    Other,
}

/// One piece of the rewritten event stream.
#[derive(Debug)]
pub enum MdAction {
    /// The event at this index, unchanged.
    Keep(usize),
    /// A code block in the language given, with this code.
    CodeBlock(Option<String>, String),
}

/// One piece of the rewritten event stream, as a mathematical value.
pub enum MdPiece {
    Keep(int),
    CodeBlock(Option<Seq<char>>, Seq<char>),
}

pub open spec fn action_view(a: MdAction) -> MdPiece {
    match a {
        MdAction::Keep(i) => MdPiece::Keep(i as int),
        MdAction::CodeBlock(lang, code) => MdPiece::CodeBlock(opt_view(lang), code@),
    }
}

/// The language of a code block: the first word of a fenced block's info string,
/// none for an indented block or an empty info string.
pub open spec fn block_language(info: Option<Seq<char>>) -> Option<Seq<char>> {
    match info {
        Some(i) => {
            let w = first_word(i);
            if w.len() == 0 {
                None
            } else {
                Some(w)
            }
        },
        None => None,
    }
}

/// The rewriting state after a run of events: whether a code block is open, its
/// language, its text so far; and the pieces written so far.
pub open spec fn md_run(events: Seq<MdEvent>) -> (bool, Option<Seq<char>>, Seq<char>, Seq<MdPiece>)
    decreases events.len(),
{
    if events.len() == 0 {
        (false, None, Seq::empty(), Seq::empty())
    } else {
        let prev = md_run(events.drop_last());
        let in_code = prev.0;
        let lang = prev.1;
        let text = prev.2;
        let out = prev.3;
        let i = events.len() - 1;
        match events.last() {
            MdEvent::CodeBlockStart(info) => (true, block_language(opt_view(info)), Seq::empty(), out),
            MdEvent::Text(t) => if in_code {
                (in_code, lang, text + t@, out)
            } else {
                (in_code, lang, text, out.push(MdPiece::Keep(i)))
            },
            MdEvent::CodeBlockEnd => (false, None, text, out.push(MdPiece::CodeBlock(lang, text))),
            MdEvent::Other => (in_code, lang, text, out.push(MdPiece::Keep(i))),
        }
    }
}

/// The rewritten event stream: each code block (its start, its text, its end)
/// becomes one piece carrying its language and code, every other event is kept.
pub open spec fn md_plan(events: Seq<MdEvent>) -> Seq<MdPiece> {
    md_run(events).3
}

/// The first word of `s`, or `None` when it has none.
fn first_word_of(s: &str) -> (res: Option<String>)
    ensures
        opt_view(res) == block_language(Some(s@)),
{
    let v = chars_of(s);
    let a = skip_leading(&v, 0, v.len(), CharClass::Whitespace);
    let ghost t = trim_start_class(v@, CharClass::Whitespace);
    proof {
        assert(v@.subrange(0, v@.len() as int) =~= v@);
        assert(t =~= v@.subrange(a as int, v@.len() as int));
    }
    let mut b = a;
    while b < v.len() && !crate::text::is_whitespace_char(v[b])
        invariant
            a <= b <= v@.len(),
            t == v@.subrange(a as int, v@.len() as int),
            forall|j: int| a <= j < b ==> !crate::text::is_whitespace(#[trigger] v@[j]),
        decreases v.len() - b,
    {
        b = b + 1;
    }
    proof {
        lemma_count_leading_non_ws(t, b - a);
        assert(t.take(b - a) =~= v@.subrange(a as int, b as int));
    }
    if a == b {
        None
    } else {
        Some(string_of(&v, a, b))
    }
}

proof fn lemma_count_leading_non_ws(s: Seq<char>, k: int)
    requires
        0 <= k <= s.len(),
        forall|j: int| 0 <= j < k ==> !crate::text::is_whitespace(#[trigger] s[j]),
        k == s.len() || crate::text::is_whitespace(s[k]),
    ensures
        count_leading_non_ws(s) == k,
    decreases k,
{
    if k > 0 {
        let t = s.drop_first();
        assert(!crate::text::is_whitespace(s[0]));
        assert forall|j: int| 0 <= j < k - 1 implies !crate::text::is_whitespace(#[trigger] t[j]) by {
            assert(t[j] == s[j + 1]);
        }
        if k < s.len() {
            assert(t[k - 1] == s[k]);
        }
        lemma_count_leading_non_ws(t, k - 1);
    }
}

/// The rewritten event stream of `events`.
pub fn markdown_plan(events: &Vec<MdEvent>) -> (res: Vec<MdAction>)
    ensures
        res@.map_values(|a: MdAction| action_view(a)) == md_plan(events@),
{
    let mut out: Vec<MdAction> = Vec::new();
    let mut in_code = false;
    let mut lang: Option<String> = None;
    let mut text = String::new();
    let mut i: usize = 0;
    while i < events.len()
        invariant
            i <= events@.len(),
            (in_code, opt_view(lang), text@, out@.map_values(|a: MdAction| action_view(a)))
                == md_run(events@.take(i as int)),
        decreases events.len() - i,
    {
        let ghost prev = md_run(events@.take(i as int));
        proof {
            assert(events@.take(i + 1).drop_last() =~= events@.take(i as int));
            assert(events@.take(i + 1).last() == events@[i as int]);
        }
        match &events[i] {
            MdEvent::CodeBlockStart(info) => {
                in_code = true;
                lang = match info {
                    Some(s) => first_word_of(s.as_str()),
                    None => None,
                };
                text = String::new();
            },
            MdEvent::Text(t) => {
                if in_code {
                    text.append(t.as_str());
                } else {
                    out.push(MdAction::Keep(i));
                    proof {
                        assert(out@.map_values(|a: MdAction| action_view(a)) =~= prev.3.push(
                            MdPiece::Keep(i as int),
                        ));
                    }
                }
            },
            MdEvent::CodeBlockEnd => {
                in_code = false;
                let block_lang = lang;
                lang = None;
                let code = text.clone();
                out.push(MdAction::CodeBlock(block_lang, code));
                proof {
                    assert(out@.map_values(|a: MdAction| action_view(a)) =~= prev.3.push(
                        MdPiece::CodeBlock(prev.1, prev.2),
                    ));
                }
            },
            MdEvent::Other => {
                out.push(MdAction::Keep(i));
                proof {
                    assert(out@.map_values(|a: MdAction| action_view(a)) =~= prev.3.push(
                        MdPiece::Keep(i as int),
                    ));
                }
            },
        }
        i = i + 1;
    }
    proof {
        assert(events@.take(events@.len() as int) =~= events@);
    }
    out
}

/// The events that pulldown-cmark parses `content` into, with the extensions whose
/// bits are `options`, each made independent of `content` (`Event::into_static`).
pub uninterp spec fn md_parse(content: Seq<char>, options: u32) -> Seq<Event<'static>>;

/// What the rewriting sees of an event.
pub uninterp spec fn md_kind(event: Event<'static>) -> MdEvent;

/// The raw HTML event (`Event::Html`) that holds `html`.
pub uninterp spec fn md_html_event(html: Seq<char>) -> Event<'static>;

/// The HTML that pulldown-cmark writes for a stream of events.
pub uninterp spec fn md_html(events: Seq<Event<'static>>) -> Seq<char>;

/// The events of `content` parsed as markdown with the extensions in `options`.
/// Calls `pulldown_cmark::Parser::new_ext`, which parses deterministically, and
/// collects its events, each through `Event::into_static`, which keeps the event
/// and only owns the text it borrowed.
#[verifier::external_body]
fn parse_markdown(content: &str, options: u32) -> (res: Vec<Event<'static>>)
    ensures
        res@ == md_parse(content@, options),
{
    pulldown_cmark::Parser::new_ext(content, Options::from_bits_truncate(options)).map(
        Event::into_static,
    ).collect()
}

/// What the rewriting sees of an event.
/// Tells apart the variants of `pulldown_cmark::Event` that the rewriting reads:
/// the start of a fenced or indented code block, text, the end of a code block.
#[verifier::external_body]
fn event_kind(event: &Event<'static>) -> (res: MdEvent)
    ensures
        res == md_kind(*event),
{
    match event {
        Event::Start(Tag::CodeBlock(CodeBlockKind::Fenced(info))) => MdEvent::CodeBlockStart(
            Some(info.to_string()),
        ),
        Event::Start(Tag::CodeBlock(CodeBlockKind::Indented)) => MdEvent::CodeBlockStart(None),
        Event::Text(text) => MdEvent::Text(text.to_string()),
        Event::End(TagEnd::CodeBlock) => MdEvent::CodeBlockEnd,
        _ => MdEvent::Other,
    }
}

/// A copy of an event: `<Event as Clone>::clone`, which `derive` writes, so the
/// copy holds the same variant and the same text.
#[verifier::external_body]
fn copy_event(event: &Event<'static>) -> (res: Event<'static>)
    ensures
        res == *event,
{
    event.clone()
}

/// A raw HTML event (`Event::Html`) holding `html`.
#[verifier::external_body]
fn html_event(html: String) -> (res: Event<'static>)
    ensures
        res == md_html_event(html@),
{
    Event::Html(html.into())
}

/// The HTML of a stream of events.
/// Calls `pulldown_cmark::html::push_html` on an empty string; what it writes
/// depends on the events alone.
#[verifier::external_body]
fn events_html(events: Vec<Event<'static>>) -> (res: String)
    ensures
        res@ == md_html(events@),
{
    let mut s = String::new();
    pulldown_cmark::html::push_html(&mut s, events.into_iter());
    s
}

/// The kinds of the parsed events of `content`.
pub open spec fn md_kinds(events: Seq<Event<'static>>) -> Seq<MdEvent> {
    events.map_values(|e: Event<'static>| md_kind(e))
}

impl Highlighter {
    /// The event stream that a markdown paste is rendered from: its events, with
    /// each code block replaced by a raw HTML event holding the block's rendering.
    pub open spec fn md_stream(&self, events: Seq<Event<'static>>) -> Seq<Event<'static>> {
        let plan = md_plan(md_kinds(events));
        Seq::new(
            plan.len(),
            |k: int|
                match plan[k] {
                    MdPiece::Keep(i) => events[i],
                    MdPiece::CodeBlock(lang, code) => md_html_event(self.block_html(lang, code)),
                },
        )
    }

    /// The HTML of a markdown paste.
    pub open spec fn markdown_html(&self, content: Seq<char>) -> Seq<char> {
        md_html(self.md_stream(md_parse(content, MARKDOWN_EXTENSIONS)))
    }

    /// The HTML of a markdown paste: pulldown-cmark's rendering of its events, with
    /// each code block replaced by a raw HTML event holding its rendering through
    /// `render_markdown_code_block`. Markdown without code blocks is rendered
    /// exactly as pulldown-cmark renders it.
    pub fn render_markdown(&self, content: &str) -> (res: String)
        ensures
            res@ == self.markdown_html(content@),
            (forall|i: int|
                0 <= i < md_parse(content@, MARKDOWN_EXTENSIONS).len() ==> !is_code_block_event(
                    #[trigger] md_kinds(md_parse(content@, MARKDOWN_EXTENSIONS))[i],
                )) ==> res@ == md_html(md_parse(content@, MARKDOWN_EXTENSIONS)),
    {
        let events = parse_markdown(content, MARKDOWN_EXTENSIONS);
        let ghost evs = events@;
        let mut kinds: Vec<MdEvent> = Vec::new();
        let mut i: usize = 0;
        while i < events.len()
            invariant
                i <= events@.len(),
                kinds@.len() == i,
                forall|j: int| 0 <= j < i ==> kinds@[j] == md_kind(#[trigger] events@[j]),
            decreases events.len() - i,
        {
            kinds.push(event_kind(&events[i]));
            i = i + 1;
        }
        proof {
            assert(kinds@ =~= md_kinds(evs));
        }
        let plan = markdown_plan(&kinds);
        let ghost pieces = md_plan(kinds@);
        let ghost stream = self.md_stream(evs);
        let mut out: Vec<Event<'static>> = Vec::new();
        let mut k: usize = 0;
        while k < plan.len()
            invariant
                k <= plan@.len(),
                evs == events@,
                kinds@.len() == events@.len(),
                kinds@ == md_kinds(evs),
                pieces == md_plan(kinds@),
                stream == self.md_stream(evs),
                plan@.map_values(|a: MdAction| action_view(a)) == pieces,
                out@.len() == k,
                forall|j: int| 0 <= j < k ==> #[trigger] out@[j] == stream[j],
            decreases plan.len() - k,
        {
            proof {
                lemma_plan_indices(kinds@);
                assert(plan@.map_values(|a: MdAction| action_view(a))[k as int] == action_view(
                    plan@[k as int],
                ));
            }
            match &plan[k] {
                MdAction::Keep(j) => {
                    out.push(copy_event(&events[*j]));
                },
                MdAction::CodeBlock(lang, code) => {
                    let l = match lang {
                        Some(l) => Some(l.as_str()),
                        None => None,
                    };
                    let html = self.render_markdown_code_block(l, code.as_str());
                    out.push(html_event(html));
                },
            }
            k = k + 1;
        }
        proof {
            assert(out@ =~= stream);
            if forall|i: int|
                0 <= i < evs.len() ==> !is_code_block_event(#[trigger] md_kinds(evs)[i]) {
                lemma_plan_without_code_blocks(kinds@);
                assert(stream =~= evs);
            }
        }
        events_html(out)
    }
}

/// After the end of a code block the rewriting is outside any code block.
pub proof fn lemma_code_block_end_closes(es: Seq<MdEvent>)
    requires
        es.len() > 0,
        es.last() is CodeBlockEnd,
    ensures
        !md_run(es).0,
{
}

/// Text that follows the end of a code block, with no code block started in
/// between, is kept as it is: it is not taken into a code block.
pub proof fn lemma_text_after_code_block_kept(es: Seq<MdEvent>, i: int, j: int)
    requires
        0 <= i < j < es.len(),
        es[i] is CodeBlockEnd,
        forall|m: int| i < m < j ==> !(#[trigger] es[m] is CodeBlockStart),
        es[j] is Text,
    ensures
        md_plan(es.take(j + 1)).last() == MdPiece::Keep(j),
{
    lemma_outside_code_block(es, i, j);
    let t = es.take(j + 1);
    assert(t.drop_last() =~= es.take(j));
    assert(t.last() == es[j]);
}

proof fn lemma_outside_code_block(es: Seq<MdEvent>, i: int, k: int)
    requires
        0 <= i < k <= es.len(),
        es[i] is CodeBlockEnd,
        forall|m: int| i < m < k ==> !(#[trigger] es[m] is CodeBlockStart),
    ensures
        !md_run(es.take(k)).0,
    decreases k - i,
{
    let t = es.take(k);
    assert(t.drop_last() =~= es.take(k - 1));
    assert(t.last() == es[k - 1]);
    if k - 1 > i {
        lemma_outside_code_block(es, i, k - 1);
        assert(!(es[k - 1] is CodeBlockStart));
    }
}

/// Every kept index of the plan is the index of an event.
pub proof fn lemma_plan_indices(events: Seq<MdEvent>)
    ensures
        forall|k: int|
            0 <= k < md_plan(events).len() ==> (#[trigger] md_plan(events)[k] matches MdPiece::Keep(
                j,
            ) ==> 0 <= j < events.len()),
    decreases events.len(),
{
    if events.len() > 0 {
        lemma_plan_indices(events.drop_last());
    }
}

pub open spec fn is_code_block_event(e: MdEvent) -> bool {
    e is CodeBlockStart || e is CodeBlockEnd
}

/// Markdown without code blocks is rendered as pulldown-cmark renders it: every
/// event is kept, in order.
pub proof fn lemma_plan_without_code_blocks(events: Seq<MdEvent>)
    requires
        forall|i: int| 0 <= i < events.len() ==> !is_code_block_event(#[trigger] events[i]),
    ensures
        md_plan(events) == Seq::new(events.len(), |i: int| MdPiece::Keep(i)),
        !md_run(events).0,
    decreases events.len(),
{
    if events.len() > 0 {
        let prefix = events.drop_last();
        assert forall|i: int| 0 <= i < prefix.len() implies !is_code_block_event(
            #[trigger] prefix[i],
        ) by {
            assert(prefix[i] == events[i]);
        }
        lemma_plan_without_code_blocks(prefix);
        assert(!is_code_block_event(events[events.len() - 1]));
        assert(md_plan(events) =~= Seq::new(events.len(), |i: int| MdPiece::Keep(i)));
    } else {
        assert(md_plan(events) =~= Seq::new(events.len(), |i: int| MdPiece::Keep(i)));
    }
}

} // verus!
