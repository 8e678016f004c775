//! Choosing a syntax for a paste and rendering its content, highlighted by
//! syntect where a syntax is known and escaped otherwise.
use vstd::hash_map::StringHashMap;
use vstd::prelude::*;
use vstd::string::StringSliceAdditionalSpecFns;

use syntect::easy::HighlightLines;
use syntect::highlighting::{Style, Theme};
use syntect::parsing::{SyntaxReference, SyntaxSet};

use crate::listing::{assemble_listing, line_ranges, listing, opt_views, plain_listing};
use crate::text::{
    ascii_lower, chars_of, count_leading, escape_html, first_index_of, lemma_count_leading_bound,
    lemma_last_index_unique, last_index_of, lines_with_endings, lowered_string, opt_str_view,
    opt_view, push_escaped_html, range_equals, rsplit_once, skip_leading, string_of, trim,
    trim_bounds, trim_start_class, CharClass,
};

verus! {

/// `syntect::parsing::SyntaxSet`.
#[verifier::external_type_specification]
#[verifier::external_body]
pub struct ExSyntaxSet(SyntaxSet);

/// `syntect::parsing::SyntaxReference`.
#[verifier::external_type_specification]
#[verifier::external_body]
pub struct ExSyntaxReference(SyntaxReference);

/// `syntect::highlighting::Theme`.
#[verifier::external_type_specification]
#[verifier::external_body]
pub struct ExTheme(Theme);

/// `syntect::highlighting::Style`.
#[verifier::external_type_specification]
#[verifier::external_body]
pub struct ExStyle(Style);

/// `syntect::easy::HighlightLines`.
#[verifier::external_type_specification]
#[verifier::external_body]
pub struct ExHighlightLines<'a>(HighlightLines<'a>);

/// The file extensions of each syntax of a syntax set, in the set's order.
pub uninterp spec fn syntax_extensions(ss: SyntaxSet) -> Seq<Seq<Seq<char>>>;

/// The number of syntaxes in `ss`.
/// Calls `SyntaxSet::syntaxes`, whose length is the number of syntaxes.
#[verifier::external_body]
fn syntax_count(ss: &SyntaxSet) -> (res: usize)
    ensures
        res == syntax_extensions(*ss).len(),
{
    ss.syntaxes().len()
}

/// The file extensions of syntax `i` of `ss`.
/// Reads the field `file_extensions` of `SyntaxSet::syntaxes()[i]`.
#[verifier::external_body]
fn file_extensions_of(ss: &SyntaxSet, i: usize) -> (res: Vec<String>)
    requires
        i < syntax_extensions(*ss).len(),
    ensures
        res@.map_values(|e: String| e@) == syntax_extensions(*ss)[i as int],
{
    ss.syntaxes()[i].file_extensions.clone()
}

/// Syntax `i` of the syntax set `ss`, in the set's order.
pub uninterp spec fn syntax_item(ss: SyntaxSet, i: int) -> SyntaxReference;

/// Syntax `i` of `ss`, when there is one.
/// Calls `<[SyntaxReference]>::get` on `SyntaxSet::syntaxes`, which answers `Some`
/// exactly for the indices below the number of syntaxes, with the syntax at `i`.
#[verifier::external_body]
fn syntax_at(ss: &SyntaxSet, i: usize) -> (res: Option<&SyntaxReference>)
    ensures
        res is Some <==> i < syntax_extensions(*ss).len(),
        res matches Some(r) ==> *r == syntax_item(*ss, i as int),
{
    ss.syntaxes().get(i)
}

/// What a line highlighter holds: the syntax and theme it was made for, and each
/// line it has been given so far with the syntax set it was given with.
pub uninterp spec fn hl_state(h: HighlightLines<'_>) -> (
    SyntaxReference,
    Theme,
    Seq<(SyntaxSet, Seq<char>)>,
);

/// The styled regions that syntect gives for `line` (with syntax set `ss`) to a
/// highlighter for `syntax` in `theme` that was given the lines `fed` before;
/// `None` when it fails on the line.
pub uninterp spec fn hl_regions(
    syntax: SyntaxReference,
    theme: Theme,
    fed: Seq<(SyntaxSet, Seq<char>)>,
    ss: SyntaxSet,
    line: Seq<char>,
) -> Option<Seq<(Style, Seq<char>)>>;

/// The HTML that syntect writes for styled regions, without background colours;
/// `None` when writing fails.
pub uninterp spec fn styled(regions: Seq<(Style, Seq<char>)>) -> Option<Seq<char>>;

/// The foreground colour of a style, as red, green and blue.
pub uninterp spec fn style_rgb(style: Style) -> (u8, u8, u8);

/// Styled regions with their text taken by its view.
pub open spec fn region_views(regions: Seq<(Style, &str)>) -> Seq<(Style, Seq<char>)> {
    regions.map_values(|r: (Style, &str)| (r.0, r.1@))
}

/// A highlighter for `syntax` in `theme`, at the start of a file.
/// Calls `HighlightLines::new`, which keeps the syntax and theme and starts from
/// no lines.
#[verifier::external_body]
pub(crate) fn new_line_highlighter<'a>(syntax: &SyntaxReference, theme: &'a Theme) -> (res: HighlightLines<'a>)
    ensures
        hl_state(res) == (*syntax, *theme, Seq::<(SyntaxSet, Seq<char>)>::empty()),
{
    HighlightLines::new(syntax, theme)
}

/// The text of styled regions, one after the other.
pub open spec fn region_text(regions: Seq<(Style, &str)>) -> Seq<char>
    decreases regions.len(),
{
    if regions.len() == 0 {
        Seq::empty()
    } else {
        region_text(regions.drop_last()) + regions.last().1@
    }
}

/// The text that an HTML fragment shows: every character outside its tags
/// (a tag runs from a `<` to the next `>`).
pub open spec fn html_text(s: Seq<char>) -> Seq<char>
    decreases s.len(),
{
    if s.len() == 0 {
        Seq::empty()
    } else if s[0] == '<' {
        match first_index_of(s, '>') {
            Some(i) => if 0 <= i < s.len() {
                html_text(s.skip(i + 1))
            } else {
                Seq::empty()
            },
            None => Seq::empty(),
        }
    } else {
        seq![s[0]] + html_text(s.drop_first())
    }
}

/// The styled regions of the next line of a file, `None` when syntect fails on it.
/// Calls `HighlightLines::highlight_line`. Its regions are slices of the line that,
/// one after the other, make the whole line (syntect documents this of the
/// iterator that `highlight_line` collects). Its result depends on the syntax, the
/// theme, the lines given before (the highlighter's parse and highlight state) and
/// this line with its syntax set alone, and the call adds the line to what the
/// highlighter was given; the result is named (`hl_regions`), not stated.
#[verifier::external_body]
pub(crate) fn highlight_regions<'b>(
    highlighter: &mut HighlightLines<'_>,
    line: &'b str,
    ss: &SyntaxSet,
) -> (res: Option<Vec<(Style, &'b str)>>)
    ensures
        res matches Some(regions) ==> region_text(regions@) == line@,
        match res {
            Some(regions) => hl_regions(
                hl_state(*old(highlighter)).0,
                hl_state(*old(highlighter)).1,
                hl_state(*old(highlighter)).2,
                *ss,
                line@,
            ) == Some(region_views(regions@)),
            None => hl_regions(
                hl_state(*old(highlighter)).0,
                hl_state(*old(highlighter)).1,
                hl_state(*old(highlighter)).2,
                *ss,
                line@,
            ) is None,
        },
        hl_state(*final(highlighter)) == (
            hl_state(*old(highlighter)).0,
            hl_state(*old(highlighter)).1,
            hl_state(*old(highlighter)).2.push((*ss, line@)),
        ),
{
    match highlighter.highlight_line(line, ss) {
        Ok(regions) => Some(regions),
        Err(_) => None,
    }
}

/// The HTML of styled regions, without background colours; `None` when writing it fails.
/// Calls `syntect::html::append_highlighted_html_for_styled_line` on an empty string.
/// Its source writes each region's text escaped (`&`, `<`, `>`, `'` and `"`, as
/// `escape_html` does) between `<span style="...">` and `</span>` tags whose style
/// holds no `>`, so outside the tags the HTML shows the regions' text, escaped.
/// The HTML depends on the regions alone and is named (`styled`); the spans and
/// their styles, which come from the opaque styles, are not stated.
#[verifier::external_body]
fn styled_html(regions: &Vec<(Style, &str)>) -> (res: Option<String>)
    ensures
        res matches Some(h) ==> html_text(h@) == escape_html(region_text(regions@)),
        opt_view(res) == styled(region_views(regions@)),
{
    let mut s = String::new();
    match syntect::html::append_highlighted_html_for_styled_line(
        regions,
        syntect::html::IncludeBackground::No,
        &mut s,
    ) {
        Ok(()) => Some(s),
        Err(_) => None,
    }
}

/// The foreground colour of a style, as red, green and blue.
/// Reads the fields `foreground.r`, `foreground.g`, `foreground.b`.
#[verifier::external_body]
pub(crate) fn style_foreground(style: &Style) -> (res: (u8, u8, u8))
    ensures
        res == style_rgb(*style),
{
    (style.foreground.r, style.foreground.g, style.foreground.b)
}

/// The HTML of syntect's highlighting of `line`, given `fed` before.
pub open spec fn line_html(
    syntax: SyntaxReference,
    theme: Theme,
    fed: Seq<(SyntaxSet, Seq<char>)>,
    ss: SyntaxSet,
    line: Seq<char>,
) -> Option<Seq<char>> {
    match hl_regions(syntax, theme, fed, ss, line) {
        Some(r) => styled(r),
        None => None,
    }
}

/// Lines given to a highlighter, each with the syntax set `ss`.
pub open spec fn fed_with(ss: SyntaxSet, lines: Seq<Seq<char>>) -> Seq<(SyntaxSet, Seq<char>)> {
    lines.map_values(|l: Seq<char>| (ss, l))
}

/// The HTML of each of `lines` highlighted in turn by one fresh highlighter for
/// `syntax` in `theme`, with syntax set `ss`: `None` where syntect fails.
pub open spec fn highlighted_lines(
    syntax: SyntaxReference,
    theme: Theme,
    ss: SyntaxSet,
    lines: Seq<Seq<char>>,
) -> Seq<Option<Seq<char>>> {
    Seq::new(
        lines.len(),
        |i: int| line_html(syntax, theme, fed_with(ss, lines.take(i)), ss, lines[i]),
    )
}

/// The highlighted HTML of the next line, `None` when syntect fails on it; outside
/// its tags it shows the line, escaped.
pub(crate) fn highlight_line_html(
    highlighter: &mut HighlightLines<'_>,
    line: &str,
    ss: &SyntaxSet,
) -> (res: Option<String>)
    ensures
        res matches Some(h) ==> html_text(h@) == escape_html(line@),
        opt_view(res) == line_html(
            hl_state(*old(highlighter)).0,
            hl_state(*old(highlighter)).1,
            hl_state(*old(highlighter)).2,
            *ss,
            line@,
        ),
        hl_state(*final(highlighter)) == (
            hl_state(*old(highlighter)).0,
            hl_state(*old(highlighter)).1,
            hl_state(*old(highlighter)).2.push((*ss, line@)),
        ),
{
    match highlight_regions(highlighter, line, ss) {
        Some(regions) => styled_html(&regions),
        None => None,
    }
}

/// Each line that syntect highlighted shows, outside its tags, the line's text escaped.
pub open spec fn shows_lines(lines: Seq<Seq<char>>, hs: Seq<Option<Seq<char>>>) -> bool {
    forall|i: int|
        0 <= i < hs.len() ==> (#[trigger] hs[i] matches Some(h) ==> html_text(h) == escape_html(
            lines[i],
        ))
}

/// Tokens of syntax `i`, lowered, added to `m` unless already present.
pub open spec fn add_tokens(m: Map<Seq<char>, usize>, exts: Seq<Seq<char>>, i: usize, k: nat) -> Map<
    Seq<char>,
    usize,
>
    decreases k,
{
    if k == 0 {
        m
    } else {
        let m2 = add_tokens(m, exts, i, (k - 1) as nat);
        let t = ascii_lower(exts[k - 1]);
        if m2.contains_key(t) {
            m2
        } else {
            m2.insert(t, i)
        }
    }
}

/// The token index of the first `n` syntaxes: each lowered file extension maps to
/// the first syntax that lists it.
pub open spec fn token_index(exts: Seq<Seq<Seq<char>>>, n: nat) -> Map<Seq<char>, usize>
    decreases n,
{
    if n == 0 {
        Map::empty()
    } else {
        add_tokens(
            token_index(exts, (n - 1) as nat),
            exts[n - 1],
            (n - 1) as usize,
            exts[n - 1].len(),
        )
    }
}

/// A syntax name as a user may write it: trimmed, leading dots dropped, ASCII lowered.
pub open spec fn normalized_token(e: Seq<char>) -> Seq<char> {
    ascii_lower(trim_start_class(trim(e), CharClass::Exactly('.')))
}

/// The syntaxes and the theme that pastes are highlighted with, and the index
/// from lowered file extension to syntax.
pub struct Highlighter {
    syntax_set: SyntaxSet,
    theme: Theme,
    syntax_index_by_token: StringHashMap<usize>,
}

impl Highlighter {
    #[verifier::type_invariant]
    spec fn index_in_range(self) -> bool {
        forall|t: Seq<char>|
            #[trigger] self.syntax_index_by_token@.contains_key(t)
                ==> self.syntax_index_by_token@[t] < syntax_extensions(self.syntax_set).len()
    }

    /// The token index.
    pub closed spec fn tokens(&self) -> Map<Seq<char>, usize> {
        self.syntax_index_by_token@
    }

    /// The file extensions of each syntax.
    pub closed spec fn extensions(&self) -> Seq<Seq<Seq<char>>> {
        syntax_extensions(self.syntax_set)
    }

    /// Whether `extension` names a known syntax.
    pub open spec fn knows(&self, extension: Option<Seq<char>>) -> bool {
        match extension {
            Some(e) => {
                let t = normalized_token(e);
                t.len() > 0 && self.tokens().contains_key(t)
            },
            None => false,
        }
    }

    /// A highlighter over `syntax_set` and `theme`, indexing every file extension
    /// of every syntax.
    pub fn new(syntax_set: SyntaxSet, theme: Theme) -> (res: Self)
        ensures
            res.extensions() == syntax_extensions(syntax_set),
            res.tokens() == token_index(syntax_extensions(syntax_set), syntax_extensions(syntax_set).len()),
    {
        let ghost exts = syntax_extensions(syntax_set);
        let count = syntax_count(&syntax_set);
        let mut index: StringHashMap<usize> = StringHashMap::new();
        let mut i: usize = 0;
        while i < count
            invariant
                count == exts.len(),
                exts == syntax_extensions(syntax_set),
                i <= count,
                index@ == token_index(exts, i as nat),
                forall|t: Seq<char>| #[trigger] index@.contains_key(t) ==> index@[t] < i,
            decreases count - i,
        {
            let names = file_extensions_of(&syntax_set, i);
            let ghost names_v = exts[i as int];
            assert(names@.len() == names_v.len());
            let mut k: usize = 0;
            while k < names.len()
                invariant
                    count == exts.len(),
                    exts == syntax_extensions(syntax_set),
                    i < count,
                    names_v == exts[i as int],
                    names@.map_values(|e: String| e@) == names_v,
                    k <= names@.len(),
                    index@ == add_tokens(token_index(exts, i as nat), names_v, i, k as nat),
                    forall|t: Seq<char>| #[trigger] index@.contains_key(t) ==> index@[t] <= i,
                decreases names@.len() - k,
            {
                let v = chars_of(names[k].as_str());
                let token = lowered_string(&v, 0, v.len());
                proof {
                    assert(v@.subrange(0, v@.len() as int) =~= v@);
                    assert(names@.map_values(|e: String| e@)[k as int] == names@[k as int]@);
                }
                if !index.contains_key(token.as_str()) {
                    index.insert(token, i);
                }
                k = k + 1;
            }
            i = i + 1;
        }
        Highlighter { syntax_set, theme, syntax_index_by_token: index }
    }

    /// The syntax set that pastes are highlighted with.
    pub closed spec fn syntaxes(&self) -> SyntaxSet {
        self.syntax_set
    }

    /// The theme that pastes are highlighted in.
    pub closed spec fn colour_theme(&self) -> Theme {
        self.theme
    }

    pub(crate) fn syntax_set(&self) -> (res: &SyntaxSet)
        ensures
            *res == self.syntaxes(),
            syntax_extensions(*res) == self.extensions(),
    {
        &self.syntax_set
    }

    pub(crate) fn theme(&self) -> (res: &Theme)
        ensures
            *res == self.colour_theme(),
    {
        &self.theme
    }

    /// The syntax that `extension` names, if it names one.
    pub fn resolve_syntax(&self, extension: Option<&str>) -> (res: Option<&SyntaxReference>)
        ensures
            res is Some <==> self.knows(opt_str_view(extension)),
            res matches Some(r) ==> *r == syntax_item(
                self.syntaxes(),
                self.tokens()[normalized_token(extension->0@)] as int,
            ),
    {
        proof {
            use_type_invariant(self);
        }
        let e = match extension {
            Some(e) => e,
            None => {
                return None;
            },
        };
        let token = normalize_token(e);
        if token.as_str().is_empty() {
            return None;
        }
        match self.syntax_index_by_token.get(token.as_str()) {
            Some(index) => {
                let r = syntax_at(&self.syntax_set, *index);
                r
            },
            None => None,
        }
    }

    /// The syntax for a paste uploaded as `filename`, chosen by its extension when it
    /// has one and otherwise by the classifier's candidates (one per line, best first).
    pub fn detect_language(&self, filename: Option<&str>, classifier_output: Option<&str>) -> (res:
        Option<String>)
        ensures
            opt_view(res) == self.detected_language(
                opt_str_view(filename),
                opt_str_view(classifier_output),
            ),
    {
        match filename_extension(filename) {
            Some(extension) => {
                if self.resolve_syntax(Some(extension.as_str())).is_some() {
                    Some(extension)
                } else {
                    None
                }
            },
            None => match classifier_output {
                Some(out) => self.first_known_candidate(out),
                None => None,
            },
        }
    }

    pub open spec fn detected_language(
        &self,
        filename: Option<Seq<char>>,
        classifier_output: Option<Seq<char>>,
    ) -> Option<Seq<char>> {
        match filename_ext(filename) {
            Some(e) => if self.knows(Some(e)) {
                Some(e)
            } else {
                None
            },
            None => match classifier_output {
                Some(out) => self.first_known(split_on(out, '\n')),
                None => None,
            },
        }
    }

    /// The first candidate that, trimmed, is non-empty and names a known syntax.
    pub open spec fn first_known(&self, candidates: Seq<Seq<char>>) -> Option<Seq<char>>
        decreases candidates.len(),
    {
        if candidates.len() == 0 {
            None
        } else {
            let t = trim(candidates[0]);
            if t.len() > 0 && self.knows(Some(t)) {
                Some(t)
            } else {
                self.first_known(candidates.drop_first())
            }
        }
    }

    /// A file name without an extension counts as no file name: the language is
    /// then the classifier's first known candidate.
    pub proof fn lemma_extensionless_name_uses_classifier(
        &self,
        f: Seq<char>,
        classifier_output: Option<Seq<char>>,
    )
        requires
            filename_ext(Some(f)) is None,
        ensures
            self.detected_language(Some(f), classifier_output) == self.detected_language(
                None,
                classifier_output,
            ),
            classifier_output matches Some(o) ==> self.detected_language(Some(f), classifier_output)
                == self.first_known(split_on(o, '\n')),
            classifier_output is None ==> self.detected_language(Some(f), classifier_output) is None,
    {
    }

    /// A file name with an extension decides alone: the classifier is not heard.
    pub proof fn lemma_extension_decides(
        &self,
        f: Seq<char>,
        c1: Option<Seq<char>>,
        c2: Option<Seq<char>>,
    )
        requires
            filename_ext(Some(f)) is Some,
        ensures
            self.detected_language(Some(f), c1) == self.detected_language(Some(f), c2),
    {
    }

    /// A detected language always names a known syntax, so a paste stored with it
    /// is highlighted.
    pub proof fn lemma_detected_is_known(
        &self,
        filename: Option<Seq<char>>,
        classifier_output: Option<Seq<char>>,
    )
        ensures
            self.detected_language(filename, classifier_output) matches Some(e) ==> self.knows(
                Some(e),
            ),
    {
        if let Some(out) = classifier_output {
            self.lemma_first_known_is_known(split_on(out, '\n'));
        }
    }

    proof fn lemma_first_known_is_known(&self, candidates: Seq<Seq<char>>)
        ensures
            self.first_known(candidates) matches Some(e) ==> self.knows(Some(e)),
        decreases candidates.len(),
    {
        if candidates.len() > 0 {
            self.lemma_first_known_is_known(candidates.drop_first());
        }
    }

    fn first_known_candidate(&self, out: &str) -> (res: Option<String>)
        ensures
            opt_view(res) == self.first_known(split_on(out@, '\n')),
    {
        let v = chars_of(out);
        let n = v.len();
        let mut start: usize = 0;
        assert(v@.skip(0) =~= v@);
        loop
            invariant
                v@ == out@,
                n == v@.len(),
                start <= n,
                self.first_known(split_on(out@, '\n')) == self.first_known(
                    split_on(v@.skip(start as int), '\n'),
                ),
            decreases n - start,
        {
            let end = skip_leading(&v, start, n, CharClass::Except('\n'));
            let ghost rest = v@.skip(start as int);
            proof {
                assert(v@.subrange(start as int, n as int) =~= rest);
                lemma_count_leading_bound(rest, CharClass::Except('\n'));
            }
            let (a, b) = trim_bounds(&v, start, end);
            let segment = string_of(&v, a, b);
            proof {
                assert(rest.take(end - start) =~= v@.subrange(start as int, end as int));
            }
            if a < b && self.resolve_syntax(Some(segment.as_str())).is_some() {
                proof {
                    if end < n {
                        assert(rest.skip(end - start + 1) =~= v@.skip(end + 1));
                    } else {
                        assert(rest.take(end - start) =~= rest);
                    }
                }
                return Some(segment);
            }
            if end == n {
                proof {
                    assert(rest.take(end - start) =~= rest);
                    assert(first_index_of(rest, '\n') is None);
                    let segs = split_on(rest, '\n');
                    assert(segs == seq![rest]);
                    assert(segs.drop_first() =~= Seq::<Seq<char>>::empty());
                    assert(self.first_known(Seq::<Seq<char>>::empty()) is None);
                }
                return None;
            }
            proof {
                assert(rest.skip(end - start + 1) =~= v@.skip(end + 1));
                let segs = split_on(rest, '\n');
                assert(segs.drop_first() =~= split_on(v@.skip(end + 1), '\n'));
            }
            start = end + 1;
        }
    }

    /// The HTML of a paste page's body: the markdown rendering when the paste is
    /// shown as markdown, otherwise its listing for `extension`.
    pub fn render_page(&self, extension: Option<&str>, is_markdown: bool, content: &str) -> (res:
        String)
        ensures
            !is_markdown ==> res@ == self.content_listing(opt_str_view(extension), content@),
            is_markdown ==> res@ == self.markdown_html(content@),
    {
        if is_markdown {
            self.render_markdown(content)
        } else {
            self.render_content(extension, content)
        }
    }

    /// The listing of `content` shown with `extension`: highlighted when the
    /// extension names a known syntax, otherwise the plain escaped listing.
    pub fn render_content(&self, extension: Option<&str>, content: &str) -> (res: String)
        ensures
            res@ == self.content_listing(opt_str_view(extension), content@),
            self.knows(opt_str_view(extension)) ==> shows_lines(
                lines_with_endings(content@),
                self.lines_highlighted(
                    self.chosen_syntax(opt_str_view(extension)->0),
                    lines_with_endings(content@),
                ),
            ),
    {
        match self.resolve_syntax(extension) {
            Some(syntax) => self.render_highlighted_html(syntax, content),
            None => render_plain_html(content),
        }
    }

    fn render_highlighted_html(&self, syntax: &SyntaxReference, content: &str) -> (res: String)
        ensures
            res@ == listing(content@, self.lines_highlighted(*syntax, lines_with_endings(content@))),
            shows_lines(
                lines_with_endings(content@),
                self.lines_highlighted(*syntax, lines_with_endings(content@)),
            ),
    {
        let v = chars_of(content);
        let ranges = line_ranges(&v);
        let mut highlighter = new_line_highlighter(syntax, &self.theme);
        let mut highlighted: Vec<Option<String>> = Vec::new();
        let ghost lines = lines_with_endings(v@);
        let ghost target = self.lines_highlighted(*syntax, lines);
        let mut k: usize = 0;
        proof {
            assert(fed_with(self.syntax_set, lines.take(0)) =~= Seq::<(SyntaxSet, Seq<char>)>::empty());
        }
        while k < ranges.len()
            invariant
                lines == lines_with_endings(v@),
                target == self.lines_highlighted(*syntax, lines),
                hl_state(highlighter) == (
                    *syntax,
                    self.theme,
                    fed_with(self.syntax_set, lines.take(k as int)),
                ),
                forall|j: int| 0 <= j < k ==> opt_views(highlighted@)[j] == target[j],
                k <= ranges@.len(),
                ranges@.len() == lines_with_endings(v@).len(),
                forall|i: int|
                    0 <= i < ranges@.len() ==> {
                        &&& (#[trigger] ranges@[i]).0 <= ranges@[i].1 <= v@.len()
                        &&& v@.subrange(ranges@[i].0 as int, ranges@[i].1 as int)
                            == lines_with_endings(v@)[i]
                    },
                highlighted@.len() == k,
                shows_lines(lines_with_endings(v@), opt_views(highlighted@)),
            decreases ranges.len() - k,
        {
            let (lo, hi) = ranges[k];
            let line = string_of(&v, lo, hi);
            let html = highlight_line_html(&mut highlighter, line.as_str(), &self.syntax_set);
            let ghost before = highlighted@;
            highlighted.push(html);
            proof {
                assert(ranges@[k as int].0 <= ranges@[k as int].1);
                assert forall|i: int| 0 <= i < opt_views(highlighted@).len() implies (
                #[trigger] opt_views(highlighted@)[i] matches Some(h) ==> html_text(h) == escape_html(
                    lines_with_endings(v@)[i],
                )) by {
                    if i < k {
                        assert(highlighted@[i] == before[i]);
                        assert(opt_views(before)[i] == opt_view(before[i]));
                    }
                    assert(opt_views(highlighted@)[i] == opt_view(highlighted@[i]));
                }
                assert forall|j: int| 0 <= j < k + 1 implies opt_views(highlighted@)[j]
                    == target[j] by {
                    if j < k {
                        assert(highlighted@[j] == before[j]);
                        assert(opt_views(before)[j] == opt_view(before[j]));
                    }
                    assert(opt_views(highlighted@)[j] == opt_view(highlighted@[j]));
                }
                assert(lines.take(k + 1) =~= lines.take(k as int).push(lines[k as int]));
                assert(fed_with(self.syntax_set, lines.take(k + 1)) =~= fed_with(
                    self.syntax_set,
                    lines.take(k as int),
                ).push((self.syntax_set, lines[k as int])));
            }
            k = k + 1;
        }
        let res = assemble_listing(content, &highlighted);
        proof {
            let hs = opt_views(highlighted@);
            assert(v@ == content@);
            assert(hs =~= target);
        }
        res
    }

    /// Whether `html` renders a markdown code block in language `lang` holding
    /// `code`: escaped when the language names no known syntax, otherwise
    /// highlighted line by line, each line highlighted by syntect or else escaped.
    pub open spec fn block_rendering(&self, lang: Option<Seq<char>>, code: Seq<char>, html: Seq<
        char,
    >) -> bool {
        &&& html == self.block_html(lang, code)
        &&& self.knows(lang) ==> shows_lines(
            lines_with_endings(code),
            self.lines_highlighted(self.chosen_syntax(lang->0), lines_with_endings(code)),
        )
    }

    /// The HTML of a markdown code block in language `lang` holding `code`.
    pub open spec fn block_html(&self, lang: Option<Seq<char>>, code: Seq<char>) -> Seq<char> {
        if !self.knows(lang) {
            code_block(lang, escape_html(code))
        } else {
            let lines = lines_with_endings(code);
            code_block(
                lang,
                code_body(lines, self.lines_highlighted(self.chosen_syntax(lang->0), lines), lines.len()),
            )
        }
    }

    /// The syntax that the extension or language `e` names (when it names one).
    pub open spec fn chosen_syntax(&self, e: Seq<char>) -> SyntaxReference {
        syntax_item(self.syntaxes(), self.tokens()[normalized_token(e)] as int)
    }

    /// `lines` highlighted in turn by a fresh highlighter for `syntax` in this
    /// highlighter's theme and syntax set.
    pub open spec fn lines_highlighted(&self, syntax: SyntaxReference, lines: Seq<Seq<char>>) -> Seq<
        Option<Seq<char>>,
    > {
        highlighted_lines(syntax, self.colour_theme(), self.syntaxes(), lines)
    }

    /// The listing of `content` shown with `extension`: highlighted by syntect, line
    /// after line, when the extension names a known syntax; plain otherwise.
    pub open spec fn content_listing(&self, extension: Option<Seq<char>>, content: Seq<char>) -> Seq<
        char,
    > {
        if self.knows(extension) {
            listing(
                content,
                self.lines_highlighted(self.chosen_syntax(extension->0), lines_with_endings(content)),
            )
        } else {
            plain_listing(content)
        }
    }

    /// The HTML of a fenced or indented markdown code block in language `lang`:
    /// `<pre><code>` with a `language-` class for a named language, then the code,
    /// highlighted line by line when the language names a known syntax and escaped
    /// otherwise.
    pub fn render_markdown_code_block(&self, lang: Option<&str>, code: &str) -> (res: String)
        ensures
            self.block_rendering(opt_str_view(lang), code@, res@),
    {
        let syntax = match lang {
            Some(l) => self.resolve_syntax(Some(l)),
            None => None,
        };
        let mut html = String::new();
        match lang {
            Some(l) => {
                html.append("<pre><code class=\"language-");
                push_escaped_html(&mut html, l);
                html.append("\">");
            },
            None => html.append("<pre><code>"),
        }
        let ghost opening = html@;
        match syntax {
            Some(syntax) => {
                let v = chars_of(code);
                let ranges = line_ranges(&v);
                let mut highlighter = new_line_highlighter(syntax, &self.theme);
                let ghost lines = lines_with_endings(v@);
                let ghost target = self.lines_highlighted(*syntax, lines);
                let ghost mut hs: Seq<Option<Seq<char>>> = Seq::empty();
                let mut k: usize = 0;
                proof {
                    assert(fed_with(self.syntax_set, lines.take(0)) =~= Seq::<
                        (SyntaxSet, Seq<char>),
                    >::empty());
                }
                while k < ranges.len()
                    invariant
                        k <= ranges@.len(),
                        lines == lines_with_endings(v@),
                        target == self.lines_highlighted(*syntax, lines),
                        hl_state(highlighter) == (
                            *syntax,
                            self.theme,
                            fed_with(self.syntax_set, lines.take(k as int)),
                        ),
                        forall|j: int| 0 <= j < k ==> hs[j] == target[j],
                        ranges@.len() == lines.len(),
                        forall|i: int|
                            0 <= i < ranges@.len() ==> {
                                &&& (#[trigger] ranges@[i]).0 <= ranges@[i].1 <= v@.len()
                                &&& v@.subrange(ranges@[i].0 as int, ranges@[i].1 as int)
                                    == lines[i]
                            },
                        hs.len() == k,
                        shows_lines(lines, hs),
                        html@ == opening + code_body(lines, hs, k as nat),
                    decreases ranges.len() - k,
                {
                    let (lo, hi) = ranges[k];
                    let line = string_of(&v, lo, hi);
                    let piece = highlight_line_html(&mut highlighter, line.as_str(), &self.syntax_set);
                    let ghost before = hs;
                    match &piece {
                        Some(h) => html.append(h.as_str()),
                        None => push_escaped_html(&mut html, line.as_str()),
                    }
                    proof {
                        hs = hs.push(opt_view(piece));
                        assert(code_body(lines, hs, k as nat) == code_body(lines, before, k as nat))
                            by {
                            lemma_code_body_prefix(lines, before, hs, k as nat);
                        }
                        assert(ranges@[k as int].0 <= ranges@[k as int].1);
                        assert(lines.take(k + 1) =~= lines.take(k as int).push(lines[k as int]));
                        assert(fed_with(self.syntax_set, lines.take(k + 1)) =~= fed_with(
                            self.syntax_set,
                            lines.take(k as int),
                        ).push((self.syntax_set, lines[k as int])));
                    }
                    k = k + 1;
                }
                proof {
                    assert(v@ == code@);
                    assert(hs =~= target);
                    lemma_code_body_prefix(lines, hs, target, lines.len());
                }
            },
            None => {
                push_escaped_html(&mut html, code);
            },
        }
        html.append("</code></pre>\n");
        html
    }
}

/// The opening of a code block.
pub open spec fn code_block_open(lang: Option<Seq<char>>) -> Seq<char> {
    match lang {
        Some(l) => "<pre><code class=\"language-"@ + escape_html(l) + "\">"@,
        None => "<pre><code>"@,
    }
}

pub open spec fn code_block(lang: Option<Seq<char>>, body: Seq<char>) -> Seq<char> {
    code_block_open(lang) + body + "</code></pre>\n"@
}

/// The first `k` lines of a code block's body: each line's highlighted HTML, or
/// the escaped line with its line ending.
pub open spec fn code_body(lines: Seq<Seq<char>>, hs: Seq<Option<Seq<char>>>, k: nat) -> Seq<
    char,
>
    decreases k,
{
    if k == 0 {
        Seq::empty()
    } else {
        code_body(lines, hs, (k - 1) as nat) + match hs[k - 1] {
            Some(h) => h,
            None => escape_html(lines[k - 1]),
        }
    }
}

pub proof fn lemma_code_body_prefix(
    lines: Seq<Seq<char>>,
    a: Seq<Option<Seq<char>>>,
    b: Seq<Option<Seq<char>>>,
    k: nat,
)
    requires
        k <= a.len(),
        k <= b.len(),
        forall|i: int| 0 <= i < k ==> a[i] == b[i],
    ensures
        code_body(lines, a, k) == code_body(lines, b, k),
    decreases k,
{
    if k > 0 {
        lemma_code_body_prefix(lines, a, b, (k - 1) as nat);
    }
}

/// `s.split(c)`: the pieces between the occurrences of `c`.
pub open spec fn split_on(s: Seq<char>, c: char) -> Seq<Seq<char>>
    decreases s.len(),
{
    match first_index_of(s, c) {
        Some(i) => if 0 <= i < s.len() {
            seq![s.take(i)] + split_on(s.skip(i + 1), c)
        } else {
            seq![s]
        },
        None => seq![s],
    }
}

/// The lowered extension of a file name: what follows its last `.`, trimmed and
/// without leading dots; none when that is empty or the name has no `.`.
pub open spec fn filename_ext(filename: Option<Seq<char>>) -> Option<Seq<char>> {
    match filename {
        Some(f) => match rsplit_once(f, '.') {
            Some((_, e)) => {
                let t = trim_start_class(trim(e), CharClass::Exactly('.'));
                if t.len() == 0 {
                    None
                } else {
                    Some(ascii_lower(t))
                }
            },
            None => None,
        },
        None => None,
    }
}

pub fn filename_extension(filename: Option<&str>) -> (res: Option<String>)
    ensures
        opt_view(res) == filename_ext(opt_str_view(filename)),
{
    let f = match filename {
        Some(f) => f,
        None => {
            return None;
        },
    };
    let v = chars_of(f);
    let i = match last_index_of(&v, 0, v.len(), '.') {
        Some(i) => i,
        None => {
            proof {
                assert(v@.subrange(0, v@.len() as int) =~= v@);
            }
            return None;
        },
    };
    proof {
        assert(v@.subrange(0, v@.len() as int) =~= v@);
        lemma_last_index_unique(v@, '.', i as int);
        assert(v@.skip(i + 1) =~= v@.subrange(i + 1, v@.len() as int));
    }
    let (a, b) = trim_bounds(&v, i + 1, v.len());
    let c = skip_leading(&v, a, b, CharClass::Exactly('.'));
    proof {
        let t = v@.subrange(a as int, b as int);
        assert(trim_start_class(t, CharClass::Exactly('.')) =~= v@.subrange(c as int, b as int));
    }
    if c == b {
        return None;
    }
    Some(lowered_string(&v, c, b))
}

/// Whether the language classifier is asked about `content`: only when it is
/// non-empty and its length in bytes fits an `i32`.
pub fn classifier_accepts(content: &str) -> (res: bool)
    ensures
        res == (content@.len() > 0 && content.spec_bytes().len() <= i32::MAX),
{
    !content.is_empty() && content.as_bytes().len() <= i32::MAX as usize
}

/// `e` trimmed, without leading dots, and ASCII lowered.
pub fn normalize_token(e: &str) -> (res: String)
    ensures
        res@ == normalized_token(e@),
{
    let v = chars_of(e);
    let (a, b) = trim_bounds(&v, 0, v.len());
    let c = skip_leading(&v, a, b, CharClass::Exactly('.'));
    proof {
        assert(v@.subrange(0, v@.len() as int) =~= v@);
        let t = v@.subrange(a as int, b as int);
        assert(trim_start_class(t, CharClass::Exactly('.')) =~= v@.subrange(c as int, b as int));
    }
    lowered_string(&v, c, b)
}

pub open spec fn markdown_names() -> Seq<Seq<char>> {
    seq!["md"@, "markdown"@, "mdown"@, "mkd"@, "mkdn"@]
}

/// An extension names markdown when, trimmed, it equals `md`, `markdown`, `mdown`,
/// `mkd` or `mkdn` regardless of ASCII case.
pub open spec fn is_markdown_spec(extension: Option<Seq<char>>) -> bool {
    match extension {
        Some(e) => markdown_names().contains(ascii_lower(trim(e))),
        None => false,
    }
}

pub fn is_markdown(extension: Option<&str>) -> (res: bool)
    ensures
        res == is_markdown_spec(opt_str_view(extension)),
{
    let e = match extension {
        Some(e) => e,
        None => {
            return false;
        },
    };
    let v = chars_of(e);
    let (a, b) = trim_bounds(&v, 0, v.len());
    let lowered = lowered_string(&v, a, b);
    let w = chars_of(lowered.as_str());
    let n = w.len();
    let res = range_equals(&w, 0, n, "md") || range_equals(&w, 0, n, "markdown")
        || range_equals(&w, 0, n, "mdown") || range_equals(&w, 0, n, "mkd")
        || range_equals(&w, 0, n, "mkdn");
    proof {
        assert(v@.subrange(0, v@.len() as int) =~= v@);
        assert(w@.subrange(0, n as int) =~= w@);
        let names = markdown_names();
        if markdown_names().contains(w@) {
            let j = choose|j: int| 0 <= j < names.len() && names[j] == w@;
            assert(j == 0 || j == 1 || j == 2 || j == 3 || j == 4);
        }
        if res {
            if w@ == "md"@ {
                assert(names[0] == w@);
            } else if w@ == "markdown"@ {
                assert(names[1] == w@);
            } else if w@ == "mdown"@ {
                assert(names[2] == w@);
            } else if w@ == "mkd"@ {
                assert(names[3] == w@);
            } else {
                assert(names[4] == w@);
            }
        }
    }
    res
}

/// The listing of `content` with no highlighting.
pub fn render_plain_html(content: &str) -> (res: String)
    ensures
        res@ == plain_listing(content@),
{
    let v = chars_of(content);
    let ranges = line_ranges(&v);
    let mut none: Vec<Option<String>> = Vec::new();
    let mut k: usize = 0;
    while k < ranges.len()
        invariant
            k <= ranges@.len(),
            none@.len() == k,
            forall|i: int| 0 <= i < k ==> none@[i] is None,
        decreases ranges.len() - k,
    {
        none.push(None);
        k = k + 1;
    }
    let res = assemble_listing(content, &none);
    proof {
        assert(opt_views(none@) =~= Seq::new(
            lines_with_endings(content@).len(),
            |i: int| None::<Seq<char>>,
        ));
    }
    res
}

} // verus!
