//! The numbered code listing that a paste page shows: one `<code>` block per
//! line of the paste, each carrying its line number, an anchor `#L<n>` and the
//! line's HTML.
use vstd::prelude::*;
use vstd::string::StringSliceAdditionalSpecFns;

use crate::text::{
    chars_of, decimal, escape_html, in_class, lemma_count_leading, lines_with_endings,
    opt_view, push_escaped_html, string_of, strip_line_ending, CharClass,
};

verus! {

/// The HTML of line `n` of a listing whose content is `body`.
pub open spec fn line_block(n: nat, body: Seq<char>) -> Seq<char> {
    let d = decimal(n);
    "<code id=\"L"@ + d + "\" class=\"code-line\" data-line-number=\""@ + d
        + "\"><a class=\"line-link\" href=\"#L"@ + d + "\" data-line-number=\""@ + d
        + "\" aria-label=\"Link to line "@ + d + "\">"@ + d
        + "</a><span class=\"line-content\">"@ + body + "</span></code>"@
}

/// What stands in the listing for a line: its highlighted HTML when the highlighter
/// produced some, else the escaped line without its line ending.
pub open spec fn line_body(line: Seq<char>, highlighted: Option<Seq<char>>) -> Seq<char> {
    match highlighted {
        Some(h) => h,
        None => escape_html(strip_line_ending(line)),
    }
}

/// The blocks of the first `k` lines.
pub open spec fn listing_prefix(
    lines: Seq<Seq<char>>,
    highlighted: Seq<Option<Seq<char>>>,
    k: nat,
) -> Seq<char>
    decreases k,
{
    if k == 0 {
        Seq::empty()
    } else {
        listing_prefix(lines, highlighted, (k - 1) as nat) + line_block(
            k,
            line_body(lines[k - 1], highlighted[k - 1]),
        )
    }
}

/// The listing of `content`: an empty content gives one empty line 1; otherwise
/// line `i + 1` shows `highlighted[i]` or the escaped text of line `i`.
pub open spec fn listing(content: Seq<char>, highlighted: Seq<Option<Seq<char>>>) -> Seq<char> {
    if content.len() == 0 {
        line_block(1, Seq::empty())
    } else {
        let lines = lines_with_endings(content);
        listing_prefix(lines, highlighted, lines.len())
    }
}

/// The views of optional strings.
pub open spec fn opt_views(s: Seq<Option<String>>) -> Seq<Option<Seq<char>>> {
    s.map_values(|h: Option<String>| opt_view(h))
}

/// A listing with no highlighting at all.
pub open spec fn plain_listing(content: Seq<char>) -> Seq<char> {
    listing(content, Seq::new(lines_with_endings(content).len(), |i: int| None))
}

pub open spec fn count_byte(s: Seq<u8>, b: u8) -> nat {
    s.filter(|x: u8| x == b).len()
}

pub open spec fn sat_mul(a: int, b: int) -> int {
    if a * b > usize::MAX {
        usize::MAX as int
    } else {
        a * b
    }
}

pub open spec fn sat_add(a: int, b: int) -> int {
    if a + b > usize::MAX {
        usize::MAX as int
    } else {
        a + b
    }
}

/// The capacity that the listing of a content of `len` bytes and `newlines`
/// line feeds is given up front: three bytes per byte and 200 per line.
pub open spec fn capacity_estimate(len: nat, newlines: nat) -> int {
    sat_mul(len as int, 3) + sat_add(newlines as int, 1) * 200
}

/// The number of bytes equal to `needle` in `haystack`.
/// Calls `bytecount::count`, which counts the occurrences of `needle` in `haystack`.
#[verifier::external_body]
fn count_bytes(haystack: &[u8], needle: u8) -> (res: usize)
    ensures
        res == count_byte(haystack@, needle),
{
    bytecount::count(haystack, needle)
}

/// The decimal representation of `n`.
/// Calls `itoa::Buffer::format`, which writes the decimal digits of `n` with no
/// sign, no leading zero and no separator.
#[verifier::external_body]
pub(crate) fn decimal_string(n: usize) -> (res: String)
    ensures
        res@ == decimal(n as nat),
{
    let mut buf = itoa::Buffer::new();
    buf.format(n).to_string()
}

/// An empty string with room for `n` bytes.
/// Calls `String::with_capacity`, which std documents as returning an empty string;
/// it panics when `n` exceeds `isize::MAX` bytes, which `requires` leaves out.
#[verifier::external_body]
fn string_with_capacity(n: usize) -> (res: String)
    requires
        n <= isize::MAX,
    ensures
        res@ == Seq::<char>::empty(),
{
    String::with_capacity(n)
}

/// The byte capacity to reserve for the listing of `content`.
pub fn estimated_rendered_capacity(content: &str) -> (res: usize)
    requires
        capacity_estimate(content.spec_bytes().len(), count_byte(content.spec_bytes(), 10u8))
            <= usize::MAX,
    ensures
        res == capacity_estimate(
            content.spec_bytes().len(),
            count_byte(content.spec_bytes(), 10u8),
        ),
{
    let bytes = content.as_bytes();
    let line_count = count_bytes(bytes, 10u8).saturating_add(1);
    let len = bytes.len();
    let scaled = if len > usize::MAX / 3 {
        usize::MAX
    } else {
        len * 3
    };
    scaled + line_count * 200
}

/// Appends the block of line `line_number` with body `line_html` to `output`.
pub fn push_line_html(output: &mut String, line_number: usize, line_html: &str)
    ensures
        final(output)@ == old(output)@ + line_block(line_number as nat, line_html@),
{
    let n = decimal_string(line_number);
    let n = n.as_str();
    output.append("<code id=\"L");
    output.append(n);
    output.append("\" class=\"code-line\" data-line-number=\"");
    output.append(n);
    output.append("\"><a class=\"line-link\" href=\"#L");
    output.append(n);
    output.append("\" data-line-number=\"");
    output.append(n);
    output.append("\" aria-label=\"Link to line ");
    output.append(n);
    output.append("\">");
    output.append(n);
    output.append("</a><span class=\"line-content\">");
    output.append(line_html);
    output.append("</span></code>");
    assert(output@ =~= old(output)@ + line_block(line_number as nat, line_html@));
}

/// The block of line `line_number` with body `line_html`, on its own.
pub fn render_line_html(line_number: usize, line_html: String) -> (res: String)
    ensures
        res@ == line_block(line_number as nat, line_html@),
{
    let mut rendered = String::new();
    push_line_html(&mut rendered, line_number, line_html.as_str());
    assert(rendered@ =~= line_block(line_number as nat, line_html@));
    rendered
}

/// `line` without its line ending (`"\r\n"`, `"\n"` or `"\r"`).
pub fn trim_line_ending(line: &str) -> (res: String)
    ensures
        res@ == strip_line_ending(line@),
{
    let v = chars_of(line);
    let n = v.len();
    let end = if n >= 2 && v[n - 2] == '\r' && v[n - 1] == '\n' {
        n - 2
    } else if n >= 1 && (v[n - 1] == '\n' || v[n - 1] == '\r') {
        n - 1
    } else {
        n
    };
    let res = string_of(&v, 0, end);
    assert(res@ =~= strip_line_ending(line@));
    res
}

pub proof fn lemma_first_line(s: Seq<char>, k: int)
    requires
        0 <= k < s.len(),
        s[k] == '\n',
        forall|j: int| 0 <= j < k ==> s[j] != '\n',
    ensures
        lines_with_endings(s) == seq![s.take(k + 1)] + lines_with_endings(s.skip(k + 1)),
{
    assert forall|j: int| 0 <= j < k implies in_class(CharClass::Except('\n'), #[trigger] s[j]) by {
    }
    lemma_count_leading(s, CharClass::Except('\n'), k);
}

pub proof fn lemma_last_line(s: Seq<char>)
    requires
        s.len() > 0,
        forall|j: int| 0 <= j < s.len() ==> s[j] != '\n',
    ensures
        lines_with_endings(s) == seq![s],
{
    assert forall|j: int| 0 <= j < s.len() implies in_class(
        CharClass::Except('\n'),
        #[trigger] s[j],
    ) by {}
    lemma_count_leading(s, CharClass::Except('\n'), s.len() as int);
    assert(s.take(s.len() as int) =~= s);
    assert(lines_with_endings(s.skip(s.len() as int)) =~= Seq::<Seq<char>>::empty()) by {
        assert(s.skip(s.len() as int).len() == 0);
    }
    assert(seq![s] + Seq::<Seq<char>>::empty() =~= seq![s]);
}

/// A text that is empty or ends with a line feed, followed by one more line,
/// splits into its own lines and then that line.
pub proof fn lemma_lines_append(c: Seq<char>, l: Seq<char>)
    requires
        c.len() == 0 || c.last() == '\n',
        l.len() > 0,
        l.last() == '\n',
        forall|j: int| 0 <= j < l.len() - 1 ==> l[j] != '\n',
    ensures
        lines_with_endings(c + l) == lines_with_endings(c).push(l),
    decreases c.len(),
{
    if c.len() == 0 {
        assert(c + l =~= l);
        lemma_first_line(l, l.len() - 1);
        assert(l.take(l.len() as int) =~= l);
        assert(l.skip(l.len() as int).len() == 0);
        assert(lines_with_endings(l.skip(l.len() as int)) =~= Seq::<Seq<char>>::empty());
        assert(lines_with_endings(c) =~= Seq::<Seq<char>>::empty());
        assert(seq![l] + Seq::<Seq<char>>::empty() =~= Seq::<Seq<char>>::empty().push(l));
    } else {
        let k = crate::text::count_leading(c, CharClass::Except('\n')) as int;
        crate::text::lemma_count_leading_bound(c, CharClass::Except('\n'));
        if k == c.len() {
            assert(in_class(CharClass::Except('\n'), c[c.len() - 1]));
        }
        assert(c[k] == '\n');
        let s = c + l;
        assert forall|j: int| 0 <= j < k implies s[j] != '\n' by {
            assert(s[j] == c[j]);
            assert(in_class(CharClass::Except('\n'), c[j]));
        }
        assert(s[k] == c[k]);
        lemma_first_line(s, k);
        lemma_first_line(c, k);
        let rest = c.skip(k + 1);
        assert(s.take(k + 1) =~= c.take(k + 1));
        assert(s.skip(k + 1) =~= rest + l);
        if rest.len() > 0 {
            assert(rest.last() == c.last());
        }
        lemma_lines_append(rest, l);
        assert(seq![c.take(k + 1)] + lines_with_endings(rest).push(l) =~= (seq![c.take(k + 1)]
            + lines_with_endings(rest)).push(l));
    }
}

proof fn lemma_listing_prefix_agree(
    a: Seq<Seq<char>>,
    ha: Seq<Option<Seq<char>>>,
    b: Seq<Seq<char>>,
    hb: Seq<Option<Seq<char>>>,
    k: nat,
)
    requires
        k <= a.len(),
        k <= b.len(),
        k <= ha.len(),
        k <= hb.len(),
        forall|i: int| 0 <= i < k ==> a[i] == b[i] && ha[i] == hb[i],
    ensures
        listing_prefix(a, ha, k) == listing_prefix(b, hb, k),
    decreases k,
{
    if k > 0 {
        lemma_listing_prefix_agree(a, ha, b, hb, (k - 1) as nat);
        assert(a[k - 1] == b[k - 1] && ha[k - 1] == hb[k - 1]);
    }
}

/// The listing has one block for every line of the paste: one more line at the
/// end of a paste adds exactly one block, numbered after the last, after the
/// blocks of the lines before.
pub proof fn lemma_listing_one_block_per_line(
    c: Seq<char>,
    x: Seq<char>,
    hs: Seq<Option<Seq<char>>>,
    h: Option<Seq<char>>,
)
    requires
        c.len() > 0,
        c.last() == '\n',
        forall|j: int| 0 <= j < x.len() ==> x[j] != '\n',
        hs.len() == lines_with_endings(c).len(),
    ensures
        listing(c + x.push('\n'), hs.push(h)) == listing(c, hs) + line_block(
            hs.len() + 1,
            line_body(x.push('\n'), h),
        ),
        plain_listing(c + x.push('\n')) == plain_listing(c) + line_block(
            hs.len() + 1,
            line_body(x.push('\n'), None),
        ),
{
    let l = x.push('\n');
    let lines = lines_with_endings(c);
    let n = lines.len();
    assert forall|j: int| 0 <= j < l.len() - 1 implies l[j] != '\n' by {
        assert(l[j] == x[j]);
    }
    lemma_lines_append(c, l);
    let lines2 = lines_with_endings(c + l);
    assert(lines2 == lines.push(l));
    let hs2 = hs.push(h);
    assert((c + l).len() > 0);
    lemma_listing_prefix_agree(lines2, hs2, lines, hs, n);
    assert(lines2[n as int] == l);
    assert(hs2[n as int] == h);
    let ps = Seq::new(n, |i: int| None::<Seq<char>>);
    let ps2 = Seq::new(n + 1, |i: int| None::<Seq<char>>);
    lemma_listing_prefix_agree(lines2, ps2, lines, ps, n);
    assert(ps2[n as int] == None::<Seq<char>>);
}

/// The bounds in `v` of each line of `v`, line endings included.
pub fn line_ranges(v: &Vec<char>) -> (res: Vec<(usize, usize)>)
    ensures
        res@.len() == lines_with_endings(v@).len(),
        forall|i: int|
            0 <= i < res@.len() ==> {
                &&& (#[trigger] res@[i]).0 <= res@[i].1 <= v@.len()
                &&& v@.subrange(res@[i].0 as int, res@[i].1 as int) == lines_with_endings(v@)[i]
            },
{
    let mut res: Vec<(usize, usize)> = Vec::new();
    let ghost mut done: Seq<Seq<char>> = Seq::empty();
    let mut start: usize = 0;
    let mut i: usize = 0;
    assert(v@.skip(0) =~= v@);
    assert(done + lines_with_endings(v@) =~= lines_with_endings(v@));
    while i < v.len()
        invariant
            start <= i <= v.len(),
            forall|j: int| start <= j < i ==> v@[j] != '\n',
            done + lines_with_endings(v@.skip(start as int)) == lines_with_endings(v@),
            res@.len() == done.len(),
            forall|k: int|
                0 <= k < res@.len() ==> {
                    &&& (#[trigger] res@[k]).0 <= res@[k].1 <= start
                    &&& v@.subrange(res@[k].0 as int, res@[k].1 as int) == done[k]
                },
        decreases v.len() - i,
    {
        if v[i] == '\n' {
            proof {
                let s = v@.skip(start as int);
                assert forall|j: int| 0 <= j < i - start implies s[j] != '\n' by {
                    assert(s[j] == v@[start + j]);
                }
                assert(s[i - start] == v@[i as int]);
                lemma_first_line(s, i - start);
                assert(s.take(i - start + 1) =~= v@.subrange(start as int, i + 1));
                assert(s.skip(i - start + 1) =~= v@.skip(i + 1));
                let line = v@.subrange(start as int, i + 1);
                assert(done.push(line) + lines_with_endings(v@.skip(i + 1)) =~= done + (seq![line]
                    + lines_with_endings(v@.skip(i + 1))));
                done = done.push(line);
            }
            res.push((start, i + 1));
            start = i + 1;
        }
        i = i + 1;
    }
    if start < v.len() {
        proof {
            let s = v@.skip(start as int);
            assert forall|j: int| 0 <= j < s.len() implies s[j] != '\n' by {
                assert(s[j] == v@[start + j]);
            }
            lemma_last_line(s);
            assert(s =~= v@.subrange(start as int, v@.len() as int));
            done = done.push(s);
        }
        res.push((start, v.len()));
    } else {
        proof {
            assert(v@.skip(start as int).len() == 0);
            assert(lines_with_endings(v@.skip(start as int)) =~= Seq::<Seq<char>>::empty());
            assert(done + Seq::<Seq<char>>::empty() =~= done);
        }
    }
    res
}

/// The listing of `content`, where `highlighted[i]`, when present, is the HTML of
/// line `i` and otherwise that line is shown escaped.
pub fn assemble_listing(content: &str, highlighted: &Vec<Option<String>>) -> (res: String)
    requires
        highlighted@.len() == lines_with_endings(content@).len(),
    ensures
        res@ == listing(
            content@,
            opt_views(highlighted@),
        ),
{
    let ghost hs = opt_views(highlighted@);
    let v = chars_of(content);
    if v.len() == 0 {
        let r = render_line_html(1, String::new());
        return r;
    }
    let ranges = line_ranges(&v);
    let ghost lines = lines_with_endings(content@);
    let mut rendered = if content.as_bytes().len() <= 20_000_000 {
        proof {
            let b = content.spec_bytes();
            b.lemma_filter_len(|x: u8| x == 10u8);
            let len = b.len() as int;
            let nl = count_byte(b, 10u8) as int;
            assert(len * 3 <= 60_000_000) by (nonlinear_arith)
                requires
                    len <= 20_000_000,
            ;
            assert((nl + 1) * 200 <= 4_000_000_200) by (nonlinear_arith)
                requires
                    nl <= 20_000_000,
            ;
            assert(sat_mul(len, 3) == len * 3);
            assert(sat_add(nl, 1) == nl + 1);
        }
        let capacity = estimated_rendered_capacity(content);
        if capacity <= isize::MAX as usize {
            string_with_capacity(capacity)
        } else {
            String::new()
        }
    } else {
        String::new()
    };
    let mut k: usize = 0;
    while k < ranges.len()
        invariant
            v@ == content@,
            lines == lines_with_endings(content@),
            ranges@.len() == lines.len(),
            highlighted@.len() == lines.len(),
            hs == opt_views(highlighted@),
            forall|i: int|
                0 <= i < ranges@.len() ==> {
                    &&& (#[trigger] ranges@[i]).0 <= ranges@[i].1 <= v@.len()
                    &&& v@.subrange(ranges@[i].0 as int, ranges@[i].1 as int) == lines[i]
                },
            k <= ranges.len(),
            rendered@ == listing_prefix(lines, hs, k as nat),
        decreases ranges.len() - k,
    {
        let (lo, hi) = ranges[k];
        let line_html = match &highlighted[k] {
            Some(h) => h.clone(),
            None => {
                let line = string_of(&v, lo, hi);
                let bare = trim_line_ending(line.as_str());
                let mut escaped = String::new();
                push_escaped_html(&mut escaped, bare.as_str());
                escaped
            },
        };
        assert(line_html@ == line_body(lines[k as int], hs[k as int]));
        push_line_html(&mut rendered, k + 1, line_html.as_str());
        k = k + 1;
    }
    rendered
}

} // verus!
