//! Character-level text operations: whitespace, trimming, case folding,
//! splitting into lines and HTML escaping, each with its mathematical meaning
//! stated over `Seq<char>`.
use vstd::prelude::*;

verus! {

/// The view of an optional string.
pub open spec fn opt_view(o: Option<String>) -> Option<Seq<char>> {
    match o {
        Some(s) => Some(s@),
        None => None,
    }
}

/// The view of an optional string slice.
pub open spec fn opt_str_view(o: Option<&str>) -> Option<Seq<char>> {
    match o {
        Some(s) => Some(s@),
        None => None,
    }
}

/// Unicode `White_Space`, the property that `char::is_whitespace` tests.
pub open spec fn is_whitespace(c: char) -> bool {
    ||| ('\u{9}' <= c && c <= '\u{d}')
    ||| c == ' '
    ||| c == '\u{85}'
    ||| c == '\u{a0}'
    ||| c == '\u{1680}'
    ||| ('\u{2000}' <= c && c <= '\u{200a}')
    ||| c == '\u{2028}'
    ||| c == '\u{2029}'
    ||| c == '\u{202f}'
    ||| c == '\u{205f}'
    ||| c == '\u{3000}'
}

/// A set of characters that a trim or a scan stops at the end of.
#[derive(Clone, Copy, PartialEq, Eq, Structural)]
pub enum CharClass {
    Whitespace,
    Exactly(char),
    Except(char),
}

pub open spec fn in_class(cls: CharClass, c: char) -> bool {
    match cls {
        CharClass::Whitespace => is_whitespace(c),
        CharClass::Exactly(x) => c == x,
        CharClass::Except(x) => c != x,
    }
}

/// The number of characters at the start of `s` that belong to `cls`.
pub open spec fn count_leading(s: Seq<char>, cls: CharClass) -> nat
    decreases s.len(),
{
    if s.len() > 0 && in_class(cls, s[0]) {
        1 + count_leading(s.drop_first(), cls)
    } else {
        0
    }
}

/// The number of characters at the end of `s` that belong to `cls`.
pub open spec fn count_trailing(s: Seq<char>, cls: CharClass) -> nat
    decreases s.len(),
{
    if s.len() > 0 && in_class(cls, s.last()) {
        1 + count_trailing(s.drop_last(), cls)
    } else {
        0
    }
}

/// `s` without its leading characters of class `cls` (`str::trim_start_matches`).
pub open spec fn trim_start_class(s: Seq<char>, cls: CharClass) -> Seq<char> {
    s.skip(count_leading(s, cls) as int)
}

/// `s` without its trailing characters of class `cls` (`str::trim_end_matches`).
pub open spec fn trim_end_class(s: Seq<char>, cls: CharClass) -> Seq<char> {
    s.take(s.len() - count_trailing(s, cls))
}

/// `s` without leading and trailing whitespace (`str::trim`).
pub open spec fn trim(s: Seq<char>) -> Seq<char> {
    trim_end_class(trim_start_class(s, CharClass::Whitespace), CharClass::Whitespace)
}

pub open spec fn ascii_lower_char(c: char) -> char {
    if 'A' <= c && c <= 'Z' {
        ((c as u32) + 32) as char
    } else {
        c
    }
}

/// `s` with ASCII capitals mapped to small letters (`str::to_ascii_lowercase`).
pub open spec fn ascii_lower(s: Seq<char>) -> Seq<char> {
    s.map_values(|c: char| ascii_lower_char(c))
}

pub open spec fn has_char(s: Seq<char>, c: char) -> bool {
    exists|i: int| 0 <= i < s.len() && s[i] == c
}

pub open spec fn is_prefix(p: Seq<char>, s: Seq<char>) -> bool {
    p.len() <= s.len() && s.take(p.len() as int) == p
}

/// The position of the first `c` in `s`, if any.
pub open spec fn first_index_of(s: Seq<char>, c: char) -> Option<int> {
    let k = count_leading(s, CharClass::Except(c));
    if k < s.len() {
        Some(k as int)
    } else {
        None
    }
}

/// Whether `i` is the position of the last `c` in `s`.
pub open spec fn is_last_index_of(s: Seq<char>, c: char, i: int) -> bool {
    &&& 0 <= i < s.len()
    &&& s[i] == c
    &&& forall|j: int| i < j < s.len() ==> s[j] != c
}

/// `str::rsplit_once` with a character: the parts before and after the last `c`.
pub open spec fn rsplit_once(s: Seq<char>, c: char) -> Option<(Seq<char>, Seq<char>)> {
    if has_char(s, c) {
        let i = choose|i: int| is_last_index_of(s, c, i);
        Some((s.take(i), s.skip(i + 1)))
    } else {
        None
    }
}

/// The length of the first line of `s`, its `'\n'` included.
pub open spec fn first_line_len(s: Seq<char>) -> nat {
    let k = count_leading(s, CharClass::Except('\n'));
    if k < s.len() {
        k + 1
    } else {
        k
    }
}

/// The lines of `s`, each with its line ending, as syntect's `LinesWithEndings` gives them.
pub open spec fn lines_with_endings(s: Seq<char>) -> Seq<Seq<char>>
    decreases s.len(),
{
    if s.len() == 0 {
        Seq::empty()
    } else {
        let n = first_line_len(s);
        proof {
            lemma_count_leading_bound(s, CharClass::Except('\n'));
        }
        if n == 0 {
            Seq::empty()
        } else {
            seq![s.take(n as int)] + lines_with_endings(s.skip(n as int))
        }
    }
}

/// A line without its final `"\r\n"`, `'\n'` or `'\r'`.
pub open spec fn strip_line_ending(line: Seq<char>) -> Seq<char> {
    if line.len() >= 2 && line[line.len() - 2] == '\r' && line.last() == '\n' {
        line.take(line.len() - 2)
    } else if line.len() >= 1 && (line.last() == '\n' || line.last() == '\r') {
        line.take(line.len() - 1)
    } else {
        line
    }
}

/// The first whitespace-separated word of `s` (`s.split_whitespace().next()`),
/// or the empty sequence when `s` has none.
pub open spec fn first_word(s: Seq<char>) -> Seq<char> {
    let t = trim_start_class(s, CharClass::Whitespace);
    t.take(count_leading_non_ws(t) as int)
}

pub open spec fn count_leading_non_ws(s: Seq<char>) -> nat
    decreases s.len(),
{
    if s.len() > 0 && !is_whitespace(s[0]) {
        1 + count_leading_non_ws(s.drop_first())
    } else {
        0
    }
}

/// The HTML escape of one character, as the paste renderer writes it.
pub open spec fn escape_char(c: char) -> Seq<char> {
    if c == '&' {
        seq!['&', 'a', 'm', 'p', ';']
    } else if c == '<' {
        seq!['&', 'l', 't', ';']
    } else if c == '>' {
        seq!['&', 'g', 't', ';']
    } else if c == '"' {
        seq!['&', 'q', 'u', 'o', 't', ';']
    } else if c == '\'' {
        seq!['&', '#', '3', '9', ';']
    } else {
        seq![c]
    }
}

/// The HTML escape of `s`: each character replaced by its escape, in order.
pub open spec fn escape_html(s: Seq<char>) -> Seq<char>
    decreases s.len(),
{
    if s.len() == 0 {
        Seq::empty()
    } else {
        escape_html(s.drop_last()) + escape_char(s.last())
    }
}

/// The decimal digits of `n`, most significant first, with no leading zero.
pub open spec fn decimal(n: nat) -> Seq<char>
    decreases n,
{
    if n < 10 {
        seq![digit_char(n)]
    } else {
        decimal(n / 10) + seq![digit_char(n % 10)]
    }
}

pub open spec fn is_ascii_digit(c: char) -> bool {
    '0' <= c && c <= '9'
}

/// The number that a sequence of decimal digits denotes.
pub open spec fn digits_value(s: Seq<char>) -> int
    decreases s.len(),
{
    if s.len() == 0 {
        0
    } else {
        digits_value(s.drop_last()) * 10 + ((s.last() as int) - ('0' as int))
    }
}

pub open spec fn all_digits(s: Seq<char>) -> bool {
    forall|i: int| 0 <= i < s.len() ==> is_ascii_digit(#[trigger] s[i])
}

/// `str::parse::<i64>`: an optional `+` or `-`, then one or more ASCII digits,
/// denoting a number in the range of `i64`.
pub open spec fn parse_i64(s: Seq<char>) -> Option<int> {
    let neg = s.len() > 0 && s[0] == '-';
    let signed = s.len() > 0 && (s[0] == '-' || s[0] == '+');
    let digits = if signed {
        s.drop_first()
    } else {
        s
    };
    if digits.len() > 0 && all_digits(digits) {
        let v = if neg {
            -digits_value(digits)
        } else {
            digits_value(digits)
        };
        if i64::MIN <= v && v <= i64::MAX {
            Some(v)
        } else {
            None
        }
    } else {
        None
    }
}

pub open spec fn digit_char(d: nat) -> char {
    (('0' as u32) + d) as char
}

// ---------------------------------------------------------------------------
// Lemmas

pub proof fn lemma_count_leading(s: Seq<char>, cls: CharClass, k: int)
    requires
        0 <= k <= s.len(),
        forall|j: int| 0 <= j < k ==> in_class(cls, #[trigger] s[j]),
        k == s.len() || !in_class(cls, s[k]),
    ensures
        count_leading(s, cls) == k,
    decreases k,
{
    if k > 0 {
        assert(in_class(cls, s[0]));
        let t = s.drop_first();
        assert forall|j: int| 0 <= j < k - 1 implies in_class(cls, #[trigger] t[j]) by {
            assert(t[j] == s[j + 1]);
        }
        if k < s.len() {
            assert(t[k - 1] == s[k]);
        }
        lemma_count_leading(t, cls, k - 1);
    }
}

pub proof fn lemma_count_trailing(s: Seq<char>, cls: CharClass, k: int)
    requires
        0 <= k <= s.len(),
        forall|j: int| s.len() - k <= j < s.len() ==> in_class(cls, #[trigger] s[j]),
        k == s.len() || !in_class(cls, s[s.len() - 1 - k]),
    ensures
        count_trailing(s, cls) == k,
    decreases k,
{
    if k > 0 {
        assert(in_class(cls, s[s.len() - 1]));
        let t = s.drop_last();
        assert forall|j: int| t.len() - (k - 1) <= j < t.len() implies in_class(
            cls,
            #[trigger] t[j],
        ) by {
            assert(t[j] == s[j]);
        }
        if k < s.len() {
            assert(t[t.len() - 1 - (k - 1)] == s[s.len() - 1 - k]);
        }
        lemma_count_trailing(t, cls, k - 1);
    }
}

pub proof fn lemma_count_leading_bound(s: Seq<char>, cls: CharClass)
    ensures
        count_leading(s, cls) <= s.len(),
        forall|j: int| 0 <= j < count_leading(s, cls) ==> in_class(cls, #[trigger] s[j]),
        count_leading(s, cls) < s.len() ==> !in_class(cls, s[count_leading(s, cls) as int]),
    decreases s.len(),
{
    if s.len() > 0 && in_class(cls, s[0]) {
        let t = s.drop_first();
        lemma_count_leading_bound(t, cls);
        assert forall|j: int| 0 <= j < count_leading(s, cls) implies in_class(
            cls,
            #[trigger] s[j],
        ) by {
            if j > 0 {
                assert(s[j] == t[j - 1]);
            }
        }
        if count_leading(s, cls) < s.len() {
            assert(s[count_leading(s, cls) as int] == t[count_leading(t, cls) as int]);
        }
    }
}

pub proof fn lemma_count_trailing_bound(s: Seq<char>, cls: CharClass)
    ensures
        count_trailing(s, cls) <= s.len(),
        forall|j: int|
            s.len() - count_trailing(s, cls) <= j < s.len() ==> in_class(cls, #[trigger] s[j]),
        count_trailing(s, cls) < s.len() ==> !in_class(
            cls,
            s[s.len() - 1 - count_trailing(s, cls)],
        ),
    decreases s.len(),
{
    if s.len() > 0 && in_class(cls, s.last()) {
        let t = s.drop_last();
        lemma_count_trailing_bound(t, cls);
        assert forall|j: int|
            s.len() - count_trailing(s, cls) <= j < s.len() implies in_class(
            cls,
            #[trigger] s[j],
        ) by {
            if j < s.len() - 1 {
                assert(s[j] == t[j]);
            }
        }
        if count_trailing(s, cls) < s.len() {
            assert(s[s.len() - 1 - count_trailing(s, cls)] == t[t.len() - 1 - count_trailing(
                t,
                cls,
            )]);
        }
    }
}

pub proof fn lemma_escape_html_append(a: Seq<char>, b: Seq<char>)
    ensures
        escape_html(a + b) == escape_html(a) + escape_html(b),
    decreases b.len(),
{
    if b.len() == 0 {
        assert(a + b =~= a);
        assert(escape_html(b) =~= Seq::<char>::empty());
        assert(escape_html(a) + escape_html(b) =~= escape_html(a));
    } else {
        lemma_escape_html_append(a, b.drop_last());
        assert((a + b).drop_last() =~= a + b.drop_last());
        assert((a + b).last() == b.last());
        assert(escape_html(a + b) =~= escape_html(a) + escape_html(b.drop_last()) + escape_char(
            b.last(),
        ));
    }
}

pub proof fn lemma_last_index_unique(s: Seq<char>, c: char, i: int)
    requires
        is_last_index_of(s, c, i),
    ensures
        rsplit_once(s, c) == Some((s.take(i), s.skip(i + 1))),
{
    assert(has_char(s, c));
    let j = choose|j: int| is_last_index_of(s, c, j);
    assert(is_last_index_of(s, c, j));
    assert(j == i);
}

pub proof fn lemma_digits_value_nonneg(s: Seq<char>)
    requires
        all_digits(s),
    ensures
        digits_value(s) >= 0,
    decreases s.len(),
{
    if s.len() > 0 {
        assert(is_ascii_digit(s[s.len() - 1]));
        lemma_digits_value_nonneg(s.drop_last());
    }
}

pub proof fn lemma_digits_value_prefix(s: Seq<char>, k: int)
    requires
        all_digits(s),
        0 <= k <= s.len(),
    ensures
        digits_value(s.take(k)) <= digits_value(s),
    decreases s.len(),
{
    if k < s.len() {
        let t = s.drop_last();
        assert(is_ascii_digit(s[s.len() - 1]));
        lemma_digits_value_prefix(t, k);
        assert(t.take(k) =~= s.take(k));
        lemma_digits_value_nonneg(t);
    } else {
        assert(s.take(k) =~= s);
    }
}

/// Trimming is idempotent: a trimmed text has no whitespace left at either end.
pub proof fn lemma_trim_idempotent(s: Seq<char>)
    ensures
        trim(trim(s)) == trim(s),
        trim(s).len() > 0 ==> !is_whitespace(trim(s)[0]) && !is_whitespace(trim(s).last()),
{
    let ws = CharClass::Whitespace;
    lemma_count_leading_bound(s, ws);
    let t = trim_start_class(s, ws);
    lemma_count_trailing_bound(t, ws);
    let u = trim(s);
    if u.len() > 0 {
        assert(u[0] == t[0]);
        assert(t[0] == s[count_leading(s, ws) as int]);
        assert(u.last() == t[t.len() - 1 - count_trailing(t, ws)]);
    }
    lemma_count_leading(u, ws, 0);
    assert(trim_start_class(u, ws) =~= u);
    lemma_count_trailing(u, ws, 0);
    assert(trim_end_class(u, ws) =~= u);
}

/// Dropping the trailing characters of a class twice drops nothing more.
pub proof fn lemma_trim_end_idempotent(s: Seq<char>, cls: CharClass)
    ensures
        trim_end_class(trim_end_class(s, cls), cls) == trim_end_class(s, cls),
{
    lemma_count_trailing_bound(s, cls);
    let u = trim_end_class(s, cls);
    if u.len() > 0 {
        assert(u.last() == s[s.len() - 1 - count_trailing(s, cls)]);
    }
    lemma_count_trailing(u, cls, 0);
    assert(trim_end_class(u, cls) =~= u);
}

/// Whitespace at the end of a text leaves its trimmed form unchanged.
pub proof fn lemma_trim_ignores_trailing_whitespace(p: Seq<char>, w: Seq<char>)
    requires
        forall|j: int| 0 <= j < w.len() ==> is_whitespace(#[trigger] w[j]),
    ensures
        trim(p + w) == trim(p),
{
    let ws = CharClass::Whitespace;
    let s = p + w;
    lemma_count_leading_bound(p, ws);
    let a = count_leading(p, ws);
    if a < p.len() {
        assert forall|j: int| 0 <= j < a implies in_class(ws, #[trigger] s[j]) by {
            assert(s[j] == p[j]);
        }
        assert(s[a as int] == p[a as int]);
        lemma_count_leading(s, ws, a as int);
        let t = p.skip(a as int);
        assert(s.skip(a as int) =~= t + w);
        lemma_count_trailing_bound(t, ws);
        let c = count_trailing(t, ws);
        let tw = t + w;
        assert forall|j: int| tw.len() - (c + w.len()) <= j < tw.len() implies in_class(
            ws,
            #[trigger] tw[j],
        ) by {
            if j < t.len() {
                assert(tw[j] == t[j]);
            } else {
                assert(tw[j] == w[j - t.len()]);
            }
        }
        if c < t.len() {
            assert(tw[tw.len() - 1 - (c + w.len())] == t[t.len() - 1 - c]);
        }
        lemma_count_trailing(tw, ws, (c + w.len()) as int);
        assert(trim(s) =~= trim(p));
    } else {
        assert forall|j: int| 0 <= j < s.len() implies in_class(ws, #[trigger] s[j]) by {
            if j < p.len() {
                assert(s[j] == p[j]);
            } else {
                assert(s[j] == w[j - p.len()]);
            }
        }
        lemma_count_leading(s, ws, s.len() as int);
        assert(trim(s) =~= Seq::<char>::empty());
        assert(trim(p) =~= Seq::<char>::empty());
    }
}

/// Dropping trailing carriage returns leaves the trimmed form of a text unchanged.
pub proof fn lemma_trim_after_dropping_returns(s: Seq<char>)
    ensures
        trim(trim_end_class(s, CharClass::Exactly('\r'))) == trim(s),
{
    let cls = CharClass::Exactly('\r');
    lemma_count_trailing_bound(s, cls);
    let p = trim_end_class(s, cls);
    let w = s.skip(p.len() as int);
    assert(p + w =~= s);
    assert forall|j: int| 0 <= j < w.len() implies is_whitespace(#[trigger] w[j]) by {
        assert(w[j] == s[p.len() + j]);
        assert(in_class(cls, s[p.len() + j]));
    }
    lemma_trim_ignores_trailing_whitespace(p, w);
}

pub proof fn lemma_ascii_lower_char(c: char)
    ensures
        ascii_lower_char(ascii_lower_char(c)) == ascii_lower_char(c),
        is_whitespace(ascii_lower_char(c)) == is_whitespace(c),
{
}

/// Lowering ASCII letters is idempotent and keeps every character's whitespace-ness,
/// so it commutes with trimming.
pub proof fn lemma_lower_trimmed(s: Seq<char>)
    ensures
        ascii_lower(trim(ascii_lower(trim(s)))) == ascii_lower(trim(s)),
{
    lemma_trim_idempotent(s);
    let u = trim(s);
    let w = ascii_lower(u);
    let ws = CharClass::Whitespace;
    if w.len() > 0 {
        lemma_ascii_lower_char(u[0]);
        lemma_ascii_lower_char(u.last());
        assert(w[0] == ascii_lower_char(u[0]));
        assert(w.last() == ascii_lower_char(u.last()));
    }
    lemma_count_leading(w, ws, 0);
    assert(trim_start_class(w, ws) =~= w);
    lemma_count_trailing(w, ws, 0);
    assert(trim_end_class(w, ws) =~= w);
    assert forall|i: int| 0 <= i < w.len() implies #[trigger] ascii_lower(w)[i] == w[i] by {
        lemma_ascii_lower_char(u[i]);
    }
    assert(ascii_lower(w) =~= w);
}

/// The escape of a text holds none of the characters that delimit HTML markup
/// or attribute values.
pub proof fn lemma_escape_has_no_markup(s: Seq<char>)
    ensures
        forall|i: int|
            0 <= i < escape_html(s).len() ==> {
                let c = #[trigger] escape_html(s)[i];
                c != '<' && c != '>' && c != '"' && c != '\''
            },
    decreases s.len(),
{
    if s.len() > 0 {
        lemma_escape_has_no_markup(s.drop_last());
        let a = escape_html(s.drop_last());
        let b = escape_char(s.last());
        assert(escape_html(s) == a + b);
        assert forall|i: int| 0 <= i < escape_html(s).len() implies {
            let c = #[trigger] escape_html(s)[i];
            c != '<' && c != '>' && c != '"' && c != '\''
        } by {
            if i >= a.len() {
                assert(escape_html(s)[i] == b[i - a.len()]);
            } else {
                assert(escape_html(s)[i] == a[i]);
            }
        }
    }
}

/// The lines of a text, put back together, are the text.
pub proof fn lemma_lines_flatten(s: Seq<char>)
    ensures
        lines_with_endings(s).flatten() == s,
    decreases s.len(),
{
    if s.len() > 0 {
        lemma_count_leading_bound(s, CharClass::Except('\n'));
        let n = first_line_len(s);
        let rest = lines_with_endings(s.skip(n as int));
        lemma_lines_flatten(s.skip(n as int));
        let ls = lines_with_endings(s);
        assert(ls == seq![s.take(n as int)] + rest);
        assert(ls.first() == s.take(n as int));
        assert(ls.drop_first() =~= rest);
        assert(s.take(n as int) + s.skip(n as int) =~= s);
    } else {
        assert(lines_with_endings(s) =~= Seq::<Seq<char>>::empty());
        assert(s =~= Seq::<char>::empty());
    }
}

// ---------------------------------------------------------------------------
// Executable operations

/// Appends one character to a string.
/// Calls `String::push`, which, as std documents, appends the character to the end.
#[verifier::external_body]
pub(crate) fn push_char(s: &mut String, c: char)
    ensures
        final(s)@ == old(s)@.push(c),
{
    s.push(c);
}

/// The characters of a string slice, in order.
pub fn chars_of(s: &str) -> (res: Vec<char>)
    ensures
        res@ == s@,
{
    let mut res: Vec<char> = Vec::new();
    for c in it: s.chars()
        invariant
            res@ == it.seq().take(it.index() as int),
    {
        res.push(c);
    }
    assert(res@ =~= s@);
    res
}

/// The string made of `v[lo..hi]`.
pub fn string_of(v: &Vec<char>, lo: usize, hi: usize) -> (res: String)
    requires
        lo <= hi <= v.len(),
    ensures
        res@ == v@.subrange(lo as int, hi as int),
{
    let mut res = String::new();
    let mut i = lo;
    while i < hi
        invariant
            lo <= i <= hi <= v.len(),
            res@ == v@.subrange(lo as int, i as int),
        decreases hi - i,
    {
        push_char(&mut res, v[i]);
        i = i + 1;
        assert(res@ =~= v@.subrange(lo as int, i as int));
    }
    res
}

pub fn is_whitespace_char(c: char) -> (res: bool)
    ensures
        res == is_whitespace(c),
{
    ('\u{9}' <= c && c <= '\u{d}') || c == ' ' || c == '\u{85}' || c == '\u{a0}' || c
        == '\u{1680}' || ('\u{2000}' <= c && c <= '\u{200a}') || c == '\u{2028}' || c
        == '\u{2029}' || c == '\u{202f}' || c == '\u{205f}' || c == '\u{3000}'
}

pub fn class_contains(cls: CharClass, c: char) -> (res: bool)
    ensures
        res == in_class(cls, c),
{
    match cls {
        CharClass::Whitespace => is_whitespace_char(c),
        CharClass::Exactly(x) => c == x,
        CharClass::Except(x) => c != x,
    }
}

/// The start of `v[lo..hi]` once its leading characters of class `cls` are skipped.
pub fn skip_leading(v: &Vec<char>, lo: usize, hi: usize, cls: CharClass) -> (res: usize)
    requires
        lo <= hi <= v.len(),
    ensures
        lo <= res <= hi,
        res - lo == count_leading(v@.subrange(lo as int, hi as int), cls),
{
    let ghost s = v@.subrange(lo as int, hi as int);
    let mut i = lo;
    while i < hi && class_contains(cls, v[i])
        invariant
            lo <= i <= hi <= v.len(),
            s == v@.subrange(lo as int, hi as int),
            forall|j: int| 0 <= j < i - lo ==> in_class(cls, #[trigger] s[j]),
        decreases hi - i,
    {
        assert(s[i - lo] == v@[i as int]);
        i = i + 1;
    }
    proof {
        if i < hi {
            assert(s[i - lo] == v@[i as int]);
        }
        lemma_count_leading(s, cls, i - lo);
    }
    i
}

/// The end of `v[lo..hi]` once its trailing characters of class `cls` are dropped.
pub fn skip_trailing(v: &Vec<char>, lo: usize, hi: usize, cls: CharClass) -> (res: usize)
    requires
        lo <= hi <= v.len(),
    ensures
        lo <= res <= hi,
        hi - res == count_trailing(v@.subrange(lo as int, hi as int), cls),
{
    let ghost s = v@.subrange(lo as int, hi as int);
    let mut i = hi;
    while i > lo && class_contains(cls, v[i - 1])
        invariant
            lo <= i <= hi <= v.len(),
            s == v@.subrange(lo as int, hi as int),
            forall|j: int| i - lo <= j < s.len() ==> in_class(cls, #[trigger] s[j]),
        decreases i - lo,
    {
        assert(s[i - 1 - lo] == v@[i - 1]);
        i = i - 1;
    }
    proof {
        if i > lo {
            assert(s[s.len() - 1 - (hi - i)] == v@[i - 1]);
        }
        lemma_count_trailing(s, cls, (hi - i) as int);
    }
    i
}

/// The bounds of `trim(v[lo..hi])` inside `v`.
pub fn trim_bounds(v: &Vec<char>, lo: usize, hi: usize) -> (res: (usize, usize))
    requires
        lo <= hi <= v.len(),
    ensures
        lo <= res.0 <= res.1 <= hi,
        v@.subrange(res.0 as int, res.1 as int) == trim(v@.subrange(lo as int, hi as int)),
{
    let a = skip_leading(v, lo, hi, CharClass::Whitespace);
    let b = skip_trailing(v, a, hi, CharClass::Whitespace);
    proof {
        let s = v@.subrange(lo as int, hi as int);
        let t = trim_start_class(s, CharClass::Whitespace);
        assert(t =~= v@.subrange(a as int, hi as int));
        assert(v@.subrange(a as int, b as int) =~= trim_end_class(t, CharClass::Whitespace));
    }
    (a, b)
}

/// `str::trim`.
pub fn trim_str(s: &str) -> (res: String)
    ensures
        res@ == trim(s@),
{
    let v = chars_of(s);
    let (a, b) = trim_bounds(&v, 0, v.len());
    assert(v@.subrange(0, v@.len() as int) =~= v@);
    string_of(&v, a, b)
}

pub fn ascii_lower_of(c: char) -> (res: char)
    ensures
        res == ascii_lower_char(c),
{
    if 'A' <= c && c <= 'Z' {
        let b: u8 = c as u8;
        assert(b == c as u32);
        let r = (b + 32) as char;
        r
    } else {
        c
    }
}

/// `v[lo..hi]` with ASCII capitals lowered, as a string.
pub fn lowered_string(v: &Vec<char>, lo: usize, hi: usize) -> (res: String)
    requires
        lo <= hi <= v.len(),
    ensures
        res@ == ascii_lower(v@.subrange(lo as int, hi as int)),
{
    let mut res = String::new();
    let mut i = lo;
    while i < hi
        invariant
            lo <= i <= hi <= v.len(),
            res@ == ascii_lower(v@.subrange(lo as int, i as int)),
        decreases hi - i,
    {
        let c = ascii_lower_of(v[i]);
        push_char(&mut res, c);
        i = i + 1;
        assert(res@ =~= ascii_lower(v@.subrange(lo as int, i as int)));
    }
    res
}

/// Whether `v[lo..hi]` holds `c`.
pub fn range_has_char(v: &Vec<char>, lo: usize, hi: usize, c: char) -> (res: bool)
    requires
        lo <= hi <= v.len(),
    ensures
        res == has_char(v@.subrange(lo as int, hi as int), c),
{
    let ghost s = v@.subrange(lo as int, hi as int);
    let mut i = lo;
    while i < hi
        invariant
            lo <= i <= hi <= v.len(),
            s == v@.subrange(lo as int, hi as int),
            forall|j: int| 0 <= j < i - lo ==> s[j] != c,
        decreases hi - i,
    {
        if v[i] == c {
            assert(s[i - lo] == c);
            return true;
        }
        assert(s[i - lo] == v@[i as int]);
        i = i + 1;
    }
    false
}

/// The position of the last `c` in `v[lo..hi]`, if any.
pub fn last_index_of(v: &Vec<char>, lo: usize, hi: usize, c: char) -> (res: Option<usize>)
    requires
        lo <= hi <= v.len(),
    ensures
        match res {
            Some(i) => lo <= i < hi && is_last_index_of(
                v@.subrange(lo as int, hi as int),
                c,
                i - lo,
            ),
            None => !has_char(v@.subrange(lo as int, hi as int), c),
        },
{
    let ghost s = v@.subrange(lo as int, hi as int);
    let mut i = hi;
    while i > lo
        invariant
            lo <= i <= hi <= v.len(),
            s == v@.subrange(lo as int, hi as int),
            forall|j: int| i - lo <= j < s.len() ==> s[j] != c,
        decreases i - lo,
    {
        if v[i - 1] == c {
            assert(s[i - 1 - lo] == c);
            return Some(i - 1);
        }
        assert(s[i - 1 - lo] == v@[i - 1]);
        i = i - 1;
    }
    None
}

/// The position of the first `c` in `v`, if any.
pub fn first_index_in(v: &Vec<char>, c: char) -> (res: Option<usize>)
    ensures
        match res {
            Some(i) => first_index_of(v@, c) == Some(i as int),
            None => first_index_of(v@, c) is None,
        },
{
    let k = skip_leading(v, 0, v.len(), CharClass::Except(c));
    proof {
        assert(v@.subrange(0, v@.len() as int) =~= v@);
    }
    if k < v.len() {
        Some(k)
    } else {
        None
    }
}

/// Whether `v[lo..hi]` is exactly the characters of `s`.
pub fn range_equals(v: &Vec<char>, lo: usize, hi: usize, s: &str) -> (res: bool)
    requires
        lo <= hi <= v.len(),
    ensures
        res == (v@.subrange(lo as int, hi as int) == s@),
{
    let p = chars_of(s);
    if p.len() != hi - lo {
        return false;
    }
    let mut i: usize = 0;
    while i < p.len()
        invariant
            lo <= hi <= v.len(),
            p.len() == hi - lo,
            p@ == s@,
            i <= p.len(),
            forall|j: int| 0 <= j < i ==> v@[lo + j] == p@[j],
        decreases p.len() - i,
    {
        if v[lo + i] != p[i] {
            assert(v@.subrange(lo as int, hi as int)[i as int] != s@[i as int]);
            return false;
        }
        i = i + 1;
    }
    assert(v@.subrange(lo as int, hi as int) =~= s@);
    true
}

/// Whether `v[lo..hi]` starts with the characters of `prefix`.
pub fn range_starts_with(v: &Vec<char>, lo: usize, hi: usize, prefix: &str) -> (res: bool)
    requires
        lo <= hi <= v.len(),
    ensures
        res == is_prefix(prefix@, v@.subrange(lo as int, hi as int)),
{
    let p = chars_of(prefix);
    let ghost s = v@.subrange(lo as int, hi as int);
    if p.len() > hi - lo {
        return false;
    }
    let mut i: usize = 0;
    while i < p.len()
        invariant
            lo <= hi <= v.len(),
            p.len() <= hi - lo,
            p@ == prefix@,
            s == v@.subrange(lo as int, hi as int),
            i <= p.len(),
            forall|j: int| 0 <= j < i ==> s[j] == p@[j],
        decreases p.len() - i,
    {
        if v[lo + i] != p[i] {
            assert(s[i as int] == v@[lo + i]);
            assert(s.take(p.len() as int)[i as int] != p@[i as int]);
            return false;
        }
        assert(s[i as int] == v@[lo + i]);
        i = i + 1;
    }
    assert(s.take(p.len() as int) =~= p@);
    true
}

/// Appends the HTML escape of `value` to `output`.
pub fn push_escaped_html(output: &mut String, value: &str)
    ensures
        final(output)@ == old(output)@ + escape_html(value@),
{
    let ghost start = output@;
    let ghost mut seen: Seq<char> = Seq::empty();
    for c in it: value.chars()
        invariant
            seen == it.seq().take(it.index() as int),
            output@ == start + escape_html(seen),
    {
        if c == '&' {
            proof {
                reveal_strlit("&amp;");
            }
            output.append("&amp;");
        } else if c == '<' {
            proof {
                reveal_strlit("&lt;");
            }
            output.append("&lt;");
        } else if c == '>' {
            proof {
                reveal_strlit("&gt;");
            }
            output.append("&gt;");
        } else if c == '"' {
            proof {
                reveal_strlit("&quot;");
            }
            output.append("&quot;");
        } else if c == '\'' {
            proof {
                reveal_strlit("&#39;");
            }
            output.append("&#39;");
        } else {
            push_char(output, c);
        }
        proof {
            let before = seen;
            seen = seen.push(c);
            assert(seen.drop_last() =~= before);
            assert(output@ =~= start + escape_html(seen));
        }
    }
    assert(seen =~= value@);
}

} // verus!
