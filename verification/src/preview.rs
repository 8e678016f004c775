//! The preview image of a paste (its social-card picture): the first lines of
//! the paste, numbered and coloured, drawn glyph by glyph on a dark canvas and
//! encoded as PNG.
use vstd::prelude::*;

use syntect::highlighting::Style;
use syntect::parsing::{SyntaxReference, SyntaxSet};

use crate::highlight::{
    fed_with, highlight_regions, hl_regions, hl_state, new_line_highlighter, region_text,
    region_views, style_foreground, style_rgb, Highlighter,
};
use crate::listing::line_ranges;
use crate::text::{chars_of, decimal, lines_with_endings, opt_str_view, string_of, strip_line_ending};

verus! {

pub const WIDTH: usize = 1200;

pub const HEIGHT: usize = 630;

pub const LINE_HEIGHT: usize = 22;

pub const PADDING_X: usize = 16;

pub const PADDING_Y: usize = 14;

pub const MAX_LINES: usize = 25;

pub const LINE_NUMBER_WIDTH: usize = 44;

pub const TAB_WIDTH: usize = 4;

pub const BG_R: u8 = 0x0a;

pub const BG_G: u8 = 0x0c;

pub const BG_B: u8 = 0x10;

pub const MUTED_R: u8 = 0x9e;

pub const MUTED_G: u8 = 0xa7;

pub const MUTED_B: u8 = 0xb3;

pub const FG_R: u8 = 0xf0;

pub const FG_G: u8 = 0xf3;

pub const FG_B: u8 = 0xf6;

/// The number of bytes of the canvas: four (red, green, blue, alpha) per pixel.
pub open spec fn canvas_len() -> int {
    (WIDTH * HEIGHT * 4) as int
}

/// The x at which text stops: a glyph is only started left of it.
pub open spec fn text_limit() -> int {
    (WIDTH - PADDING_X) as int
}

/// `fg` laid over `bg` with opacity `alpha` (out of 255).
pub open spec fn mix(fg: u8, bg: u8, alpha: u8) -> u8 {
    if alpha == 255 {
        fg
    } else {
        ((fg * alpha + bg * (255 - alpha)) / 255) as u8
    }
}

proof fn lemma_mix_fits(fg: u8, bg: u8, alpha: u8)
    ensures
        (fg as int) * (alpha as int) <= 65025,
        (bg as int) * (255 - alpha as int) <= 65025,
{
    assert((fg as int) * (alpha as int) <= 65025) by (nonlinear_arith)
        requires
            fg <= 255,
            alpha <= 255,
    ;
    assert((bg as int) * (255 - alpha as int) <= 65025) by (nonlinear_arith)
        requires
            bg <= 255,
            alpha <= 255,
    ;
}

/// A text colour faded towards the background red channel by `alpha`.
pub fn apply_alpha(color: u8, alpha: u8) -> (res: u8)
    ensures
        res == mix(color, BG_R, alpha),
{
    if alpha == 255 {
        return color;
    }
    let bg = BG_R;
    proof {
        lemma_mix_fits(color, bg, alpha);
    }
    ((color as u32 * alpha as u32 + bg as u32 * (255 - alpha as u32)) / 255) as u8
}

/// A colour channel faded towards the background channel `bg` by `alpha`.
pub fn apply_alpha_channel(fg: u8, bg: u8, alpha: u8) -> (res: u8)
    ensures
        res == mix(fg, bg, alpha),
{
    if alpha == 255 {
        return fg;
    }
    proof {
        lemma_mix_fits(fg, bg, alpha);
    }
    ((fg as u32 * alpha as u32 + bg as u32 * (255 - alpha as u32)) / 255) as u8
}

/// A mix of two channels lies between them.
pub proof fn lemma_mix_between(fg: u8, bg: u8, alpha: u8)
    ensures
        (if fg <= bg {
            fg
        } else {
            bg
        }) <= mix(fg, bg, alpha) <= (if fg <= bg {
            bg
        } else {
            fg
        }),
{
    if alpha != 255 {
        let a = alpha as int;
        let f = fg as int;
        let b = bg as int;
        let lo = if f <= b {
            f
        } else {
            b
        };
        let hi = if f <= b {
            b
        } else {
            f
        };
        assert(lo * 255 <= f * a + b * (255 - a) <= hi * 255) by (nonlinear_arith)
            requires
                0 <= a <= 255,
                lo <= f <= hi,
                lo <= b <= hi,
        ;
        let s = f * a + b * (255 - a);
        assert(lo <= s / 255 <= hi) by (nonlinear_arith)
            requires
                lo * 255 <= s <= hi * 255,
                0 <= lo,
        ;
    }
}

/// A rasterized glyph: its bitmap of coverage values, row by row, placed at
/// `(xmin, ymin)` from the pen, and the distance the pen then advances.
#[derive(Debug, Clone)]
pub struct Glyph {
    pub width: usize,
    pub height: usize,
    pub xmin: i32,
    pub ymin: i32,
    pub advance: usize,
    pub coverage: Vec<u8>,
}

impl Glyph {
    /// The bitmap holds one coverage value per pixel of the glyph's box.
    pub open spec fn wf(&self) -> bool {
        self.coverage@.len() == self.width * self.height
    }
}

/// The byte at which the red channel of cell `cell` of glyph `g` drawn with its
/// pen at `(x, y)` lands, or `None` when the pixel falls off the canvas.
pub open spec fn cell_target(g: Glyph, x: int, y: int, cell: int) -> Option<int> {
    if g.width == 0 {
        None
    } else {
        let gx = cell % (g.width as int);
        let gy = cell / (g.width as int);
        let px = x + g.xmin + gx;
        let py = y + (LINE_HEIGHT - 4) - g.height - g.ymin + gy;
        if px < 0 || py < 0 || px >= WIDTH || py >= HEIGHT {
            None
        } else {
            Some((py * WIDTH + px) * 4)
        }
    }
}

/// Pixel `idx` of `p` with colour `col` laid over it at coverage `cov`.
pub open spec fn paint(p: Seq<u8>, idx: int, col: (u8, u8, u8), cov: u8) -> Seq<u8> {
    p.update(idx, mix(col.0, p[idx], cov)).update(idx + 1, mix(col.1, p[idx + 1], cov)).update(
        idx + 2,
        mix(col.2, p[idx + 2], cov),
    )
}

/// The first `n` cells of glyph `g` drawn on `p`: cells of zero coverage and
/// cells off the canvas are skipped.
pub open spec fn draw_cells(p: Seq<u8>, g: Glyph, x: int, y: int, col: (u8, u8, u8), n: nat) -> Seq<
    u8,
>
    decreases n,
{
    if n == 0 {
        p
    } else {
        let q = draw_cells(p, g, x, y, col, (n - 1) as nat);
        let cell = n - 1;
        let cov = g.coverage@[cell];
        if cov == 0 {
            q
        } else {
            match cell_target(g, x, y, cell) {
                Some(idx) => if idx + 3 < q.len() {
                    paint(q, idx, col, cov)
                } else {
                    q
                },
                None => q,
            }
        }
    }
}

pub open spec fn draw_glyph(p: Seq<u8>, g: Glyph, x: int, y: int, col: (u8, u8, u8)) -> Seq<u8> {
    draw_cells(p, g, x, y, col, g.coverage@.len())
}

proof fn lemma_draw_cells_len(p: Seq<u8>, g: Glyph, x: int, y: int, col: (u8, u8, u8), n: nat)
    ensures
        draw_cells(p, g, x, y, col, n).len() == p.len(),
    decreases n,
{
    if n > 0 {
        lemma_draw_cells_len(p, g, x, y, col, (n - 1) as nat);
    }
}

/// Draws glyph `g` with its pen at `(x, y)` in colour `col`.
fn paint_glyph(pixels: &mut Vec<u8>, g: &Glyph, x: u64, y: usize, col: (u8, u8, u8))
    requires
        g.wf(),
        x < WIDTH,
        y <= HEIGHT,
    ensures
        final(pixels)@ == draw_glyph(old(pixels)@, *g, x as int, y as int, col),
{
    let n = g.coverage.len();
    let mut cell: usize = 0;
    while cell < n
        invariant
            g.wf(),
            n == g.coverage@.len(),
            x < WIDTH,
            y <= HEIGHT,
            cell <= n,
            pixels@ == draw_cells(old(pixels)@, *g, x as int, y as int, col, cell as nat),
            pixels@.len() == old(pixels)@.len(),
        decreases n - cell,
    {
        let cov = g.coverage[cell];
        if cov != 0 {
            proof {
                assert(g.width > 0) by (nonlinear_arith)
                    requires
                        cell < g.width * g.height,
                ;
            }
            let gx = cell % g.width;
            let gy = cell / g.width;
            let px: i128 = x as i128 + g.xmin as i128 + gx as i128;
            let py: i128 = y as i128 + (LINE_HEIGHT as i128 - 4) - g.height as i128
                - g.ymin as i128 + gy as i128;
            if !(px < 0 || py < 0 || px >= WIDTH as i128 || py >= HEIGHT as i128) {
                let idx: usize = ((py as usize) * WIDTH + px as usize) * 4;
                if idx + 3 < pixels.len() {
                    let r = apply_alpha_channel(col.0, pixels[idx], cov);
                    pixels.set(idx, r);
                    let gr = apply_alpha_channel(col.1, pixels[idx + 1], cov);
                    pixels.set(idx + 1, gr);
                    let b = apply_alpha_channel(col.2, pixels[idx + 2], cov);
                    pixels.set(idx + 2, b);
                }
            }
        }
        cell = cell + 1;
        proof {
            lemma_draw_cells_len(old(pixels)@, *g, x as int, y as int, col, cell as nat);
        }
    }
}

/// The glyphs that text is drawn with, each for the character it renders.
pub struct GlyphTable {
    entries: Vec<(char, Glyph)>,
}

/// The glyph of `c`: that of the first entry for `c`.
pub open spec fn glyph_of(t: Seq<(char, Glyph)>, c: char) -> Option<Glyph>
    decreases t.len(),
{
    if t.len() == 0 {
        None
    } else if t[0].0 == c {
        Some(t[0].1)
    } else {
        glyph_of(t.drop_first(), c)
    }
}

/// How far the pen advances after `c`; nothing for a character without a glyph.
pub open spec fn advance_of(t: Seq<(char, Glyph)>, c: char) -> int {
    match glyph_of(t, c) {
        Some(g) => g.advance as int,
        None => 0,
    }
}

pub open spec fn all_wf(t: Seq<(char, Glyph)>) -> bool {
    forall|i: int| 0 <= i < t.len() ==> (#[trigger] t[i]).1.wf()
}

proof fn lemma_glyph_of_wf(t: Seq<(char, Glyph)>, c: char)
    requires
        all_wf(t),
    ensures
        glyph_of(t, c) matches Some(g) ==> g.wf(),
    decreases t.len(),
{
    if t.len() > 0 && t[0].0 != c {
        let u = t.drop_first();
        assert forall|i: int| 0 <= i < u.len() implies (#[trigger] u[i]).1.wf() by {
            assert(u[i] == t[i + 1]);
        }
        lemma_glyph_of_wf(u, c);
    } else if t.len() > 0 {
        assert(t[0].1.wf());
    }
}

proof fn lemma_glyph_of_index(t: Seq<(char, Glyph)>, c: char, i: int)
    requires
        0 <= i < t.len(),
        t[i].0 == c,
        forall|j: int| 0 <= j < i ==> (#[trigger] t[j]).0 != c,
    ensures
        glyph_of(t, c) == Some(t[i].1),
    decreases i,
{
    if i > 0 {
        let u = t.drop_first();
        assert forall|j: int| 0 <= j < i - 1 implies (#[trigger] u[j]).0 != c by {
            assert(u[j] == t[j + 1]);
            assert(t[j + 1].0 != c);
        }
        assert(t[0].0 != c);
        lemma_glyph_of_index(u, c, i - 1);
    }
}

proof fn lemma_glyph_of_none(t: Seq<(char, Glyph)>, c: char)
    requires
        forall|j: int| 0 <= j < t.len() ==> (#[trigger] t[j]).0 != c,
    ensures
        glyph_of(t, c) is None,
    decreases t.len(),
{
    if t.len() > 0 {
        let u = t.drop_first();
        assert forall|j: int| 0 <= j < u.len() implies (#[trigger] u[j]).0 != c by {
            assert(u[j] == t[j + 1]);
        }
        assert(t[0].0 != c);
        lemma_glyph_of_none(u, c);
    }
}

impl GlyphTable {
    #[verifier::type_invariant]
    spec fn glyphs_wf(self) -> bool {
        all_wf(self.entries@)
    }

    /// The entries, in the order they were added.
    pub closed spec fn entries(&self) -> Seq<(char, Glyph)> {
        self.entries@
    }

    pub fn new() -> (res: Self)
        ensures
            res.entries() == Seq::<(char, Glyph)>::empty(),
    {
        GlyphTable { entries: Vec::new() }
    }

    /// Adds the glyph of `c`, unless its bitmap does not have one coverage value
    /// per pixel of its box; says whether it was added.
    pub fn insert(&mut self, c: char, g: Glyph) -> (res: bool)
        ensures
            res == g.wf(),
            res ==> final(self).entries() == old(self).entries().push((c, g)),
            !res ==> final(self).entries() == old(self).entries(),
    {
        proof {
            use_type_invariant(&*self);
        }
        let len = g.coverage.len();
        let fits = match g.width.checked_mul(g.height) {
            Some(n) => n == len,
            None => false,
        };
        if fits {
            let mut entries: Vec<(char, Glyph)> = Vec::new();
            std::mem::swap(&mut entries, &mut self.entries);
            entries.push((c, g));
            proof {
                assert forall|i: int| 0 <= i < entries@.len() implies (#[trigger] entries@[i]).1.wf() by {
                    if i < entries@.len() - 1 {
                        assert(entries@[i] == old(self).entries@[i]);
                    }
                }
            }
            self.entries = entries;
        }
        fits
    }

    /// The glyph of `c`, if the table has one.
    pub fn get(&self, c: char) -> (res: Option<&Glyph>)
        ensures
            match res {
                Some(g) => glyph_of(self.entries(), c) == Some(*g) && g.wf(),
                None => glyph_of(self.entries(), c) is None,
            },
    {
        proof {
            use_type_invariant(self);
        }
        let mut i: usize = 0;
        while i < self.entries.len()
            invariant
                i <= self.entries@.len(),
                all_wf(self.entries@),
                forall|j: int| 0 <= j < i ==> (#[trigger] self.entries@[j]).0 != c,
            decreases self.entries.len() - i,
        {
            if self.entries[i].0 == c {
                proof {
                    lemma_glyph_of_index(self.entries@, c, i as int);
                    assert(self.entries@[i as int].1.wf());
                }
                return Some(&self.entries[i].1);
            }
            i = i + 1;
        }
        proof {
            lemma_glyph_of_none(self.entries@, c);
        }
        None
    }
}

/// Cursor positions are kept exactly up to this bound and held at it beyond; the
/// bound lies far right of the canvas, so no drawing depends on positions past it.
pub const CURSOR_CAP: u64 = 4_294_967_296;

pub open spec fn cap(x: int) -> int {
    if x > CURSOR_CAP {
        CURSOR_CAP as int
    } else {
        x
    }
}

/// Text `s` drawn with its pen starting at `(x, y)` in colour `col`: a tab moves
/// the pen by four spaces; a character is drawn (when it has a glyph) and moves
/// the pen by its advance, unless the pen has reached the text limit, where
/// drawing stops. Gives the canvas and the final pen position.
pub open spec fn draw_text(
    p: Seq<u8>,
    t: Seq<(char, Glyph)>,
    s: Seq<char>,
    x: int,
    y: int,
    col: (u8, u8, u8),
) -> (Seq<u8>, int)
    decreases s.len(),
{
    if s.len() == 0 {
        (p, x)
    } else if s[0] == '\t' {
        draw_text(p, t, s.drop_first(), x + (TAB_WIDTH as int) * advance_of(t, ' '), y, col)
    } else if x >= text_limit() {
        (p, x)
    } else {
        let q = match glyph_of(t, s[0]) {
            Some(g) => draw_glyph(p, g, x, y, col),
            None => p,
        };
        draw_text(q, t, s.drop_first(), x + advance_of(t, s[0]), y, col)
    }
}

/// The width of `s`: the sum of the advances of its characters.
pub open spec fn text_width(t: Seq<(char, Glyph)>, s: Seq<char>) -> int
    decreases s.len(),
{
    if s.len() == 0 {
        0
    } else {
        text_width(t, s.drop_last()) + advance_of(t, s.last())
    }
}

/// Where text `s` starts when it ends at `right`; at 0 when it is wider.
pub open spec fn right_aligned_start(t: Seq<(char, Glyph)>, s: Seq<char>, right: int) -> int {
    if text_width(t, s) >= right {
        0
    } else {
        right - text_width(t, s)
    }
}

proof fn lemma_draw_text_len(
    p: Seq<u8>,
    t: Seq<(char, Glyph)>,
    s: Seq<char>,
    x: int,
    y: int,
    col: (u8, u8, u8),
)
    ensures
        draw_text(p, t, s, x, y, col).0.len() == p.len(),
    decreases s.len(),
{
    if s.len() > 0 && s[0] != '\t' && x < text_limit() {
        let q = match glyph_of(t, s[0]) {
            Some(g) => draw_glyph(p, g, x, y, col),
            None => p,
        };
        if let Some(g) = glyph_of(t, s[0]) {
            lemma_draw_cells_len(p, g, x, y, col, g.coverage@.len());
        }
        lemma_draw_text_len(q, t, s.drop_first(), x + advance_of(t, s[0]), y, col);
    } else if s.len() > 0 && s[0] == '\t' {
        lemma_draw_text_len(
            p,
            t,
            s.drop_first(),
            x + (TAB_WIDTH as int) * advance_of(t, ' '),
            y,
            col,
        );
    }
}

proof fn lemma_draw_text_mono(
    p: Seq<u8>,
    t: Seq<(char, Glyph)>,
    s: Seq<char>,
    x: int,
    y: int,
    col: (u8, u8, u8),
)
    requires
        x >= 0,
    ensures
        draw_text(p, t, s, x, y, col).1 >= x,
    decreases s.len(),
{
    if s.len() > 0 && s[0] == '\t' {
        lemma_draw_text_mono(
            p,
            t,
            s.drop_first(),
            x + (TAB_WIDTH as int) * advance_of(t, ' '),
            y,
            col,
        );
    } else if s.len() > 0 && x < text_limit() {
        let q = match glyph_of(t, s[0]) {
            Some(g) => draw_glyph(p, g, x, y, col),
            None => p,
        };
        lemma_draw_text_mono(q, t, s.drop_first(), x + advance_of(t, s[0]), y, col);
    }
}

/// `cursor + d`, held at the cap.
fn advance_cursor(cursor: u64, d: usize, mult: usize) -> (res: u64)
    requires
        mult <= TAB_WIDTH,
        cursor <= CURSOR_CAP,
    ensures
        res == cap(cursor + mult * d),
{
    proof {
        assert((mult as int) * (d as int) <= 4 * (d as int)) by (nonlinear_arith)
            requires
                mult <= 4,
                d >= 0,
        ;
        assert((mult as int) * (d as int) >= 0) by (nonlinear_arith)
            requires
                mult >= 0,
                d >= 0,
        ;
    }
    let n: u128 = cursor as u128 + (mult as u128) * (d as u128);
    if n > CURSOR_CAP as u128 {
        CURSOR_CAP
    } else {
        n as u64
    }
}

/// Draws `s` with the pen starting at `x` (the exact position `gx`, held at the
/// cap in `x`); gives the final pen position, exact and held.
fn draw_chars(
    pixels: &mut Vec<u8>,
    table: &GlyphTable,
    s: &Vec<char>,
    x: u64,
    Ghost(gx): Ghost<int>,
    y: usize,
    col: (u8, u8, u8),
) -> (res: (u64, Ghost<int>))
    requires
        x == cap(gx),
        0 <= gx,
        y <= HEIGHT,
    ensures
        final(pixels)@ == draw_text(old(pixels)@, table.entries(), s@, gx, y as int, col).0,
        res.1@ == draw_text(old(pixels)@, table.entries(), s@, gx, y as int, col).1,
        res.0 == cap(res.1@),
        res.1@ >= gx,
{
    let ghost t = table.entries();
    let ghost goal = draw_text(old(pixels)@, t, s@, gx, y as int, col);
    proof {
        lemma_draw_text_mono(old(pixels)@, t, s@, gx, y as int, col);
    }
    let space = match table.get(' ') {
        Some(g) => g.advance,
        None => 0,
    };
    let mut cursor = x;
    let ghost mut cur = gx;
    let mut i: usize = 0;
    assert(s@.skip(0) =~= s@);
    while i < s.len()
        invariant
            t == table.entries(),
            space == advance_of(t, ' '),
            goal == draw_text(old(pixels)@, t, s@, gx, y as int, col),
            goal.1 >= gx,
            i <= s@.len(),
            y <= HEIGHT,
            goal == draw_text(pixels@, t, s@.skip(i as int), cur, y as int, col),
            cursor == cap(cur),
            cur >= gx,
            0 <= gx,
        decreases s.len() - i,
    {
        let c = s[i];
        proof {
            assert(s@.skip(i as int)[0] == c);
            assert(s@.skip(i as int).drop_first() =~= s@.skip(i + 1));
        }
        if c == '\t' {
            cursor = advance_cursor(cursor, space, TAB_WIDTH);
            proof {
                cur = cur + (TAB_WIDTH as int) * advance_of(t, ' ');
            }
        } else {
            if cursor >= (WIDTH - PADDING_X) as u64 {
                return (cursor, Ghost(cur));
            }
            match table.get(c) {
                Some(g) => {
                    paint_glyph(pixels, g, cursor, y, col);
                    cursor = advance_cursor(cursor, g.advance, 1);
                },
                None => {},
            }
            proof {
                cur = cur + advance_of(t, c);
            }
        }
        i = i + 1;
    }
    proof {
        assert(s@.skip(i as int).len() == 0);
    }
    (cursor, Ghost(cur))
}

/// The width of `s`, held at the cap.
fn text_width_of(table: &GlyphTable, s: &Vec<char>) -> (res: u64)
    ensures
        res == cap(text_width(table.entries(), s@)),
        text_width(table.entries(), s@) >= 0,
{
    let ghost t = table.entries();
    let mut w: u64 = 0;
    let mut i: usize = 0;
    while i < s.len()
        invariant
            t == table.entries(),
            i <= s@.len(),
            w == cap(text_width(t, s@.take(i as int))),
            text_width(t, s@.take(i as int)) >= 0,
        decreases s.len() - i,
    {
        let a = match table.get(s[i]) {
            Some(g) => g.advance,
            None => 0,
        };
        proof {
            assert(s@.take(i + 1).drop_last() =~= s@.take(i as int));
            assert(s@.take(i + 1).last() == s@[i as int]);
        }
        w = advance_cursor(w, a, 1);
        i = i + 1;
    }
    proof {
        assert(s@.take(s@.len() as int) =~= s@);
    }
    w
}

/// A region of a highlighted line: its text and its foreground colour.
#[derive(Debug, Clone)]
pub struct ColoredText {
    pub r: u8,
    pub g: u8,
    pub b: u8,
    pub text: String,
}

/// A line of the preview: the line as in the paste, line ending included, and its
/// highlighted regions when the highlighter gave some.
#[derive(Debug, Clone)]
pub struct PreviewLine {
    pub line: String,
    pub regions: Option<Vec<ColoredText>>,
}

pub open spec fn faded(col: (u8, u8, u8), alpha: u8) -> (u8, u8, u8) {
    (mix(col.0, BG_R, alpha), mix(col.1, BG_G, alpha), mix(col.2, BG_B, alpha))
}

/// The colour of unhighlighted text: the foreground faded, every channel
/// towards the background red channel.
pub open spec fn plain_color(alpha: u8) -> (u8, u8, u8) {
    (mix(FG_R, BG_R, alpha), mix(FG_G, BG_R, alpha), mix(FG_B, BG_R, alpha))
}

pub open spec fn muted() -> (u8, u8, u8) {
    (MUTED_R, MUTED_G, MUTED_B)
}

/// The regions drawn one after another, each without its line ending and in its
/// colour faded by `alpha`; each stops at the text limit on its own.
pub open spec fn draw_regions(
    p: Seq<u8>,
    t: Seq<(char, Glyph)>,
    regs: Seq<ColoredText>,
    x: int,
    y: int,
    alpha: u8,
) -> (Seq<u8>, int)
    decreases regs.len(),
{
    if regs.len() == 0 {
        (p, x)
    } else {
        let prev = draw_regions(p, t, regs.drop_last(), x, y, alpha);
        let r = regs.last();
        draw_text(prev.0, t, strip_line_ending(r.text@), prev.1, y, faded((r.r, r.g, r.b), alpha))
    }
}

/// Drawing a single region draws its text, without line ending, in the region's
/// colour faded by `alpha` towards the background.
pub proof fn lemma_single_region(
    p: Seq<u8>,
    t: Seq<(char, Glyph)>,
    r: ColoredText,
    x: int,
    y: int,
    alpha: u8,
)
    ensures
        draw_regions(p, t, seq![r], x, y, alpha) == draw_text(
            p,
            t,
            strip_line_ending(r.text@),
            x,
            y,
            faded((r.r, r.g, r.b), alpha),
        ),
{
    let regs = seq![r];
    assert(regs.drop_last() =~= Seq::<ColoredText>::empty());
    assert(draw_regions(p, t, regs.drop_last(), x, y, alpha) == (p, x));
    assert(regs.last() == r);
}

/// A leading tab moves the pen by four space widths and draws nothing.
pub proof fn lemma_leading_tab(
    p: Seq<u8>,
    t: Seq<(char, Glyph)>,
    s: Seq<char>,
    x: int,
    y: int,
    col: (u8, u8, u8),
)
    ensures
        draw_text(p, t, seq!['\t'] + s, x, y, col) == draw_text(
            p,
            t,
            s,
            x + 4 * advance_of(t, ' '),
            y,
            col,
        ),
{
    let u = seq!['\t'] + s;
    assert(u[0] == '\t');
    assert(u.drop_first() =~= s);
    assert(TAB_WIDTH == 4);
}

/// The opacity of line `idx` of `visible`: when the paste goes on beyond the
/// preview, its last three lines fade out (200, 140, 80); all others are opaque.
pub open spec fn line_alpha(idx: int, visible: int, has_more: bool) -> u8 {
    if has_more && idx >= visible - 3 {
        let fade = visible - idx;
        if fade == 3 {
            200
        } else if fade == 2 {
            140
        } else {
            80
        }
    } else {
        255
    }
}

pub open spec fn line_y(idx: int) -> int {
    PADDING_Y + idx * LINE_HEIGHT
}

pub open spec fn number_right() -> int {
    (PADDING_X + LINE_NUMBER_WIDTH - 8) as int
}

pub open spec fn content_x() -> int {
    (PADDING_X + LINE_NUMBER_WIDTH + 8) as int
}

/// Line `idx` drawn on `p`: its number, right-aligned in muted colour, then its
/// regions, or its text without line ending in the plain colour.
pub open spec fn draw_line(
    p: Seq<u8>,
    t: Seq<(char, Glyph)>,
    l: PreviewLine,
    idx: int,
    visible: int,
    has_more: bool,
) -> Seq<u8> {
    let y = line_y(idx);
    let num = decimal((idx + 1) as nat);
    let numbered = draw_text(p, t, num, right_aligned_start(t, num, number_right()), y, muted()).0;
    let a = line_alpha(idx, visible, has_more);
    match l.regions {
        Some(regs) => draw_regions(numbered, t, regs@, content_x(), y, a).0,
        None => draw_text(numbered, t, strip_line_ending(l.line@), content_x(), y, plain_color(a)).0,
    }
}

pub open spec fn draw_lines(
    p: Seq<u8>,
    t: Seq<(char, Glyph)>,
    ls: Seq<PreviewLine>,
    k: nat,
    has_more: bool,
) -> Seq<u8>
    decreases k,
{
    if k == 0 {
        p
    } else {
        draw_line(draw_lines(p, t, ls, (k - 1) as nat, has_more), t, ls[k - 1], k - 1, ls.len() as int, has_more)
    }
}

pub open spec fn background_byte(i: int) -> u8 {
    if i % 4 == 0 {
        BG_R
    } else if i % 4 == 1 {
        BG_G
    } else if i % 4 == 2 {
        BG_B
    } else {
        255
    }
}

/// The empty canvas: every pixel the background colour, fully opaque.
pub open spec fn background() -> Seq<u8> {
    Seq::new(canvas_len() as nat, |i: int| background_byte(i))
}

/// The preview of lines `ls`: each line drawn in turn on the empty canvas, then
/// `...` in muted colour under them when the paste goes on.
pub open spec fn preview_pixels(t: Seq<(char, Glyph)>, ls: Seq<PreviewLine>, has_more: bool) -> Seq<u8> {
    let p = draw_lines(background(), t, ls, ls.len(), has_more);
    if has_more {
        draw_text(p, t, "..."@, content_x(), line_y(ls.len() as int), muted()).0
    } else {
        p
    }
}

fn draw_regions_exec(
    pixels: &mut Vec<u8>,
    table: &GlyphTable,
    regs: &Vec<ColoredText>,
    y: usize,
    alpha: u8,
)
    requires
        y <= HEIGHT,
    ensures
        final(pixels)@ == draw_regions(
            old(pixels)@,
            table.entries(),
            regs@,
            content_x(),
            y as int,
            alpha,
        ).0,
{
    let ghost t = table.entries();
    let mut cursor: u64 = (PADDING_X + LINE_NUMBER_WIDTH + 8) as u64;
    let ghost mut cur: int = content_x();
    let mut k: usize = 0;
    while k < regs.len()
        invariant
            t == table.entries(),
            k <= regs@.len(),
            y <= HEIGHT,
            (pixels@, cur) == draw_regions(old(pixels)@, t, regs@.take(k as int), content_x(), y as int, alpha),
            cursor == cap(cur),
            cur >= 0,
        decreases regs.len() - k,
    {
        let r = &regs[k];
        let text = crate::listing::trim_line_ending(r.text.as_str());
        let chars = crate::text::chars_of(text.as_str());
        let col = (
            apply_alpha_channel(r.r, BG_R, alpha),
            apply_alpha_channel(r.g, BG_G, alpha),
            apply_alpha_channel(r.b, BG_B, alpha),
        );
        proof {
            assert(regs@.take(k + 1).drop_last() =~= regs@.take(k as int));
            assert(regs@.take(k + 1).last() == regs@[k as int]);
        }
        let (c, Ghost(gc)) = draw_chars(pixels, table, &chars, cursor, Ghost(cur), y, col);
        cursor = c;
        proof {
            cur = gc;
        }
        k = k + 1;
    }
    proof {
        assert(regs@.take(regs@.len() as int) =~= regs@);
    }
}

fn draw_line_exec(
    pixels: &mut Vec<u8>,
    table: &GlyphTable,
    line: &PreviewLine,
    idx: usize,
    visible: usize,
    has_more: bool,
)
    requires
        idx < visible <= MAX_LINES,
    ensures
        final(pixels)@ == draw_line(
            old(pixels)@,
            table.entries(),
            *line,
            idx as int,
            visible as int,
            has_more,
        ),
{
    let ghost t = table.entries();
    let y = PADDING_Y + idx * LINE_HEIGHT;
    let num = crate::listing::decimal_string(idx + 1);
    let digits = crate::text::chars_of(num.as_str());
    let w = text_width_of(table, &digits);
    let right = (PADDING_X + LINE_NUMBER_WIDTH - 8) as u64;
    let start: u64 = if w >= right {
        0
    } else {
        right - w
    };
    let ghost gstart = right_aligned_start(t, digits@, number_right());
    draw_chars(pixels, table, &digits, start, Ghost(gstart), y, (MUTED_R, MUTED_G, MUTED_B));
    let alpha: u8 = if has_more && idx + 3 >= visible {
        let fade_pos = visible - idx;
        if fade_pos == 3 {
            200
        } else if fade_pos == 2 {
            140
        } else {
            80
        }
    } else {
        255
    };
    assert(alpha == line_alpha(idx as int, visible as int, has_more));
    match &line.regions {
        Some(regs) => {
            draw_regions_exec(pixels, table, regs, y, alpha);
        },
        None => {
            let text = crate::listing::trim_line_ending(line.line.as_str());
            let chars = crate::text::chars_of(text.as_str());
            let col = (apply_alpha(FG_R, alpha), apply_alpha(FG_G, alpha), apply_alpha(FG_B, alpha));
            let x = (PADDING_X + LINE_NUMBER_WIDTH + 8) as u64;
            draw_chars(pixels, table, &chars, x, Ghost(content_x()), y, col);
        },
    }
}

/// The empty canvas.
pub fn new_canvas() -> (res: Vec<u8>)
    ensures
        res@ == background(),
{
    let n = WIDTH * HEIGHT * 4;
    let mut pixels: Vec<u8> = Vec::new();
    let mut i: usize = 0;
    while i < n
        invariant
            n == canvas_len(),
            i <= n,
            pixels@ =~= Seq::new(i as nat, |j: int| background_byte(j)),
        decreases n - i,
    {
        let b = if i % 4 == 0 {
            BG_R
        } else if i % 4 == 1 {
            BG_G
        } else if i % 4 == 2 {
            BG_B
        } else {
            255
        };
        pixels.push(b);
        i = i + 1;
    }
    pixels
}

/// The preview canvas of `lines` (at most 25), with `...` under them when the
/// paste goes on beyond them.
pub fn draw_preview(table: &GlyphTable, lines: &Vec<PreviewLine>, has_more: bool) -> (res: Vec<u8>)
    requires
        lines@.len() <= MAX_LINES,
    ensures
        res@ == preview_pixels(table.entries(), lines@, has_more),
        res@.len() == canvas_len(),
{
    let ghost t = table.entries();
    let mut pixels = new_canvas();
    let visible = lines.len();
    let mut k: usize = 0;
    while k < visible
        invariant
            t == table.entries(),
            visible == lines@.len() <= MAX_LINES,
            k <= visible,
            pixels@ == draw_lines(background(), t, lines@, k as nat, has_more),
        decreases visible - k,
    {
        draw_line_exec(&mut pixels, table, &lines[k], k, visible, has_more);
        k = k + 1;
    }
    if has_more {
        let dots = crate::text::chars_of("...");
        let y = PADDING_Y + visible * LINE_HEIGHT;
        let x = (PADDING_X + LINE_NUMBER_WIDTH + 8) as u64;
        draw_chars(&mut pixels, table, &dots, x, Ghost(content_x()), y, (MUTED_R, MUTED_G, MUTED_B));
    }
    proof {
        lemma_preview_len(t, lines@, has_more);
    }
    pixels
}

proof fn lemma_draw_lines_len(p: Seq<u8>, t: Seq<(char, Glyph)>, ls: Seq<PreviewLine>, k: nat, has_more: bool)
    ensures
        draw_lines(p, t, ls, k, has_more).len() == p.len(),
    decreases k,
{
    if k > 0 {
        lemma_draw_lines_len(p, t, ls, (k - 1) as nat, has_more);
        let q = draw_lines(p, t, ls, (k - 1) as nat, has_more);
        let idx = k - 1;
        let y = line_y(idx);
        let num = decimal((idx + 1) as nat);
        let x0 = right_aligned_start(t, num, number_right());
        lemma_draw_text_len(q, t, num, x0, y, muted());
        let numbered = draw_text(q, t, num, x0, y, muted()).0;
        let a = line_alpha(idx, ls.len() as int, has_more);
        match ls[k - 1].regions {
            Some(regs) => lemma_draw_regions_len(numbered, t, regs@, content_x(), y, a),
            None => lemma_draw_text_len(
                numbered,
                t,
                strip_line_ending(ls[k - 1].line@),
                content_x(),
                y,
                plain_color(a),
            ),
        }
    }
}

proof fn lemma_draw_regions_len(
    p: Seq<u8>,
    t: Seq<(char, Glyph)>,
    regs: Seq<ColoredText>,
    x: int,
    y: int,
    alpha: u8,
)
    ensures
        draw_regions(p, t, regs, x, y, alpha).0.len() == p.len(),
    decreases regs.len(),
{
    if regs.len() > 0 {
        lemma_draw_regions_len(p, t, regs.drop_last(), x, y, alpha);
        let prev = draw_regions(p, t, regs.drop_last(), x, y, alpha);
        let r = regs.last();
        lemma_draw_text_len(prev.0, t, strip_line_ending(r.text@), prev.1, y, faded((r.r, r.g, r.b), alpha));
    }
}

proof fn lemma_preview_len(t: Seq<(char, Glyph)>, ls: Seq<PreviewLine>, has_more: bool)
    ensures
        preview_pixels(t, ls, has_more).len() == canvas_len(),
{
    lemma_draw_lines_len(background(), t, ls, ls.len(), has_more);
    let p = draw_lines(background(), t, ls, ls.len(), has_more);
    lemma_draw_text_len(p, t, "..."@, content_x(), line_y(ls.len() as int), muted());
}

/// The PNG file of an 8-bit RGBA image of `width` by `height` pixels, row by row.
pub uninterp spec fn png_rgba(width: nat, height: nat, pixels: Seq<u8>) -> Seq<u8>;

/// The PNG encoding of the canvas.
/// Calls `png::Encoder` (8-bit RGBA, `Compression::Fast`), `write_header` and
/// `write_image_data`, which succeed on a canvas of exactly `width * height * 4`
/// bytes with both sides non-zero; the file is named, not stated.
#[verifier::external_body]
fn encode_png(pixels: &Vec<u8>, width: u32, height: u32) -> (res: Vec<u8>)
    requires
        pixels@.len() == width * height * 4,
        width > 0,
        height > 0,
    ensures
        res@ == png_rgba(width as nat, height as nat, pixels@),
{
    let mut buf = Vec::with_capacity(pixels.len() / 8);
    {
        let mut encoder = png::Encoder::new(&mut buf, width, height);
        encoder.set_color(png::ColorType::Rgba);
        encoder.set_depth(png::BitDepth::Eight);
        encoder.set_compression(png::Compression::Fast);
        let mut writer = encoder.write_header().expect("PNG header write failed");
        writer.write_image_data(pixels).expect("PNG data write failed");
    }
    buf
}

/// The text of coloured regions, one after the other.
pub open spec fn colored_text(regs: Seq<ColoredText>) -> Seq<char>
    decreases regs.len(),
{
    if regs.len() == 0 {
        Seq::empty()
    } else {
        colored_text(regs.drop_last()) + regs.last().text@
    }
}

/// Whether `rs` are the styled regions `r`, each with its style's foreground colour.
pub open spec fn colored_from(rs: Seq<ColoredText>, r: Seq<(Style, Seq<char>)>) -> bool {
    &&& rs.len() == r.len()
    &&& forall|j: int|
        0 <= j < rs.len() ==> (#[trigger] rs[j]).text@ == r[j].1 && (rs[j].r, rs[j].g, rs[j].b)
            == style_rgb(r[j].0)
}

/// The regions of a highlighted line, each with its foreground colour.
fn colored_regions(regions: &Vec<(Style, &str)>) -> (res: Vec<ColoredText>)
    ensures
        res@.len() == regions@.len(),
        forall|i: int| 0 <= i < regions@.len() ==> (#[trigger] res@[i]).text@ == regions@[i].1@,
        colored_text(res@) == region_text(regions@),
        colored_from(res@, region_views(regions@)),
{
    let mut out: Vec<ColoredText> = Vec::new();
    let mut i: usize = 0;
    proof {
        assert(regions@.take(0) =~= Seq::<(Style, &str)>::empty());
    }
    while i < regions.len()
        invariant
            i <= regions@.len(),
            out@.len() == i,
            forall|j: int| 0 <= j < i ==> (#[trigger] out@[j]).text@ == regions@[j].1@,
            forall|j: int|
                0 <= j < i ==> ((#[trigger] out@[j]).r, out@[j].g, out@[j].b) == style_rgb(
                    regions@[j].0,
                ),
            colored_text(out@) == region_text(regions@.take(i as int)),
        decreases regions.len() - i,
    {
        let (r, g, b) = style_foreground(&regions[i].0);
        let ghost before = out@;
        out.push(ColoredText { r, g, b, text: String::from_str(regions[i].1) });
        proof {
            assert(out@.drop_last() =~= before);
            assert(regions@.take(i + 1).drop_last() =~= regions@.take(i as int));
            assert(regions@.take(i + 1).last() == regions@[i as int]);
        }
        i = i + 1;
    }
    proof {
        assert(regions@.take(regions@.len() as int) =~= regions@);
        let rv = region_views(regions@);
        assert forall|j: int| 0 <= j < out@.len() implies (#[trigger] out@[j]).text@ == rv[j].1
            && (out@[j].r, out@[j].g, out@[j].b) == style_rgb(rv[j].0) by {
            assert(rv[j] == (regions@[j].0, regions@[j].1@));
        }
    }
    out
}

pub open spec fn preview_line_count(n: nat) -> nat {
    if n > MAX_LINES {
        MAX_LINES as nat
    } else {
        n
    }
}

/// Whether `ls` are the first lines of `content`, as many as the preview shows.
pub open spec fn lines_of(ls: Seq<PreviewLine>, content: Seq<char>) -> bool {
    let lines = lines_with_endings(content);
    &&& ls.len() == preview_line_count(lines.len())
    &&& forall|i: int| 0 <= i < ls.len() ==> (#[trigger] ls[i]).line@ == lines[i]
}

impl Highlighter {
    /// Whether `regions` is what the preview draws for line `i` of `lines`, highlighted
    /// in turn for `syntax`: syntect's regions with their colours, or none where
    /// syntect fails on the line.
    pub open spec fn preview_regions(
        &self,
        syntax: SyntaxReference,
        lines: Seq<Seq<char>>,
        i: int,
        regions: Option<Vec<ColoredText>>,
    ) -> bool {
        match hl_regions(
            syntax,
            self.colour_theme(),
            fed_with(self.syntaxes(), lines.take(i)),
            self.syntaxes(),
            lines[i],
        ) {
            Some(r) => regions matches Some(rs) && colored_from(rs@, r),
            None => regions is None,
        }
    }

    /// Whether `ls` are the lines that the preview of `content` shown with
    /// `extension` draws: its first lines, each with syntect's regions and their
    /// colours when the extension names a known syntax, and no regions otherwise.
    pub open spec fn preview_lines(&self, ls: Seq<PreviewLine>, content: Seq<char>, extension: Option<
        Seq<char>,
    >) -> bool {
        &&& lines_of(ls, content)
        &&& !self.knows(extension) ==> forall|i: int|
            0 <= i < ls.len() ==> (#[trigger] ls[i]).regions is None
        &&& self.knows(extension) ==> forall|i: int|
            0 <= i < ls.len() ==> self.preview_regions(
                self.chosen_syntax(extension->0),
                lines_with_endings(content),
                i,
                #[trigger] ls[i].regions,
            )
        &&& forall|i: int|
            0 <= i < ls.len() ==> ((#[trigger] ls[i]).regions matches Some(rs) ==> colored_text(rs@)
                == ls[i].line@)
    }

    /// The preview image of `content` shown with `extension`: its first 25 lines,
    /// highlighted when the extension names a known syntax, and `...` when it has more.
    pub fn generate_preview(&self, table: &GlyphTable, content: &str, extension: Option<&str>) -> (res:
        Vec<u8>)
        ensures
            exists|ls: Seq<PreviewLine>|
                {
                    &&& #[trigger] self.preview_lines(ls, content@, opt_str_view(extension))
                    &&& res@ == png_rgba(
                        WIDTH as nat,
                        HEIGHT as nat,
                        preview_pixels(
                            table.entries(),
                            ls,
                            lines_with_endings(content@).len() > MAX_LINES,
                        ),
                    )
                },
    {
        let v = chars_of(content);
        let ranges = line_ranges(&v);
        let has_more = ranges.len() > MAX_LINES;
        let visible = if has_more {
            MAX_LINES
        } else {
            ranges.len()
        };
        let syntax = self.resolve_syntax(extension);
        let lines = collect_preview_lines(&v, &ranges, visible, syntax, self);
        let pixels = draw_preview(table, &lines, has_more);
        let res = encode_png(&pixels, WIDTH as u32, HEIGHT as u32);
        proof {
            assert(lines_of(lines@, content@));
            assert(self.preview_lines(lines@, content@, opt_str_view(extension)));
        }
        res
    }

    /// Two contents whose first lines (up to 25) are the same, and which both go on
    /// beyond 25 lines or both stop, have the same preview (as drawn on the canvas).
    pub proof fn lemma_preview_first_lines(
        &self,
        t: Seq<(char, Glyph)>,
        c1: Seq<char>,
        c2: Seq<char>,
        extension: Option<Seq<char>>,
        ls1: Seq<PreviewLine>,
        ls2: Seq<PreviewLine>,
    )
        requires
            self.preview_lines(ls1, c1, extension),
            self.preview_lines(ls2, c2, extension),
            preview_line_count(lines_with_endings(c1).len()) == preview_line_count(
                lines_with_endings(c2).len(),
            ),
            lines_with_endings(c1).take(preview_line_count(lines_with_endings(c1).len()) as int)
                == lines_with_endings(c2).take(
                preview_line_count(lines_with_endings(c1).len()) as int,
            ),
            (lines_with_endings(c1).len() > MAX_LINES) == (lines_with_endings(c2).len() > MAX_LINES),
        ensures
            preview_pixels(t, ls1, lines_with_endings(c1).len() > MAX_LINES) == preview_pixels(
                t,
                ls2,
                lines_with_endings(c2).len() > MAX_LINES,
            ),
    {
        let l1 = lines_with_endings(c1);
        let l2 = lines_with_endings(c2);
        let m = preview_line_count(l1.len()) as int;
        assert(ls1.len() == ls2.len());
        assert forall|i: int| 0 <= i < ls1.len() implies same_drawing(
            #[trigger] ls1[i],
            ls2[i],
        ) by {
            assert(l1[i] == l1.take(m)[i]);
            assert(l2[i] == l2.take(m)[i]);
            assert(l1.take(i) =~= l1.take(m).take(i));
            assert(l2.take(i) =~= l2.take(m).take(i));
            if self.knows(extension) {
                let r = hl_regions(
                    self.chosen_syntax(extension->0),
                    self.colour_theme(),
                    fed_with(self.syntaxes(), l1.take(i)),
                    self.syntaxes(),
                    l1[i],
                );
                assert(self.preview_regions(self.chosen_syntax(extension->0), l1, i, ls1[i].regions));
                assert(self.preview_regions(self.chosen_syntax(extension->0), l2, i, ls2[i].regions));
                if let Some(rr) = r {
                    let x = ls1[i].regions->0@;
                    let y = ls2[i].regions->0@;
                    assert forall|j: int| 0 <= j < x.len() implies same_region(
                        #[trigger] x[j],
                        y[j],
                    ) by {}
                }
            }
        }
        lemma_same_preview(t, ls1, ls2, l1.len() > MAX_LINES);
    }
}

/// A preview of a paste that does not go on beyond its drawn lines is just those
/// lines on the empty canvas: no `...` under them.
pub proof fn lemma_untruncated_preview(t: Seq<(char, Glyph)>, ls: Seq<PreviewLine>)
    ensures
        preview_pixels(t, ls, false) == draw_lines(background(), t, ls, ls.len(), false),
{
}

/// Two lines that draw alike: the same text, and regions with the same texts and
/// colours, or none on both.
pub open spec fn same_drawing(a: PreviewLine, b: PreviewLine) -> bool {
    &&& a.line@ == b.line@
    &&& match (a.regions, b.regions) {
        (None, None) => true,
        (Some(x), Some(y)) => x@.len() == y@.len() && forall|j: int|
            0 <= j < x@.len() ==> same_region(#[trigger] x@[j], y@[j]),
        _ => false,
    }
}

pub open spec fn same_region(a: ColoredText, b: ColoredText) -> bool {
    a.text@ == b.text@ && a.r == b.r && a.g == b.g && a.b == b.b
}

proof fn lemma_same_regions(
    p: Seq<u8>,
    t: Seq<(char, Glyph)>,
    x: Seq<ColoredText>,
    y: Seq<ColoredText>,
    cx: int,
    cy: int,
    alpha: u8,
)
    requires
        x.len() == y.len(),
        forall|j: int| 0 <= j < x.len() ==> same_region(#[trigger] x[j], y[j]),
    ensures
        draw_regions(p, t, x, cx, cy, alpha) == draw_regions(p, t, y, cx, cy, alpha),
    decreases x.len(),
{
    if x.len() > 0 {
        assert forall|j: int| 0 <= j < x.drop_last().len() implies same_region(
            #[trigger] x.drop_last()[j],
            y.drop_last()[j],
        ) by {
            assert(x.drop_last()[j] == x[j]);
            assert(y.drop_last()[j] == y[j]);
        }
        lemma_same_regions(p, t, x.drop_last(), y.drop_last(), cx, cy, alpha);
        assert(same_region(x[x.len() - 1], y[y.len() - 1]));
    }
}

proof fn lemma_same_lines(
    p: Seq<u8>,
    t: Seq<(char, Glyph)>,
    ls1: Seq<PreviewLine>,
    ls2: Seq<PreviewLine>,
    k: nat,
    has_more: bool,
)
    requires
        ls1.len() == ls2.len(),
        k <= ls1.len(),
        forall|i: int| 0 <= i < ls1.len() ==> same_drawing(#[trigger] ls1[i], ls2[i]),
    ensures
        draw_lines(p, t, ls1, k, has_more) == draw_lines(p, t, ls2, k, has_more),
    decreases k,
{
    if k > 0 {
        lemma_same_lines(p, t, ls1, ls2, (k - 1) as nat, has_more);
        let q = draw_lines(p, t, ls1, (k - 1) as nat, has_more);
        let a = ls1[k - 1];
        let b = ls2[k - 1];
        assert(same_drawing(a, b));
        let y = line_y(k - 1);
        let num = decimal(k as nat);
        let numbered = draw_text(q, t, num, right_aligned_start(t, num, number_right()), y, muted()).0;
        let al = line_alpha(k - 1, ls1.len() as int, has_more);
        if let Some(x) = a.regions {
            let z = b.regions->0;
            lemma_same_regions(numbered, t, x@, z@, content_x(), y, al);
        }
    }
}

/// Lines that draw alike give the same preview.
pub proof fn lemma_same_preview(
    t: Seq<(char, Glyph)>,
    ls1: Seq<PreviewLine>,
    ls2: Seq<PreviewLine>,
    has_more: bool,
)
    requires
        ls1.len() == ls2.len(),
        forall|i: int| 0 <= i < ls1.len() ==> same_drawing(#[trigger] ls1[i], ls2[i]),
    ensures
        preview_pixels(t, ls1, has_more) == preview_pixels(t, ls2, has_more),
{
    lemma_same_lines(background(), t, ls1, ls2, ls1.len(), has_more);
}

/// The first `visible` lines of `v`, highlighted line after line by one highlighter
/// for `syntax` when there is one.
fn collect_preview_lines(
    v: &Vec<char>,
    ranges: &Vec<(usize, usize)>,
    visible: usize,
    syntax: Option<&SyntaxReference>,
    h: &Highlighter,
) -> (res: Vec<PreviewLine>)
    requires
        visible <= ranges@.len(),
        ranges@.len() == lines_with_endings(v@).len(),
        forall|i: int|
            0 <= i < ranges@.len() ==> {
                &&& (#[trigger] ranges@[i]).0 <= ranges@[i].1 <= v@.len()
                &&& v@.subrange(ranges@[i].0 as int, ranges@[i].1 as int) == lines_with_endings(
                    v@,
                )[i]
            },
    ensures
        res@.len() == visible,
        forall|i: int| 0 <= i < visible ==> (#[trigger] res@[i]).line@ == lines_with_endings(v@)[i],
        syntax is None ==> forall|i: int| 0 <= i < visible ==> (#[trigger] res@[i]).regions is None,
        syntax matches Some(s) ==> forall|i: int|
            0 <= i < visible ==> h.preview_regions(
                *s,
                lines_with_endings(v@),
                i,
                #[trigger] res@[i].regions,
            ),
        forall|i: int|
            0 <= i < visible ==> ((#[trigger] res@[i]).regions matches Some(rs) ==> colored_text(rs@)
                == lines_with_endings(v@)[i]),
{
    let mut out: Vec<PreviewLine> = Vec::new();
    let mut hl = match syntax {
        Some(s) => Some(new_line_highlighter(s, h.theme())),
        None => None,
    };
    let ghost lines = lines_with_endings(v@);
    let mut k: usize = 0;
    proof {
        assert(fed_with(h.syntaxes(), lines.take(0)) =~= Seq::<(SyntaxSet, Seq<char>)>::empty());
    }
    while k < visible
        invariant
            visible <= ranges@.len(),
            lines == lines_with_endings(v@),
            ranges@.len() == lines.len(),
            forall|i: int|
                0 <= i < ranges@.len() ==> {
                    &&& (#[trigger] ranges@[i]).0 <= ranges@[i].1 <= v@.len()
                    &&& v@.subrange(ranges@[i].0 as int, ranges@[i].1 as int) == lines[i]
                },
            k <= visible,
            out@.len() == k,
            forall|i: int| 0 <= i < k ==> (#[trigger] out@[i]).line@ == lines[i],
            syntax is None <==> hl is None,
            syntax is None ==> forall|i: int| 0 <= i < k ==> (#[trigger] out@[i]).regions is None,
            syntax matches Some(s) ==> (hl matches Some(l) && hl_state(l) == (
                *s,
                h.colour_theme(),
                fed_with(h.syntaxes(), lines.take(k as int)),
            )),
            syntax matches Some(s) ==> forall|i: int|
                0 <= i < k ==> h.preview_regions(*s, lines, i, #[trigger] out@[i].regions),
            forall|i: int|
                0 <= i < k ==> ((#[trigger] out@[i]).regions matches Some(rs) ==> colored_text(rs@)
                    == lines[i]),
        decreases visible - k,
    {
        let (lo, hi) = ranges[k];
        let line = string_of(v, lo, hi);
        proof {
            assert(ranges@[k as int].0 <= ranges@[k as int].1);
        }
        let regions = match hl {
            Some(ref mut l) => match highlight_regions(l, line.as_str(), h.syntax_set()) {
                Some(regs) => Some(colored_regions(&regs)),
                None => None,
            },
            None => None,
        };
        proof {
            assert(lines.take(k + 1) =~= lines.take(k as int).push(lines[k as int]));
            assert(fed_with(h.syntaxes(), lines.take(k + 1)) =~= fed_with(
                h.syntaxes(),
                lines.take(k as int),
            ).push((h.syntaxes(), lines[k as int])));
        }
        out.push(PreviewLine { line, regions });
        k = k + 1;
    }
    out
}

} // verus!
