use rustbin::highlight::Highlighter;
use rustbin::preview::{
    apply_alpha, apply_alpha_channel, draw_preview, new_canvas, ColoredText, Glyph, GlyphTable,
    PreviewLine, BG_R, HEIGHT, WIDTH,
};
use syntect::highlighting::ThemeSet;
use syntect::parsing::SyntaxSet;

fn block(advance: usize) -> Glyph {
    Glyph { width: 2, height: 2, xmin: 0, ymin: 0, advance, coverage: vec![255, 128, 0, 255] }
}

fn table() -> GlyphTable {
    let mut t = GlyphTable::new();
    for c in "0123456789 .abc".chars() {
        assert!(t.insert(c, block(8)));
    }
    t
}

fn pixel(p: &[u8], x: usize, y: usize) -> [u8; 4] {
    let i = (y * WIDTH + x) * 4;
    [p[i], p[i + 1], p[i + 2], p[i + 3]]
}

#[test]
fn alpha_blending() {
    assert_eq!(apply_alpha(0xf0, 255), 0xf0);
    assert_eq!(apply_alpha(0xf0, 0), BG_R);
    assert_eq!(apply_alpha(0xf0, 200), ((0xf0u32 * 200 + 0x0a * 55) / 255) as u8);
    assert_eq!(apply_alpha_channel(255, 0, 128), 128);
    assert_eq!(apply_alpha_channel(10, 20, 255), 10);
    let m = apply_alpha_channel(200, 40, 77);
    assert!(40 <= m && m <= 200);
}

#[test]
fn glyph_table() {
    let mut t = GlyphTable::new();
    assert!(t.insert('a', block(7)));
    assert!(!t.insert('b', Glyph { width: 3, height: 3, xmin: 0, ymin: 0, advance: 1, coverage: vec![1] }));
    assert!(t.insert('a', block(9)));
    assert_eq!(t.get('a').map(|g| g.advance), Some(7));
    assert!(t.get('b').is_none());
}

#[test]
fn empty_canvas() {
    let p = new_canvas();
    assert_eq!(p.len(), WIDTH * HEIGHT * 4);
    assert_eq!(pixel(&p, 0, 0), [0x0a, 0x0c, 0x10, 255]);
    assert_eq!(pixel(&p, WIDTH - 1, HEIGHT - 1), [0x0a, 0x0c, 0x10, 255]);
}

#[test]
fn draws_line_number_and_text() {
    let t = table();
    let lines = vec![PreviewLine { line: "a\n".to_string(), regions: None }];
    let p = draw_preview(&t, &lines, false);
    // "1" is right-aligned to x = 52: starts at 44; baseline row y = 14 + 18 - 2 = 30.
    assert_eq!(pixel(&p, 44, 30), [0x9e, 0xa7, 0xb3, 255]);
    assert_eq!(pixel(&p, 45, 31), [0x9e, 0xa7, 0xb3, 255]);
    // zero coverage leaves the background
    assert_eq!(pixel(&p, 44, 31), [0x0a, 0x0c, 0x10, 255]);
    // the text starts at x = 68 in the foreground colour
    assert_eq!(pixel(&p, 68, 30), [0xf0, 0xf3, 0xf6, 255]);
    let half = pixel(&p, 69, 30);
    assert_eq!(half[0], ((0xf0u32 * 128 + 0x0a * 127) / 255) as u8);
}

#[test]
fn draws_regions_in_their_colours() {
    let t = table();
    let regions = vec![
        ColoredText { r: 255, g: 0, b: 0, text: "a".to_string() },
        ColoredText { r: 0, g: 255, b: 0, text: "b\n".to_string() },
    ];
    let lines = vec![PreviewLine { line: "ab\n".to_string(), regions: Some(regions) }];
    let p = draw_preview(&t, &lines, false);
    assert_eq!(pixel(&p, 68, 30), [255, 0, 0, 255]);
    assert_eq!(pixel(&p, 76, 30), [0, 255, 0, 255]);
}

#[test]
fn truncated_preview_fades_and_adds_dots() {
    let t = table();
    let lines: Vec<PreviewLine> =
        (0..25).map(|_| PreviewLine { line: "a\n".to_string(), regions: None }).collect();
    let p = draw_preview(&t, &lines, true);
    // line 25 (index 24) has alpha 80
    let y = 14 + 24 * 22 + 16;
    assert_eq!(pixel(&p, 68, y)[0], ((0xf0u32 * 80 + 0x0a * 175) / 255) as u8);
    // line 22 (index 21) is opaque
    assert_eq!(pixel(&p, 68, 14 + 21 * 22 + 16)[0], 0xf0);
    // the dots line at y = 564
    assert_eq!(pixel(&p, 68, 564 + 16), [0x9e, 0xa7, 0xb3, 255]);
}

#[test]
fn generates_png_preview() {
    let syntax_set = SyntaxSet::load_defaults_newlines();
    let mut themes = ThemeSet::load_defaults();
    let theme = themes.themes.remove("base16-ocean.dark").expect("default theme");
    let h = Highlighter::new(syntax_set, theme);
    let png = h.generate_preview(&table(), "fn main() {}\n", Some("rs"));
    assert_eq!(&png[..8], &[0x89, b'P', b'N', b'G', 0x0d, 0x0a, 0x1a, 0x0a]);
    let plain = h.generate_preview(&table(), "", None);
    assert_eq!(&plain[..8], &[0x89, b'P', b'N', b'G', 0x0d, 0x0a, 0x1a, 0x0a]);
}

#[test]
fn preview_depends_on_the_first_lines_only() {
    let h = {
        let syntax_set = SyntaxSet::load_defaults_newlines();
        let mut themes = ThemeSet::load_defaults();
        let theme = themes.themes.remove("base16-ocean.dark").expect("default theme");
        Highlighter::new(syntax_set, theme)
    };
    let first: String = (0..25).map(|i| format!("let x{i} = {i};\n")).collect();
    let a = format!("{first}fn a() {{}}\nmore\n");
    let b = format!("{first}// other tail\n");
    assert_eq!(
        h.generate_preview(&table(), &a, Some("rs")),
        h.generate_preview(&table(), &b, Some("rs"))
    );
}
