use rustbin::highlight::{
    classifier_accepts, filename_extension, is_markdown, normalize_token, render_plain_html,
    Highlighter,
};
use rustbin::listing::{push_line_html, render_line_html, trim_line_ending, estimated_rendered_capacity};
use rustbin::text::push_escaped_html;
use syntect::highlighting::ThemeSet;
use syntect::parsing::SyntaxSet;

fn highlighter() -> Highlighter {
    let syntax_set = SyntaxSet::load_defaults_newlines();
    let mut themes = ThemeSet::load_defaults();
    let theme = themes.themes.remove("base16-ocean.dark").expect("default theme");
    Highlighter::new(syntax_set, theme)
}

fn line(n: usize, body: &str) -> String {
    format!(
        "<code id=\"L{n}\" class=\"code-line\" data-line-number=\"{n}\"><a class=\"line-link\" href=\"#L{n}\" data-line-number=\"{n}\" aria-label=\"Link to line {n}\">{n}</a><span class=\"line-content\">{body}</span></code>"
    )
}

#[test]
fn extracts_lowercased_extension() {
    assert_eq!(
        filename_extension(Some("src/main.RS")),
        Some("rs".to_string())
    );
}

#[test]
fn ignores_missing_extension() {
    assert_eq!(filename_extension(Some("Dockerfile")), None);
    assert_eq!(filename_extension(Some("file.")), None);
    assert_eq!(filename_extension(None), None);
}

#[test]
fn extension_is_trimmed_and_dots_dropped() {
    assert_eq!(filename_extension(Some("notes. MD ")), Some("md".to_string()));
    assert_eq!(filename_extension(Some("archive.tar.GZ")), Some("gz".to_string()));
    assert_eq!(filename_extension(Some("name.  ")), None);
}

#[test]
fn normalizes_tokens() {
    assert_eq!(normalize_token("  .RS "), "rs");
    assert_eq!(normalize_token("..Py"), "py");
    assert_eq!(normalize_token(" . "), "");
}

#[test]
fn markdown_extensions() {
    assert!(is_markdown(Some("md")));
    assert!(is_markdown(Some(" MarkDown ")));
    assert!(is_markdown(Some("mkdn")));
    assert!(is_markdown(Some("MDOWN")));
    assert!(is_markdown(Some("mkd")));
    assert!(!is_markdown(Some("mdx")));
    assert!(!is_markdown(Some("")));
    assert!(!is_markdown(None));
}

#[test]
fn escapes_html_characters() {
    let mut out = String::from("x");
    push_escaped_html(&mut out, "a<b>&\"c'");
    assert_eq!(out, "xa&lt;b&gt;&amp;&quot;c&#39;");
    let mut plain = String::new();
    push_escaped_html(&mut plain, "héllo");
    assert_eq!(plain, "héllo");
}

#[test]
fn escaped_text_has_no_markup() {
    let mut out = String::new();
    push_escaped_html(&mut out, "<script>alert('x')</script>");
    assert!(!out.contains('<') && !out.contains('>') && !out.contains('\''));
}

#[test]
fn renders_one_line_block() {
    assert_eq!(render_line_html(12, "x".to_string()), line(12, "x"));
    let mut out = String::from("A");
    push_line_html(&mut out, 3, "<b>");
    assert_eq!(out, format!("A{}", line(3, "<b>")));
}

#[test]
fn trims_line_endings() {
    assert_eq!(trim_line_ending("abc\r\n"), "abc");
    assert_eq!(trim_line_ending("abc\n"), "abc");
    assert_eq!(trim_line_ending("abc\r"), "abc");
    assert_eq!(trim_line_ending("abc\n\n"), "abc\n");
    assert_eq!(trim_line_ending("abc"), "abc");
}

#[test]
fn plain_listing_numbers_every_line() {
    assert_eq!(render_plain_html(""), line(1, ""));
    assert_eq!(
        render_plain_html("a<b\r\nc\n"),
        format!("{}{}", line(1, "a&lt;b"), line(2, "c"))
    );
    assert_eq!(
        render_plain_html("x\n\ny"),
        format!("{}{}{}", line(1, "x"), line(2, ""), line(3, "y"))
    );
}

#[test]
fn capacity_estimate() {
    assert_eq!(estimated_rendered_capacity(""), 200);
    assert_eq!(estimated_rendered_capacity("ab\ncd\n"), 18 + 600);
}

#[test]
fn classifier_input() {
    assert!(!classifier_accepts(""));
    assert!(classifier_accepts("fn main() {}"));
}

#[test]
fn resolves_known_extensions() {
    let h = highlighter();
    assert!(h.resolve_syntax(Some("rs")).is_some());
    assert!(h.resolve_syntax(Some(" .RS ")).is_some());
    assert!(h.resolve_syntax(Some("py")).is_some());
    assert!(h.resolve_syntax(Some("no-such-language")).is_none());
    assert!(h.resolve_syntax(Some("...")).is_none());
    assert!(h.resolve_syntax(None).is_none());
}

#[test]
fn detects_language_from_filename_first() {
    let h = highlighter();
    assert_eq!(h.detect_language(Some("main.RS"), Some("py")), Some("rs".to_string()));
    assert_eq!(h.detect_language(Some("main.nosuch"), Some("py")), None);
    assert_eq!(h.detect_language(None, Some("nosuch\n  \n py \nrs")), Some("py".to_string()));
    assert_eq!(h.detect_language(Some("Makefile2"), Some("\nnosuch")), None);
    assert_eq!(h.detect_language(None, None), None);
}

#[test]
fn unknown_extension_renders_plain_listing() {
    let h = highlighter();
    let content = "let a = 1 < 2;\n";
    assert_eq!(h.render_content(Some("nosuch"), content), render_plain_html(content));
    assert_eq!(h.render_content(None, content), render_plain_html(content));
}

#[test]
fn known_extension_renders_highlighted_lines() {
    let h = highlighter();
    let html = h.render_content(Some("rs"), "fn main() {}\nlet x = 1;\n");
    assert!(html.contains("<span style=\""));
    assert!(html.contains("id=\"L1\""));
    assert!(html.contains("id=\"L2\""));
    assert!(!html.contains("id=\"L3\""));
    assert_eq!(h.render_content(Some("rs"), ""), line(1, ""));
}

#[test]
fn code_block_without_known_language_is_escaped() {
    let h = highlighter();
    assert_eq!(
        h.render_markdown_code_block(None, "a < b\n"),
        "<pre><code>a &lt; b\n</code></pre>\n"
    );
    assert_eq!(
        h.render_markdown_code_block(Some("no\"such"), "x\n"),
        "<pre><code class=\"language-no&quot;such\">x\n</code></pre>\n"
    );
    let highlighted = h.render_markdown_code_block(Some("rust"), "fn main() {}\n");
    assert!(highlighted.starts_with("<pre><code class=\"language-rust\">"));
    assert!(highlighted.ends_with("</code></pre>\n"));
}

fn text_outside_tags(html: &str) -> String {
    let mut out = String::new();
    let mut in_tag = false;
    for c in html.chars() {
        if in_tag {
            if c == '>' {
                in_tag = false;
            }
        } else if c == '<' {
            in_tag = true;
        } else {
            out.push(c);
        }
    }
    out
}

#[test]
fn highlighted_lines_show_the_escaped_text() {
    let h = highlighter();
    let content = "let ok = a < b && c > \"d\";\nlet e = 'x';\n";
    let html = h.render_content(Some("rs"), content);
    assert!(html.contains("<span style="));
    assert_eq!(
        text_outside_tags(&html),
        "1let ok = a &lt; b &amp;&amp; c &gt; &quot;d&quot;;\n2let e = &#39;x&#39;;\n"
    );
    let block = h.render_markdown_code_block(Some("rust"), content);
    assert_eq!(
        text_outside_tags(&block),
        "let ok = a &lt; b &amp;&amp; c &gt; &quot;d&quot;;\nlet e = &#39;x&#39;;\n\n"
    );
}

#[test]
fn resolves_the_indexed_syntax() {
    let h = highlighter();
    assert_eq!(h.resolve_syntax(Some("rs")).unwrap().name, "Rust");
    assert_eq!(h.resolve_syntax(Some(" .RS ")).unwrap().name, "Rust");
    assert_eq!(h.resolve_syntax(Some("py")).unwrap().name, "Python");
}

#[test]
fn page_body_is_markdown_or_listing() {
    let h = highlighter();
    let content = "# Title\n\nsome *text*\n";
    assert_eq!(h.render_page(Some("md"), true, content), h.render_markdown(content));
    assert_eq!(h.render_page(Some("zzz"), false, content), render_plain_html(content));
    assert_eq!(h.render_page(Some("rs"), false, content), h.render_content(Some("rs"), content));
}
