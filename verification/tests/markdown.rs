use pulldown_cmark::{html, Options, Parser};
use rustbin::highlight::Highlighter;
use rustbin::markdown::{markdown_plan, MdAction, MdEvent};
use syntect::highlighting::ThemeSet;
use syntect::parsing::SyntaxSet;

fn highlighter() -> Highlighter {
    let syntax_set = SyntaxSet::load_defaults_newlines();
    let mut themes = ThemeSet::load_defaults();
    let theme = themes.themes.remove("base16-ocean.dark").expect("default theme");
    Highlighter::new(syntax_set, theme)
}

#[test]
fn plan_replaces_code_blocks() {
    let events = vec![
        MdEvent::Other,
        MdEvent::Text("intro".to_string()),
        MdEvent::CodeBlockStart(Some("  python extra".to_string())),
        MdEvent::Text("a = 1\n".to_string()),
        MdEvent::Text("b = 2\n".to_string()),
        MdEvent::CodeBlockEnd,
        MdEvent::CodeBlockStart(None),
        MdEvent::Text("x\n".to_string()),
        MdEvent::CodeBlockEnd,
        MdEvent::CodeBlockStart(Some("   ".to_string())),
        MdEvent::CodeBlockEnd,
        MdEvent::Other,
    ];
    let plan = markdown_plan(&events);
    assert_eq!(plan.len(), 6);
    assert!(matches!(plan[0], MdAction::Keep(0)));
    assert!(matches!(plan[1], MdAction::Keep(1)));
    match &plan[2] {
        MdAction::CodeBlock(lang, code) => {
            assert_eq!(lang.as_deref(), Some("python"));
            assert_eq!(code, "a = 1\nb = 2\n");
        }
        _ => panic!("expected code block"),
    }
    match &plan[3] {
        MdAction::CodeBlock(lang, code) => {
            assert_eq!(lang.as_deref(), None);
            assert_eq!(code, "x\n");
        }
        _ => panic!("expected code block"),
    }
    match &plan[4] {
        MdAction::CodeBlock(lang, code) => {
            assert_eq!(lang.as_deref(), None);
            assert_eq!(code, "");
        }
        _ => panic!("expected code block"),
    }
    assert!(matches!(plan[5], MdAction::Keep(11)));
}

#[test]
fn plan_without_code_blocks_keeps_everything() {
    let events = vec![MdEvent::Other, MdEvent::Text("t".to_string()), MdEvent::Other];
    let plan = markdown_plan(&events);
    assert_eq!(plan.len(), 3);
    for (i, a) in plan.iter().enumerate() {
        assert!(matches!(a, MdAction::Keep(j) if *j == i));
    }
}

#[test]
fn renders_markdown_with_code_blocks() {
    let h = highlighter();
    let html = h.render_markdown("# Title\n\n```nosuch lang\na < b\n```\n\n| a | b |\n|---|---|\n| 1 | 2 |\n");
    assert!(html.contains("<h1>Title</h1>"));
    assert!(html.contains("<pre><code class=\"language-nosuch\">a &lt; b\n</code></pre>\n"));
    assert!(html.contains("<table>"));
    let plain = h.render_markdown("just *text*");
    assert_eq!(plain, "<p>just <em>text</em></p>\n");
}

#[test]
fn unknown_language_block_is_escaped() {
    let h = highlighter();
    assert!(h.resolve_syntax(Some("zzz")).is_none());
    assert_eq!(
        h.render_markdown("```zzz\na<b\n```\n"),
        "<pre><code class=\"language-zzz\">a&lt;b\n</code></pre>\n"
    );
}

#[test]
fn markdown_without_code_blocks_is_rendered_as_pulldown_renders_it() {
    let h = highlighter();
    let content = "# Title\n\nSome *text*, a [link](https://example.com) and `code`.\n\n| a | b |\n|---|---|\n| 1 | 2 |\n";
    let options = Options::from_bits_truncate(rustbin::markdown::MARKDOWN_EXTENSIONS);
    let mut expected = String::new();
    html::push_html(&mut expected, Parser::new_ext(content, options));
    assert_eq!(h.render_markdown(content), expected);
}
