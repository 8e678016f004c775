use rustbin::cache::{ImageCache, PageCache};
use syntect::highlighting::ThemeSet;
use syntect::parsing::SyntaxSet;

#[test]
fn page_cache_gives_back_what_was_put() {
    let mut cache = PageCache::new(4);
    assert_eq!(cache.get("abc:rs"), None);
    cache.put("abc:rs".to_string(), "<code>1</code>".to_string());
    assert_eq!(cache.get("abc:rs"), Some("<code>1</code>".to_string()));
    cache.put("abc:rs".to_string(), "<code>2</code>".to_string());
    assert_eq!(cache.get("abc:rs"), Some("<code>2</code>".to_string()));
    assert_eq!(cache.get("abc"), None);
}

#[test]
fn page_cache_evicts_least_recently_used() {
    let mut cache = PageCache::new(2);
    cache.put("1".to_string(), "a".to_string());
    cache.put("2".to_string(), "b".to_string());
    cache.put("2".to_string(), "c".to_string());
    cache.put("3".to_string(), "d".to_string());
    assert_eq!(cache.get("1"), None);
    assert_eq!(cache.get("2"), Some("c".to_string()));
    assert_eq!(cache.get("3"), Some("d".to_string()));
}

#[test]
fn page_cache_lookup_refreshes_an_entry() {
    let mut cache = PageCache::new(2);
    cache.put("1".to_string(), "a".to_string());
    cache.put("2".to_string(), "b".to_string());
    assert_eq!(cache.get("1"), Some("a".to_string()));
    cache.put("3".to_string(), "c".to_string());
    assert_eq!(cache.get("2"), None);
    assert_eq!(cache.get("1"), Some("a".to_string()));
    assert_eq!(cache.get("3"), Some("c".to_string()));
}

#[test]
fn image_cache_gives_back_what_was_put() {
    let mut cache = ImageCache::new(1);
    cache.put("abc".to_string(), vec![0x89, b'P', b'N', b'G']);
    assert_eq!(cache.get("abc"), Some(vec![0x89, b'P', b'N', b'G']));
    cache.put("def".to_string(), vec![1, 2, 3]);
    assert_eq!(cache.get("abc"), None);
    assert_eq!(cache.get("def"), Some(vec![1, 2, 3]));
}

#[test]
fn cached_page_equals_fresh_rendering() {
    let syntax_set = SyntaxSet::load_defaults_newlines();
    let mut themes = ThemeSet::load_defaults();
    let theme = themes.themes.remove("base16-ocean.dark").expect("default theme");
    let h = rustbin::highlight::Highlighter::new(syntax_set, theme);
    let content = "fn main() {}\n";
    let mut cache = PageCache::new(2);
    let page = h.render_page(Some("rs"), false, content);
    cache.put("abc:rs".to_string(), page);
    assert_eq!(cache.get("abc:rs"), Some(h.render_page(Some("rs"), false, content)));
}
