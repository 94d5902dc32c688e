use crawler::html::{try_html_to_text, HtmlPatterns};
use crawler::text::{is_space_char, trim_whitespace};

/// The cleaning pipeline written directly against the `regex` crate.
fn reference_html_to_text(html: &str) -> String {
    let script = regex::RegexBuilder::new(r"<script[^>]*?>[\s\S]*?</script>")
        .case_insensitive(true)
        .build()
        .unwrap();
    let style = regex::RegexBuilder::new(r"<style[^>]*?>[\s\S]*?</style>")
        .case_insensitive(true)
        .build()
        .unwrap();
    let noscript = regex::RegexBuilder::new(r"<noscript[^>]*?>[\s\S]*?</noscript>")
        .case_insensitive(true)
        .build()
        .unwrap();
    let a = script.replace_all(html, "");
    let b = style.replace_all(&a, "");
    let c = noscript.replace_all(&b, "");
    let d = regex::Regex::new(r"<[^>]*>").unwrap().replace_all(&c, "");
    let e = regex::Regex::new(r"&[a-zA-Z]+;|&#\d+;|&#x[0-9a-fA-F]+;").unwrap().replace_all(&d, " ");
    let f = regex::Regex::new(r"[ \t]+").unwrap().replace_all(&e, " ");
    let g = regex::Regex::new(r"\n{3,}").unwrap().replace_all(&f, "\n\n");
    g.trim().to_string()
}

fn clean(html: &str) -> String {
    try_html_to_text(html).expect("the expressions compile")
}

#[test]
fn removes_scripts_styles_tags_and_entities() {
    let html = "<html><head><script>var x = 1;</script><style>p { color: red; }</style></head>\
                <body><p>Hello&amp;world</p>\n\n\n\n<p>Bye</p></body></html>";
    assert_eq!(clean(html), "Hello world\n\nBye");
}

#[test]
fn element_removal_ignores_case() {
    let html = "<SCRIPT type=\"text/javascript\">alert(1)</Script>A<NoScript>enable js</NOSCRIPT>B<STYLE>x</style>C";
    assert_eq!(clean(html), "ABC");
}

#[test]
fn replaces_every_entity_form_by_a_space() {
    assert_eq!(clean("a&nbsp;b&#160;c&#xa0;d&#XA0;e"), "a b c d&#XA0;e");
}

#[test]
fn collapses_blanks_and_blank_lines() {
    assert_eq!(clean("  a \t\t b  \n\n\n\n\nc\n\nd  "), "a b \n\nc\n\nd");
}

#[test]
fn trims_unicode_whitespace() {
    assert_eq!(clean("\u{3000}<p>\u{a0}text\u{2003}</p>\r\n"), "text");
}

#[test]
fn empty_and_tag_only_pages_give_empty_text() {
    assert_eq!(clean(""), "");
    assert_eq!(clean("<html><body></body></html>"), "");
    assert_eq!(clean("   \n\n\t"), "");
}

#[test]
fn plain_text_passes_through() {
    assert_eq!(clean("just text"), "just text");
}

#[test]
fn matches_the_regex_pipeline_on_samples() {
    let samples = [
        "",
        "<div>东南大学</div>\n\n\n\n\n<p>欢迎&nbsp;访问</p>",
        "<script src=x></script><script>\n a<b \n</script>text",
        "a < b and c > d",
        "<p>unclosed <b>bold",
        "x&amp;&lt;&gt;y &#12345; &#x1F600; &bogus",
        "\t \u{85}lead and trail\u{2028}",
        "<style media=\"screen\">\n.a{}\n</style>\n\n\nline\n\n\n",
        "line1\r\n\r\n\r\n\r\nline2",
    ];
    for s in samples {
        assert_eq!(clean(s), reference_html_to_text(s), "on {:?}", s);
    }
}

#[test]
fn compiled_patterns_clean_many_pages() {
    let patterns = HtmlPatterns::compile().expect("the expressions compile");
    assert_eq!(patterns.clean("<h1>Title</h1>"), "Title");
    assert_eq!(patterns.clean("<b>a</b>&amp;<i>b</i>"), "a b");
}

#[test]
fn whitespace_test_agrees_with_std_on_every_char() {
    for code in 0u32..=0x10FFFF {
        if let Some(c) = char::from_u32(code) {
            assert_eq!(is_space_char(c), c.is_whitespace(), "at U+{:04X}", code);
        }
    }
}

#[test]
fn trimming_agrees_with_str_trim() {
    let samples = [
        "",
        " ",
        "a",
        "  a  ",
        "\u{3000}\u{a0}x y\u{205f}\u{2029}",
        "\n\r\t\u{b}\u{c}",
        " 中文 ",
        "no-trim",
    ];
    for s in samples {
        assert_eq!(trim_whitespace(s), s.trim(), "on {:?}", s);
    }
}

#[test]
fn trimmed_text_is_stable() {
    let once = clean("  <p> padded </p>  ");
    assert_eq!(once, "padded");
    assert_eq!(trim_whitespace(&once), once);
}
