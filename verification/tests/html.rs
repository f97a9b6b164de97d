use simple_todo::html::{
    extract_content, extract_title, hostname_from_url, html_escape, strip_scripts_styles,
};

#[test]
fn extract_title_finds_title_tag() {
    let html = "<html><head><title>Hello World</title></head><body></body></html>";
    assert_eq!(extract_title(html).unwrap(), "Hello World");
}

#[test]
fn extract_title_returns_none_on_missing() {
    let html = "<html><body>no title here</body></html>";
    assert!(extract_title(html).is_none());
}

#[test]
fn hostname_from_url_extracts_host() {
    assert_eq!(hostname_from_url("https://example.com/path"), "example.com");
    assert_eq!(hostname_from_url("http://localhost:8080/"), "localhost:8080");
}

#[test]
fn strip_scripts_styles_removes_both() {
    let html = r#"<html><head><style>body{}</style><script>alert(1)</script></head><body>hello</body></html>"#;
    let clean = strip_scripts_styles(html);
    assert!(!clean.contains("<style"));
    assert!(!clean.contains("<script"));
    assert!(clean.contains("hello"));
}

#[test]
fn extract_title_is_trimmed_and_case_insensitive() {
    let html = "<HTML><HEAD><TITLE lang=\"en\">\n  Spaced Out \t</TITLE></HEAD></HTML>";
    assert_eq!(extract_title(html).unwrap(), "Spaced Out");
}

#[test]
fn extract_title_blank_is_none() {
    assert!(extract_title("<title>   </title>").is_none());
    assert!(extract_title("<title>unclosed").is_none());
    assert!(extract_title("<title").is_none());
}

#[test]
fn hostname_without_two_slashes_is_whole_url() {
    assert_eq!(hostname_from_url("example.com"), "example.com");
    assert_eq!(hostname_from_url("a/b"), "a/b");
    assert_eq!(hostname_from_url("https://example.com"), "example.com");
    assert_eq!(hostname_from_url("//x"), "x");
}

#[test]
fn html_escape_replaces_special_characters() {
    assert_eq!(html_escape("a & b < c > d \"e\""), "a &amp; b &lt; c &gt; d &quot;e&quot;");
    assert_eq!(html_escape("&lt;"), "&amp;lt;");
    assert_eq!(html_escape("plain"), "plain");
    let escaped = html_escape("<script>\"x\"</script>");
    assert!(!escaped.contains('<') && !escaped.contains('>') && !escaped.contains('"'));
}

#[test]
fn strip_removes_every_element_and_keeps_the_rest() {
    let html = "a<SCRIPT src=x></Script>b<script>1</script>c<style>p{}</STYLE>d";
    assert_eq!(strip_scripts_styles(html), "abcd");
}

#[test]
fn strip_leaves_unpaired_tags() {
    assert_eq!(strip_scripts_styles("x<script>y"), "x<script>y");
    assert_eq!(strip_scripts_styles("x</style>y"), "x</style>y");
}

#[test]
fn strip_keeps_closing_tags_that_come_first() {
    assert_eq!(strip_scripts_styles("</script> <script>"), "</script> <script>");
    assert_eq!(strip_scripts_styles("a</script>b<script>c"), "a</script>b<script>c");
    assert_eq!(strip_scripts_styles("<style></style></style><style>"), "</style><style>");
    assert_eq!(strip_scripts_styles("</script><script>x</script>y"), "</script>y");
}

#[test]
fn extract_content_prefers_article_then_main_then_body() {
    let page = "<body><main><article class=\"a\">A</article>M</main>B</body>";
    assert_eq!(extract_content(page), "A");
    let page = "<body><main id=m>M</main>B</body>";
    assert_eq!(extract_content(page), "M");
    let page = "<BODY>B</BODY>";
    assert_eq!(extract_content(page), "B");
    assert_eq!(extract_content("no tags"), "no tags");
    assert_eq!(extract_content("<body></body>"), "<body></body>");
}

#[test]
fn extract_content_takes_the_first_block() {
    let page = "<article>A</article><article>B</article>";
    assert_eq!(extract_content(page), "A");
    let page = "<main>one</main><main>two</main>";
    assert_eq!(extract_content(page), "one");
}

#[test]
fn escaped_text_decodes_back() {
    let s = "a&b<c>\"d&amp;&lt;";
    let e = html_escape(s);
    let back = e
        .replace("&quot;", "\"")
        .replace("&gt;", ">")
        .replace("&lt;", "<")
        .replace("&amp;", "&");
    assert_eq!(back, s);
    assert_eq!(html_escape("no specials here"), "no specials here");
}

#[test]
fn extract_content_keeps_nested_blocks() {
    let page = "<article>a<article>b</article>c</article>";
    assert_eq!(extract_content(page), "a<article>b</article>c");
    let page = "<main>x<Main id=2>y</MAIN>z</main>tail";
    assert_eq!(extract_content(page), "x<Main id=2>y</MAIN>z");
    let page = "<article>a<article>b</article>";
    assert_eq!(extract_content(page), "a<article>b");
}
