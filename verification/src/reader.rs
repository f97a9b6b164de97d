//! The reader view of a saved page: its title, host and main content in a
//! plain, readable layout.
use vstd::prelude::*;
use crate::html::{
    content_of, escape, extract_content, extract_title, hostname, hostname_from_url,
    push_escaped, strip_scripts_styles, stripped, title_of,
};
use crate::text::chars_of;

verus! {

/// The reader page up to its `<title>` text.
pub const READER_HEAD: &'static str = r#"<!doctype html>
<html lang="en">
<head>
  <meta charset="utf-8">
  <meta name="viewport" content="width=device-width, initial-scale=1">
  <title>"#;

/// The reader page between the `<title>` text and the heading text.
pub const READER_HEADING: &'static str = r#"</title>
  <style>
    *, *::before, *::after { box-sizing: border-box; margin: 0; padding: 0; }
    body {
      font-family: -apple-system, BlinkMacSystemFont, "Segoe UI", Georgia, serif;
      background: #fafaf8;
      color: #1a1a1a;
      padding: 3rem 1rem;
      line-height: 1.7;
    }
    .reader {
      max-width: 680px;
      margin: 0 auto;
    }
    .reader-header {
      margin-bottom: 2rem;
      padding-bottom: 1rem;
      border-bottom: 1px solid #e0e0e0;
    }
    .reader-header a {
      font-size: 0.85rem;
      color: #666;
      text-decoration: none;
    }
    .reader-header a:hover { text-decoration: underline; }
    .reader-header h1 {
      font-size: 1.6rem;
      font-weight: 700;
      letter-spacing: -0.02em;
      margin: 0.75rem 0 0.25rem;
      line-height: 1.3;
    }
    .reader-header .domain {
      font-size: 0.85rem;
      color: #888;
    }
    .reader-content img { max-width: 100%; height: auto; border-radius: 4px; }
    .reader-content a { color: #1a1a1a; }
    .reader-content p,
    .reader-content li { margin-bottom: 1rem; }
    .reader-content h1, .reader-content h2, .reader-content h3 {
      margin: 1.5rem 0 0.5rem;
      line-height: 1.3;
    }
    .reader-content pre, .reader-content code {
      font-family: "SF Mono", Menlo, monospace;
      font-size: 0.9em;
      background: #f0f0ec;
      border-radius: 3px;
    }
    .reader-content pre { padding: 1rem; overflow-x: auto; }
    .reader-content code { padding: 0.1em 0.3em; }
  </style>
</head>
<body>
  <div class="reader">
    <div class="reader-header">
      <a href="/">&larr; Back</a>
      <h1>"#;

/// The reader page between the heading text and the host name.
pub const READER_DOMAIN: &'static str = r#"</h1>
      <span class="domain">"#;

/// The reader page between the host name and the content.
pub const READER_CONTENT: &'static str = r#"</span>
    </div>
    <div class="reader-content">
      "#;

/// The reader page after the content.
pub const READER_TAIL: &'static str = r#"
    </div>
  </div>
</body>
</html>"#;

/// The reader page for a title, a host name and the page content: the
/// title and host are HTML-escaped, the content goes in as it is.
pub open spec fn reader_page_text(title: Seq<char>, domain: Seq<char>, content: Seq<char>) -> Seq<
    char,
> {
    READER_HEAD@ + escape(title) + READER_HEADING@ + escape(title) + READER_DOMAIN@ + escape(domain)
        + READER_CONTENT@ + content + READER_TAIL@
}

/// The reader page of a saved item with title `title` and address `url`,
/// given the text of its page (empty where it could not be fetched): the
/// main content of the page, without scripts and styles, under the escaped
/// title and host name.
pub fn reader_page(title: &str, url: &str, page: &str) -> (r: String)
    ensures
        r@ == reader_page_text(title@, hostname(url@), content_of(stripped(page@))),
{
    let domain = hostname_from_url(url);
    let clean = strip_scripts_styles(page);
    let content = extract_content(clean.as_str());
    let t = chars_of(title);
    let d = chars_of(domain.as_str());
    let mut s = String::new();
    s.append(READER_HEAD);
    push_escaped(&mut s, &t);
    s.append(READER_HEADING);
    push_escaped(&mut s, &t);
    s.append(READER_DOMAIN);
    push_escaped(&mut s, &d);
    s.append(READER_CONTENT);
    s.append(content.as_str());
    s.append(READER_TAIL);
    assert(s@ =~= reader_page_text(title@, hostname(url@), content_of(stripped(page@))));
    s
}

/// The title a new reading item gets: the `<title>` of its page where the
/// page could be fetched and has one, else the host name of its address.
pub open spec fn chosen_title(url: Seq<char>, page: Option<Seq<char>>) -> Seq<char> {
    match page {
        Some(h) => match title_of(h) {
            Some(t) => t,
            None => hostname(url),
        },
        None => hostname(url),
    }
}

/// Picks the title of a new reading item from its fetched page (`None`
/// where fetching failed), falling back to the host name of `url`.
pub fn choose_title(url: &str, page: Option<&str>) -> (r: String)
    ensures
        r@ == chosen_title(url@, match page {
            Some(h) => Some(h@),
            None => None,
        }),
{
    match page {
        Some(h) => match extract_title(h) {
            Some(t) => t,
            None => hostname_from_url(url),
        },
        None => hostname_from_url(url),
    }
}

} // verus!
