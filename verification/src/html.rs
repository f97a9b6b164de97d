//! Small HTML helpers: page titles, host names, removing scripts and styles,
//! picking the main content of a page and escaping text for HTML.
//!
//! Tag names are matched without regard to ASCII case.
use vstd::prelude::*;
use crate::text::{
    chars_of, find_ci, find_from, fold, is_whitespace, lemma_find_first, lemma_find_from,
    lemma_find_last, lemma_match_is_whole_pattern, lemma_whitespace_code_points, matches_at,
    matches_at_ci, push_range, rfind, rfind_ci, string_of, string_of_range, trim, trim_end,
    trim_start, trimmed_range,
};

verus! {

// ── Tag patterns ────────────────────────────────────────────────────────────
//
// Tag names, as the lower-case characters they are matched against.

pub open spec fn title_tag() -> Seq<char> {
    seq!['t', 'i', 't', 'l', 'e']
}

pub open spec fn script_tag() -> Seq<char> {
    seq!['s', 'c', 'r', 'i', 'p', 't']
}

pub open spec fn style_tag() -> Seq<char> {
    seq!['s', 't', 'y', 'l', 'e']
}

pub open spec fn article_tag() -> Seq<char> {
    seq!['a', 'r', 't', 'i', 'c', 'l', 'e']
}

pub open spec fn main_tag() -> Seq<char> {
    seq!['m', 'a', 'i', 'n']
}

pub open spec fn body_tag() -> Seq<char> {
    seq!['b', 'o', 'd', 'y']
}

/// `<tag`: the start of an opening tag.
pub open spec fn tag_open(tag: Seq<char>) -> Seq<char> {
    seq!['<'] + tag
}

/// `</tag>`: a closing tag.
pub open spec fn tag_close(tag: Seq<char>) -> Seq<char> {
    seq!['<', '/'] + tag + seq!['>']
}

fn title_word() -> (v: Vec<char>)
    ensures
        v@ == title_tag(),
{
    let v = vec!['t', 'i', 't', 'l', 'e'];
    assert(v@ =~= title_tag());
    v
}

fn single(c: char) -> (v: Vec<char>)
    ensures
        v@ == seq![c],
{
    let v = vec![c];
    assert(v@ =~= seq![c]);
    v
}

fn open_pattern(tag: &Vec<char>) -> (v: Vec<char>)
    ensures
        v@ == tag_open(tag@),
{
    let mut v = vec!['<'];
    let mut i: usize = 0;
    while i < tag.len()
        invariant
            i <= tag.len(),
            v@ == seq!['<'] + tag@.take(i as int),
        decreases tag.len() - i,
    {
        v.push(tag[i]);
        assert(tag@.take(i as int).push(tag@[i as int]) =~= tag@.take(i + 1));
        i = i + 1;
    }
    assert(tag@.take(tag@.len() as int) =~= tag@);
    v
}

fn close_pattern(tag: &Vec<char>) -> (v: Vec<char>)
    ensures
        v@ == tag_close(tag@),
{
    let mut v = vec!['<', '/'];
    let mut i: usize = 0;
    while i < tag.len()
        invariant
            i <= tag.len(),
            v@ == seq!['<', '/'] + tag@.take(i as int),
        decreases tag.len() - i,
    {
        v.push(tag[i]);
        assert(tag@.take(i as int).push(tag@[i as int]) =~= tag@.take(i + 1));
        i = i + 1;
    }
    assert(tag@.take(tag@.len() as int) =~= tag@);
    v.push('>');
    v
}

// ── Title ───────────────────────────────────────────────────────────────────

/// The trimmed text between the first `<title ...>` and the following
/// `</title>`, when both are there and the text is not empty.
pub open spec fn title_of(h: Seq<char>) -> Option<Seq<char>> {
    match find_from(h, tag_open(title_tag()), 0) {
        None => None,
        Some(start) => title_after_open(h, start),
    }
}

/// The title text once its opening tag has been found at `start`.
pub open spec fn title_after_open(h: Seq<char>, start: int) -> Option<Seq<char>> {
    match find_from(h, seq!['>'], start) {
        None => None,
        Some(gt) => title_between(h, gt + 1),
    }
}

/// The title text once it is known to begin at `from`.
pub open spec fn title_between(h: Seq<char>, from: int) -> Option<Seq<char>> {
    match find_from(h, tag_close(title_tag()), from) {
        None => None,
        Some(end) => nonblank(trim(h.subrange(from, end))),
    }
}

/// `Some(t)` where `t` is not empty.
pub open spec fn nonblank(t: Seq<char>) -> Option<Seq<char>> {
    if t.len() == 0 {
        None
    } else {
        Some(t)
    }
}

/// The title of an HTML page: the trimmed text of its first `<title>`
/// element, or `None` where there is none or it is blank.
pub fn extract_title(html: &str) -> (r: Option<String>)
    ensures
        match r {
            Some(t) => title_of(html@) == Some(t@),
            None => title_of(html@) is None,
        },
{
    let h = chars_of(html);
    let title = title_word();
    let open = open_pattern(&title);
    let close = close_pattern(&title);
    let gt_pat = single('>');
    let start = match find_ci(&h, &open, 0) {
        Some(start) => start,
        None => return None,
    };
    let gt = match find_ci(&h, &gt_pat, start) {
        Some(gt) => gt,
        None => return None,
    };
    proof {
        lemma_find_from(h@, seq!['>'], start as int);
    }
    let end = match find_ci(&h, &close, gt + 1) {
        Some(end) => end,
        None => return None,
    };
    proof {
        lemma_find_from(h@, tag_close(title_tag()), gt + 1);
    }
    let t = trimmed_range(&h, gt + 1, end);
    if t.as_str().is_empty() {
        None
    } else {
        Some(t)
    }
}

// ── Host name ───────────────────────────────────────────────────────────────

/// The host part of a URL: the text after its second `/` up to the next `/`,
/// or the whole URL where it has fewer than two `/`.
pub open spec fn hostname(u: Seq<char>) -> Seq<char> {
    match find_from(u, seq!['/'], 0) {
        None => u,
        Some(a) => match find_from(u, seq!['/'], a + 1) {
            None => u,
            Some(b) => host_after(u, b + 1),
        },
    }
}

/// The text from `from` up to the next `/`, or to the end.
pub open spec fn host_after(u: Seq<char>, from: int) -> Seq<char> {
    match find_from(u, seq!['/'], from) {
        None => u.subrange(from, u.len() as int),
        Some(c) => u.subrange(from, c),
    }
}

/// The host of a URL such as `https://example.com/path` (`example.com`); a
/// URL with fewer than two `/` is returned whole.
pub fn hostname_from_url(url: &str) -> (r: String)
    ensures
        r@ == hostname(url@),
{
    let u = chars_of(url);
    let slash = single('/');
    let a = match find_ci(&u, &slash, 0) {
        Some(a) => a,
        None => return string_of(&u),
    };
    proof {
        lemma_find_from(u@, seq!['/'], 0);
    }
    let b = match find_ci(&u, &slash, a + 1) {
        Some(b) => b,
        None => return string_of(&u),
    };
    proof {
        lemma_find_from(u@, seq!['/'], a + 1);
    }
    match find_ci(&u, &slash, b + 1) {
        Some(c) => {
            proof {
                lemma_find_from(u@, seq!['/'], b + 1);
            }
            string_of_range(&u, b + 1, c)
        },
        None => string_of_range(&u, b + 1, u.len()),
    }
}

// ── Scripts and styles ──────────────────────────────────────────────────────

/// `s` without the characters `a..b`.
pub open spec fn cut(s: Seq<char>, a: int, b: int) -> Seq<char> {
    s.subrange(0, a) + s.subrange(b, s.len() as int)
}

/// Removing `tag` elements one at a time: while a `<tag` occurs and a
/// `</tag>` follows it, the text from the first `<tag` to the end of the
/// first `</tag>` after it is cut out.
pub open spec fn strip_tag(s: Seq<char>, tag: Seq<char>) -> Seq<char>
    decreases s.len(),
{
    match find_from(s, tag_open(tag), 0) {
        Some(a) => match find_from(s, tag_close(tag), a) {
            Some(e) => {
                proof {
                    lemma_find_from(s, tag_open(tag), 0);
                    lemma_find_from(s, tag_close(tag), a);
                    assert(cut(s, a, e + tag_close(tag).len()).len() < s.len());
                }
                strip_tag(cut(s, a, e + tag_close(tag).len()), tag)
            },
            None => s,
        },
        None => s,
    }
}

/// `h` without its `<script>` elements, then without its `<style>` elements.
pub open spec fn stripped(h: Seq<char>) -> Seq<char> {
    strip_tag(strip_tag(h, script_tag()), style_tag())
}

fn script_word() -> (v: Vec<char>)
    ensures
        v@ == script_tag(),
{
    let v = vec!['s', 'c', 'r', 'i', 'p', 't'];
    assert(v@ =~= script_tag());
    v
}

fn style_word() -> (v: Vec<char>)
    ensures
        v@ == style_tag(),
{
    let v = vec!['s', 't', 'y', 'l', 'e'];
    assert(v@ =~= style_tag());
    v
}

fn cut_exec(v: &Vec<char>, a: usize, b: usize) -> (r: Vec<char>)
    requires
        a <= b <= v.len(),
    ensures
        r@ == cut(v@, a as int, b as int),
{
    let mut r: Vec<char> = Vec::new();
    let mut i: usize = 0;
    while i < a
        invariant
            i <= a <= b <= v.len(),
            r@ == v@.subrange(0, i as int),
        decreases a - i,
    {
        r.push(v[i]);
        assert(v@.subrange(0, i as int).push(v@[i as int]) =~= v@.subrange(0, i + 1));
        i = i + 1;
    }
    let mut j: usize = b;
    while j < v.len()
        invariant
            a <= b <= j <= v.len(),
            r@ == v@.subrange(0, a as int) + v@.subrange(b as int, j as int),
        decreases v.len() - j,
    {
        r.push(v[j]);
        assert(v@.subrange(b as int, j as int).push(v@[j as int]) =~= v@.subrange(
            b as int,
            j + 1,
        ));
        assert((v@.subrange(0, a as int) + v@.subrange(b as int, j as int)).push(v@[j as int])
            =~= v@.subrange(0, a as int) + v@.subrange(b as int, j + 1));
        j = j + 1;
    }
    r
}

/// Removes `tag` elements as `strip_tag` says.
fn strip_tag_exec(v: Vec<char>, tag: &Vec<char>) -> (r: Vec<char>)
    ensures
        r@ == strip_tag(v@, tag@),
{
    let open = open_pattern(tag);
    let close = close_pattern(tag);
    let mut cur = v;
    loop
        invariant
            open@ == tag_open(tag@),
            close@ == tag_close(tag@),
            strip_tag(v@, tag@) == strip_tag(cur@, tag@),
        decreases cur.len(),
    {
        let a = match find_ci(&cur, &open, 0) {
            Some(a) => a,
            None => return cur,
        };
        let e = match find_ci(&cur, &close, a) {
            Some(e) => e,
            None => return cur,
        };
        proof {
            lemma_find_from(cur@, open@, 0);
            lemma_find_from(cur@, close@, a as int);
        }
        cur = cut_exec(&cur, a, e + close.len());
    }
}

/// Removes every `<script>` and `<style>` element (tags and content) from an
/// HTML text: first the script elements, then the style elements. A closing
/// tag with no opening tag before it stays, as does an opening tag with no
/// closing tag after it.
pub fn strip_scripts_styles(html: &str) -> (r: String)
    ensures
        r@ == stripped(html@),
{
    let h = chars_of(html);
    let script = script_word();
    let style = style_word();
    let a = strip_tag_exec(h, &script);
    let b = strip_tag_exec(a, &style);
    string_of(&b)
}

// ── Main content ────────────────────────────────────────────────────────────

/// The text of the first `tag` block: from the end of the first
/// `<tag ...>` up to the `</tag>` that closes it, where that text is not
/// empty.
pub open spec fn content_in(h: Seq<char>, tag: Seq<char>) -> Option<Seq<char>> {
    match find_from(h, tag_open(tag), 0) {
        None => None,
        Some(start) => match find_from(h, seq!['>'], start) {
            None => None,
            Some(gt) => content_from(h, tag, gt + 1),
        },
    }
}

/// The `</tag>` that closes a block whose text begins at `p`, with `depth`
/// blocks of the same tag opened inside it and not yet closed: scanning on,
/// each `<tag` opens one more and each `</tag>` closes the innermost open
/// one.
pub open spec fn matching_close(h: Seq<char>, tag: Seq<char>, p: int, depth: nat) -> Option<int>
    decreases h.len() - p,
{
    if p < 0 || p >= h.len() {
        None
    } else if matches_at(h, p, tag_open(tag)) {
        matching_close(h, tag, p + 1, depth + 1)
    } else if matches_at(h, p, tag_close(tag)) {
        if depth == 0 {
            Some(p)
        } else {
            matching_close(h, tag, p + 1, (depth - 1) as nat)
        }
    } else {
        matching_close(h, tag, p + 1, depth)
    }
}

/// Where the block whose text begins at `from` ends: at its closing
/// `</tag>`, or, where the tags do not balance and there is none, at the last
/// `</tag>` of the page.
pub open spec fn block_end(h: Seq<char>, tag: Seq<char>, from: int) -> Option<int> {
    match matching_close(h, tag, from, 0) {
        Some(e) => Some(e),
        None => rfind(h, tag_close(tag)),
    }
}

/// The text from `from` up to the end of its block, where that text is
/// there and not empty.
pub open spec fn content_from(h: Seq<char>, tag: Seq<char>, from: int) -> Option<Seq<char>> {
    match block_end(h, tag, from) {
        None => None,
        Some(end) => if from < end {
            Some(h.subrange(from, end))
        } else {
            None
        },
    }
}

/// What `matching_close` says: a hit lies at or after `p` and a `</tag>`
/// fits there.
pub proof fn lemma_matching_close(h: Seq<char>, tag: Seq<char>, p: int, depth: nat)
    ensures
        matching_close(h, tag, p, depth) matches Some(e) ==> p <= e && matches_at(
            h,
            e,
            tag_close(tag),
        ),
    decreases h.len() - p,
{
    if p < 0 || p >= h.len() {
    } else if matches_at(h, p, tag_open(tag)) {
        lemma_matching_close(h, tag, p + 1, depth + 1);
    } else if matches_at(h, p, tag_close(tag)) {
        if depth > 0 {
            lemma_matching_close(h, tag, p + 1, (depth - 1) as nat);
        }
    } else {
        lemma_matching_close(h, tag, p + 1, depth);
    }
}

fn matching_close_exec(
    h: &Vec<char>,
    tag: &Vec<char>,
    open: &Vec<char>,
    close: &Vec<char>,
    from: usize,
) -> (r: Option<usize>)
    requires
        open@ == tag_open(tag@),
        close@ == tag_close(tag@),
    ensures
        match r {
            Some(e) => matching_close(h@, tag@, from as int, 0) == Some(e as int),
            None => matching_close(h@, tag@, from as int, 0) is None,
        },
{
    let n = h.len();
    let mut p = from;
    let mut depth: usize = 0;
    while p < n
        invariant
            n == h.len(),
            open@ == tag_open(tag@),
            close@ == tag_close(tag@),
            depth <= p,
            matching_close(h@, tag@, from as int, 0) == matching_close(h@, tag@, p as int, depth as nat),
        decreases n - p,
    {
        if matches_at_ci(h, p, open) {
            depth = depth + 1;
        } else if matches_at_ci(h, p, close) {
            if depth == 0 {
                return Some(p);
            }
            depth = depth - 1;
        }
        p = p + 1;
    }
    None
}

/// The first of `a` that is there, else `b`.
pub open spec fn first_or(a: Option<Seq<char>>, b: Seq<char>) -> Seq<char> {
    match a {
        Some(t) => t,
        None => b,
    }
}

/// The content of an `<article>`, else of `<main>`, else of `<body>`, else
/// the whole text.
pub open spec fn content_of(h: Seq<char>) -> Seq<char> {
    first_or(
        content_in(h, article_tag()),
        first_or(content_in(h, main_tag()), first_or(content_in(h, body_tag()), h)),
    )
}

fn content_in_exec(h: &Vec<char>, tag: &Vec<char>) -> (r: Option<String>)
    ensures
        match r {
            Some(t) => content_in(h@, tag@) == Some(t@),
            None => content_in(h@, tag@) is None,
        },
{
    let open = open_pattern(tag);
    let close = close_pattern(tag);
    let start = match find_ci(h, &open, 0) {
        Some(start) => start,
        None => return None,
    };
    let gt_pat = single('>');
    let gt = match find_ci(h, &gt_pat, start) {
        Some(gt) => gt,
        None => return None,
    };
    proof {
        lemma_find_from(h@, seq!['>'], start as int);
    }
    let n = h.len();
    assert(gt + 1 <= n);
    let end = match matching_close_exec(h, tag, &open, &close, gt + 1) {
        Some(e) => {
            proof {
                lemma_matching_close(h@, tag@, gt + 1, 0);
            }
            e
        },
        None => match rfind_ci(h, &close) {
            Some(e) => {
                proof {
                    lemma_find_last(h@, close@, h@.len() - close@.len());
                }
                e
            },
            None => return None,
        },
    };
    if gt + 1 < end {
        Some(string_of_range(h, gt + 1, end))
    } else {
        None
    }
}

/// The main content of an HTML page: the inside of its first `<article>`
/// block (up to the `</article>` that closes it, nested `<article>` blocks
/// included), else of its first `<main>` block, else of its first `<body>`
/// block, else the whole text.
pub fn extract_content(html: &str) -> (r: String)
    ensures
        r@ == content_of(html@),
{
    let h = chars_of(html);
    let article = vec!['a', 'r', 't', 'i', 'c', 'l', 'e'];
    assert(article@ =~= article_tag());
    if let Some(t) = content_in_exec(&h, &article) {
        return t;
    }
    let main = vec!['m', 'a', 'i', 'n'];
    assert(main@ =~= main_tag());
    if let Some(t) = content_in_exec(&h, &main) {
        return t;
    }
    let body = vec!['b', 'o', 'd', 'y'];
    assert(body@ =~= body_tag());
    if let Some(t) = content_in_exec(&h, &body) {
        return t;
    }
    string_of(&h)
}

// ── Escaping ────────────────────────────────────────────────────────────────

/// The HTML escape of one character: `&`, `<`, `>` and `"` become entities,
/// every other character stays.
pub open spec fn escape_char(c: char) -> Seq<char> {
    if c == '&' {
        amp_entity()
    } else if c == '<' {
        lt_entity()
    } else if c == '>' {
        gt_entity()
    } else if c == '"' {
        quot_entity()
    } else {
        seq![c]
    }
}

/// `&amp;`
pub open spec fn amp_entity() -> Seq<char> {
    seq!['&', 'a', 'm', 'p', ';']
}

/// `&lt;`
pub open spec fn lt_entity() -> Seq<char> {
    seq!['&', 'l', 't', ';']
}

/// `&gt;`
pub open spec fn gt_entity() -> Seq<char> {
    seq!['&', 'g', 't', ';']
}

/// `&quot;`
pub open spec fn quot_entity() -> Seq<char> {
    seq!['&', 'q', 'u', 'o', 't', ';']
}

/// The HTML escape of a text, character by character.
pub open spec fn escape(s: Seq<char>) -> Seq<char>
    decreases s.len(),
{
    if s.len() == 0 {
        Seq::empty()
    } else {
        escape(s.drop_last()) + escape_char(s.last())
    }
}

fn escape_char_exec(c: char) -> (v: Vec<char>)
    ensures
        v@ == escape_char(c),
{
    if c == '&' {
        vec!['&', 'a', 'm', 'p', ';']
    } else if c == '<' {
        vec!['&', 'l', 't', ';']
    } else if c == '>' {
        vec!['&', 'g', 't', ';']
    } else if c == '"' {
        vec!['&', 'q', 'u', 'o', 't', ';']
    } else {
        vec![c]
    }
}

/// Appends the HTML escape of `v` to `s`.
pub fn push_escaped(s: &mut String, v: &Vec<char>)
    ensures
        final(s)@ == old(s)@ + escape(v@),
{
    let ghost start = s@;
    let mut i: usize = 0;
    while i < v.len()
        invariant
            i <= v.len(),
            s@ == start + escape(v@.take(i as int)),
        decreases v.len() - i,
    {
        let e = escape_char_exec(v[i]);
        push_range(s, &e, 0, e.len());
        proof {
            let t = v@.take(i + 1);
            assert(t.drop_last() =~= v@.take(i as int));
            assert(e@.subrange(0, e@.len() as int) =~= e@);
        }
        i = i + 1;
    }
    assert(v@.take(v@.len() as int) =~= v@);
}

/// Escapes `&`, `<`, `>` and `"` for use in HTML text and attributes.
pub fn html_escape(s: &str) -> (r: String)
    ensures
        r@ == escape(s@),
{
    let v = chars_of(s);
    let mut r = String::new();
    push_escaped(&mut r, &v);
    assert(Seq::<char>::empty() + escape(v@) =~= escape(v@));
    r
}

// ── Laws ────────────────────────────────────────────────────────────────────

/// Escaped text holds no `<`, `>` or `"`.
pub proof fn lemma_escape_is_safe(s: Seq<char>)
    ensures
        forall|k: int|
            0 <= k < escape(s).len() ==> {
                let c = #[trigger] escape(s)[k];
                c != '<' && c != '>' && c != '"'
            },
    decreases s.len(),
{
    if s.len() > 0 {
        lemma_escape_is_safe(s.drop_last());
        let a = escape(s.drop_last());
        let b = escape_char(s.last());
        assert forall|k: int| 0 <= k < escape(s).len() implies {
            let c = #[trigger] escape(s)[k];
            c != '<' && c != '>' && c != '"'
        } by {
            if k < a.len() {
                assert(escape(s)[k] == a[k]);
            } else {
                assert(escape(s)[k] == b[k - a.len()]);
            }
        }
    }
}

/// After removing `tag` elements, no `<tag` is followed by a `</tag>`.
pub proof fn lemma_strip_tag_leaves_no_pair(s: Seq<char>, tag: Seq<char>)
    ensures
        !(find_from(strip_tag(s, tag), tag_open(tag), 0) matches Some(a) && find_from(
            strip_tag(s, tag),
            tag_close(tag),
            a,
        ) is Some),
    decreases s.len(),
{
    if let Some(a) = find_from(s, tag_open(tag), 0) {
        if let Some(e) = find_from(s, tag_close(tag), a) {
            lemma_find_from(s, tag_open(tag), 0);
            lemma_find_from(s, tag_close(tag), a);
            lemma_strip_tag_leaves_no_pair(cut(s, a, e + tag_close(tag).len()), tag);
        }
    }
}

/// Removing elements never lengthens the text.
pub proof fn lemma_strip_tag_shrinks(s: Seq<char>, tag: Seq<char>)
    ensures
        strip_tag(s, tag).len() <= s.len(),
    decreases s.len(),
{
    if let Some(a) = find_from(s, tag_open(tag), 0) {
        if let Some(e) = find_from(s, tag_close(tag), a) {
            lemma_find_from(s, tag_open(tag), 0);
            lemma_find_from(s, tag_close(tag), a);
            lemma_strip_tag_shrinks(cut(s, a, e + tag_close(tag).len()), tag);
        }
    }
}

/// In a stripped page no `<style` is followed by a `</style>`; once the
/// scripts were removed, no `<script` was followed by a `</script>`; and
/// stripping never lengthens the page.
pub proof fn lemma_stripped_has_no_pairs(h: Seq<char>)
    ensures
        !(find_from(stripped(h), tag_open(style_tag()), 0) matches Some(a) && find_from(
            stripped(h),
            tag_close(style_tag()),
            a,
        ) is Some),
        !(find_from(strip_tag(h, script_tag()), tag_open(script_tag()), 0) matches Some(a)
            && find_from(strip_tag(h, script_tag()), tag_close(script_tag()), a) is Some),
        stripped(h).len() <= h.len(),
{
    lemma_strip_tag_leaves_no_pair(h, script_tag());
    lemma_strip_tag_leaves_no_pair(strip_tag(h, script_tag()), style_tag());
    lemma_strip_tag_shrinks(h, script_tag());
    lemma_strip_tag_shrinks(strip_tag(h, script_tag()), style_tag());
}

proof fn lemma_slash_at(u: Seq<char>, i: int)
    ensures
        matches_at(u, i, seq!['/']) <==> (0 <= i < u.len() && u[i] == '/'),
{
    lemma_char_at(u, i, '/');
}

/// A character that is no ASCII letter matches exactly where it stands.
proof fn lemma_char_at(u: Seq<char>, i: int, c: char)
    requires
        !(0x41 <= c as u32 <= 0x5a),
        !(0x61 <= c as u32 <= 0x7a),
    ensures
        matches_at(u, i, seq![c]) <==> (0 <= i < u.len() && u[i] == c),
{
    if 0 <= i < u.len() {
        assert(u[i + 0] == u[i]);
        lemma_fold_plain(u[i], c);
    }
}

/// Against a character that is no ASCII letter, folding compares exactly.
proof fn lemma_fold_plain(c: char, d: char)
    requires
        !(0x41 <= d as u32 <= 0x5a),
        !(0x61 <= d as u32 <= 0x7a),
    ensures
        fold(c) == fold(d) <==> c == d,
{
}

/// A pattern whose characters stand at `i` matches there.
proof fn lemma_matches_literal(s: Seq<char>, i: int, p: Seq<char>)
    requires
        0 <= i,
        i + p.len() <= s.len(),
        s.subrange(i, i + p.len()) == p,
    ensures
        matches_at(s, i, p),
{
    assert forall|k: int| 0 <= k < p.len() implies #[trigger] fold(s[i + k]) == fold(p[k]) by {
        assert(s[i + k] == s.subrange(i, i + p.len())[k]);
    }
}

/// The first `/` at or after `from` is at `at`, where `u[at]` is `/` and
/// none lies in between.
proof fn lemma_first_slash(u: Seq<char>, from: int, at: int)
    requires
        0 <= from <= at < u.len(),
        u[at] == '/',
        forall|k: int| from <= k < at ==> u[k] != '/',
    ensures
        find_from(u, seq!['/'], from) == Some(at),
{
    lemma_find_from(u, seq!['/'], from);
    lemma_slash_at(u, at);
    if let Some(j) = find_from(u, seq!['/'], from) {
        lemma_slash_at(u, j);
        if j < at {
            assert(u[j] != '/');
        } else if j > at {
            assert(!matches_at(u, at, seq!['/']));
        }
    }
}

/// The host of a URL is the text between its second `/` and the next `/`,
/// or the end: for `x/y/host` followed by nothing or by a text that begins
/// with `/`, where `x`, `y` and `host` hold no `/`, it is `host`.
pub proof fn lemma_hostname_of_parts(x: Seq<char>, y: Seq<char>, host: Seq<char>, rest: Seq<char>)
    requires
        forall|k: int| 0 <= k < x.len() ==> x[k] != '/',
        forall|k: int| 0 <= k < y.len() ==> y[k] != '/',
        forall|k: int| 0 <= k < host.len() ==> host[k] != '/',
        rest.len() == 0 || rest[0] == '/',
    ensures
        hostname(x + seq!['/'] + y + seq!['/'] + host + rest) == host,
{
    let u = x + seq!['/'] + y + seq!['/'] + host + rest;
    let a = x.len() as int;
    let b = a + 1 + y.len();
    let c = b + 1 + host.len();
    assert forall|k: int| 0 <= k < a implies u[k] != '/' by {
        assert(u[k] == x[k]);
    }
    assert(u[a] == '/');
    lemma_first_slash(u, 0, a);
    assert forall|k: int| a + 1 <= k < b implies u[k] != '/' by {
        assert(u[k] == y[k - a - 1]);
    }
    assert(u[b] == '/');
    lemma_first_slash(u, a + 1, b);
    assert forall|k: int| b + 1 <= k < c implies u[k] != '/' by {
        assert(u[k] == host[k - b - 1]);
    }
    if rest.len() == 0 {
        lemma_find_from(u, seq!['/'], b + 1);
        if let Some(j) = find_from(u, seq!['/'], b + 1) {
            lemma_slash_at(u, j);
        }
        assert(u.subrange(b + 1, u.len() as int) =~= host);
    } else {
        assert(u[c] == rest[0]);
        lemma_first_slash(u, b + 1, c);
        assert(u.subrange(b + 1, c) =~= host);
    }
}

/// A URL with fewer than two `/` is its own host.
pub proof fn lemma_hostname_few_slashes(u: Seq<char>)
    requires
        forall|i: int, j: int| 0 <= i < j < u.len() ==> u[i] != '/' || u[j] != '/',
    ensures
        hostname(u) == u,
{
    lemma_find_from(u, seq!['/'], 0);
    if let Some(a) = find_from(u, seq!['/'], 0) {
        lemma_slash_at(u, a);
        lemma_find_from(u, seq!['/'], a + 1);
        if let Some(b) = find_from(u, seq!['/'], a + 1) {
            lemma_slash_at(u, b);
            assert(u[a] != '/' || u[b] != '/');
        }
    }
}

/// The host name of a URL with at least two `/` holds no `/`.
pub proof fn lemma_hostname_has_no_slash(u: Seq<char>)
    requires
        find_from(u, seq!['/'], 0) matches Some(a) && find_from(u, seq!['/'], a + 1) is Some,
    ensures
        forall|k: int| 0 <= k < hostname(u).len() ==> #[trigger] hostname(u)[k] != '/',
{
    let a = find_from(u, seq!['/'], 0)->0;
    let b = find_from(u, seq!['/'], a + 1)->0;
    lemma_find_from(u, seq!['/'], 0);
    lemma_find_from(u, seq!['/'], a + 1);
    lemma_find_from(u, seq!['/'], b + 1);
    let h = hostname(u);
    assert forall|k: int| 0 <= k < h.len() implies #[trigger] h[k] != '/' by {
        assert(h[k] == u[b + 1 + k]);
        if u[b + 1 + k] == '/' {
            assert(matches_at(u, b + 1 + k, seq!['/']));
        }
    }
}

proof fn lemma_trim_start_shape(s: Seq<char>)
    ensures
        trim_start(s).len() > 0 ==> !is_whitespace(trim_start(s)[0]),
    decreases s.len(),
{
    if s.len() > 0 && is_whitespace(s[0]) {
        lemma_trim_start_shape(s.drop_first());
    }
}

proof fn lemma_trim_end_shape(s: Seq<char>)
    ensures
        trim_end(s).len() > 0 ==> !is_whitespace(trim_end(s).last()) && trim_end(s)[0] == s[0],
        trim_end(s).len() <= s.len(),
    decreases s.len(),
{
    if s.len() > 0 && is_whitespace(s.last()) {
        lemma_trim_end_shape(s.drop_last());
    }
}

/// A title found on a page is not empty and neither begins nor ends with
/// whitespace.
pub proof fn lemma_title_is_trimmed(h: Seq<char>)
    ensures
        title_of(h) matches Some(t) ==> t.len() > 0 && !is_whitespace(t[0]) && !is_whitespace(
            t.last(),
        ),
{
    if let Some(start) = find_from(h, tag_open(title_tag()), 0) {
        if let Some(gt) = find_from(h, seq!['>'], start) {
            if let Some(end) = find_from(h, tag_close(title_tag()), gt + 1) {
                let sub = h.subrange(gt + 1, end);
                lemma_trim_start_shape(sub);
                lemma_trim_end_shape(trim_start(sub));
            }
        }
    }
}

/// The page `x<name attrs>inner</name>rest`.
pub open spec fn tagged(
    x: Seq<char>,
    name: Seq<char>,
    attrs: Seq<char>,
    inner: Seq<char>,
    rest: Seq<char>,
) -> Seq<char> {
    x + seq!['<'] + name + attrs + seq!['>'] + inner + seq!['<', '/'] + name + seq!['>'] + rest
}

/// Where the text of the element begins in `tagged(x, name, attrs, ..)`.
pub open spec fn inner_start(x: Seq<char>, name: Seq<char>, attrs: Seq<char>) -> int {
    (x.len() + 1 + name.len() + attrs.len() + 1) as int
}

/// In `tagged(x, name, attrs, inner, rest)`, the element's opening tag is the
/// first `<name` where none starts in `x`, its `>` is the first after that
/// where `attrs` holds none, and its closing tag the first `</name>` after
/// that where none starts inside `inner`.
proof fn lemma_tagged_parts(
    x: Seq<char>,
    name: Seq<char>,
    attrs: Seq<char>,
    inner: Seq<char>,
    rest: Seq<char>,
)
    requires
        forall|k: int| 0 <= k < name.len() ==> 0x61 <= #[trigger] name[k] as u32 <= 0x7a,
    ensures
        ({
            let h = tagged(x, name, attrs, inner, rest);
            let ts = inner_start(x, name, attrs);
            &&& matches_at(h, x.len() as int, tag_open(name))
            &&& matches_at(h, ts - 1, seq!['>'])
            &&& matches_at(h, ts + inner.len(), tag_close(name))
            &&& h.subrange(ts, ts + inner.len()) == inner
            &&& (forall|k: int|
                x.len() <= k < x.len() + 1 + name.len() ==> #[trigger] h[k] != '>')
            &&& (forall|k: int| 0 <= k < attrs.len() ==> #[trigger] h[x.len() + 1 + name.len() + k] == attrs[k])
        }),
{
    let h = tagged(x, name, attrs, inner, rest);
    let xs = x.len() as int;
    let ts = inner_start(x, name, attrs);
    let te = ts + inner.len();
    let op = tag_open(name);
    let cl = tag_close(name);
    assert(h.subrange(xs, xs + op.len()) =~= op);
    lemma_matches_literal(h, xs, op);
    assert(h.subrange(ts - 1, ts) =~= seq!['>']);
    lemma_matches_literal(h, ts - 1, seq!['>']);
    assert(h.subrange(te, te + cl.len()) =~= cl);
    lemma_matches_literal(h, te, cl);
    assert(h.subrange(ts, te) =~= inner);
    assert forall|k: int| xs <= k < xs + 1 + name.len() implies #[trigger] h[k] != '>' by {
        if k > xs {
            assert(h[k] == name[k - xs - 1]);
        }
    }
    assert forall|k: int| 0 <= k < attrs.len() implies #[trigger] h[xs + 1 + name.len() + k] == attrs[k] by {}
}

/// The title of a page `x<title attrs>t</title>rest`, where no `<title`
/// starts in `x`, `attrs` holds no `>` and no `</title>` starts inside `t`,
/// is `t` trimmed, or none where that is empty.
pub proof fn lemma_title_of_page(x: Seq<char>, attrs: Seq<char>, t: Seq<char>, rest: Seq<char>)
    requires
        ({
            let h = tagged(x, seq!['t', 'i', 't', 'l', 'e'], attrs, t, rest);
            let ts = inner_start(x, seq!['t', 'i', 't', 'l', 'e'], attrs);
            &&& forall|k: int| 0 <= k < x.len() ==> !#[trigger] matches_at(h, k, tag_open(title_tag()))
            &&& forall|k: int| 0 <= k < attrs.len() ==> #[trigger] attrs[k] != '>'
            &&& forall|k: int|
                ts <= k < ts + t.len() ==> !#[trigger] matches_at(h, k, tag_close(title_tag()))
        }),
    ensures
        title_of(tagged(x, seq!['t', 'i', 't', 'l', 'e'], attrs, t, rest)) == nonblank(trim(t)),
{
    let name = seq!['t', 'i', 't', 'l', 'e'];
    assert(name =~= title_tag());
    let h = tagged(x, name, attrs, t, rest);
    let xs = x.len() as int;
    let ts = inner_start(x, name, attrs);
    lemma_tagged_parts(x, name, attrs, t, rest);
    lemma_find_first(h, tag_open(title_tag()), 0, xs);
    assert forall|k: int| xs <= k < ts - 1 implies !#[trigger] matches_at(h, k, seq!['>']) by {
        lemma_char_at(h, k, '>');
        if k >= xs + 1 + name.len() {
            assert(h[xs + 1 + name.len() + (k - xs - 1 - name.len())] == attrs[k - xs - 1 - name.len()]);
        }
    }
    lemma_find_first(h, seq!['>'], xs, ts - 1);
    lemma_find_first(h, tag_close(title_tag()), ts, ts + t.len());
}

/// The scan for a closing tag passes over a stretch where no `<tag` and no
/// `</tag>` starts.
proof fn lemma_matching_close_skip(h: Seq<char>, tag: Seq<char>, p: int, q: int, depth: nat)
    requires
        0 <= p <= q < h.len(),
        forall|k: int|
            p <= k < q ==> !#[trigger] matches_at(h, k, tag_open(tag)) && !matches_at(
                h,
                k,
                tag_close(tag),
            ),
    ensures
        matching_close(h, tag, p, depth) == matching_close(h, tag, q, depth),
    decreases q - p,
{
    if p < q {
        assert(!matches_at(h, p, tag_open(tag)) && !matches_at(h, p, tag_close(tag)));
        lemma_matching_close_skip(h, tag, p + 1, q, depth);
    }
}

/// The content of the `name` block of a page `x<name attrs>c</name>rest`,
/// where no `<name` starts in `x`, `attrs` holds no `>`, and neither `<name`
/// nor `</name>` starts inside `c`, is `c`, or none where `c` is empty.
pub proof fn lemma_content_of_block(
    x: Seq<char>,
    name: Seq<char>,
    attrs: Seq<char>,
    c: Seq<char>,
    rest: Seq<char>,
)
    requires
        name.len() > 0,
        forall|k: int| 0 <= k < name.len() ==> 0x61 <= #[trigger] name[k] as u32 <= 0x7a,
        ({
            let h = tagged(x, name, attrs, c, rest);
            let ts = inner_start(x, name, attrs);
            &&& forall|k: int| 0 <= k < x.len() ==> !#[trigger] matches_at(h, k, tag_open(name))
            &&& forall|k: int| 0 <= k < attrs.len() ==> #[trigger] attrs[k] != '>'
            &&& forall|k: int|
                ts <= k < ts + c.len() ==> !#[trigger] matches_at(h, k, tag_open(name))
                    && !matches_at(h, k, tag_close(name))
        }),
    ensures
        content_in(tagged(x, name, attrs, c, rest), name) == if c.len() > 0 {
            Some(c)
        } else {
            None
        },
{
    let h = tagged(x, name, attrs, c, rest);
    let xs = x.len() as int;
    let ts = inner_start(x, name, attrs);
    let te = ts + c.len();
    lemma_tagged_parts(x, name, attrs, c, rest);
    lemma_find_first(h, tag_open(name), 0, xs);
    assert forall|k: int| xs <= k < ts - 1 implies !#[trigger] matches_at(h, k, seq!['>']) by {
        lemma_char_at(h, k, '>');
        if k >= xs + 1 + name.len() {
            assert(h[xs + 1 + name.len() + (k - xs - 1 - name.len())] == attrs[k - xs - 1
                - name.len()]);
        }
    }
    lemma_find_first(h, seq!['>'], xs, ts - 1);
    assert(te + tag_close(name).len() <= h.len());
    lemma_matching_close_skip(h, name, ts, te, 0);
    assert(!matches_at(h, te, tag_open(name))) by {
        assert(h[te + 1] == '/');
        assert(tag_open(name)[1] == name[0]);
        assert(0x61 <= name[0] as u32 <= 0x7a);
        assert(fold(h[te + 1]) != fold(tag_open(name)[1]));
    }
    assert(matching_close(h, name, te, 0) == Some(te));
    assert(block_end(h, name, ts) == Some(te));
}

/// The main content of a page `x<article attrs>c</article>rest`, where no
/// `<article` starts in `x`, `attrs` holds no `>`, neither `<article` nor
/// `</article>` starts inside `c`, and `c` is not empty, is `c`.
pub proof fn lemma_article_is_content(x: Seq<char>, attrs: Seq<char>, c: Seq<char>, rest: Seq<char>)
    requires
        c.len() > 0,
        ({
            let name = seq!['a', 'r', 't', 'i', 'c', 'l', 'e'];
            let h = tagged(x, name, attrs, c, rest);
            let ts = inner_start(x, name, attrs);
            &&& forall|k: int| 0 <= k < x.len() ==> !#[trigger] matches_at(h, k, tag_open(article_tag()))
            &&& forall|k: int| 0 <= k < attrs.len() ==> #[trigger] attrs[k] != '>'
            &&& forall|k: int|
                ts <= k < ts + c.len() ==> !#[trigger] matches_at(h, k, tag_open(article_tag()))
                    && !matches_at(h, k, tag_close(article_tag()))
        }),
    ensures
        content_of(tagged(x, seq!['a', 'r', 't', 'i', 'c', 'l', 'e'], attrs, c, rest)) == c,
{
    let name = seq!['a', 'r', 't', 'i', 'c', 'l', 'e'];
    assert(name =~= article_tag());
    assert forall|k: int| 0 <= k < name.len() implies 0x61 <= #[trigger] name[k] as u32 <= 0x7a by {}
    lemma_content_of_block(x, name, attrs, c, rest);
}

/// Stripping a page `x<script attrs>y</script>z` removes the element and
/// keeps the text around it, `x` then `z`, where no `<script` starts in `x`,
/// no `</script>` starts from the opening tag up to the closing one, and the
/// text around holds no `<script` and no `<style`.
pub proof fn lemma_strip_one_script(x: Seq<char>, attrs: Seq<char>, y: Seq<char>, z: Seq<char>)
    requires
        ({
            let name = seq!['s', 'c', 'r', 'i', 'p', 't'];
            let h = tagged(x, name, attrs, y, z);
            let te = inner_start(x, name, attrs) + y.len();
            &&& forall|k: int| 0 <= k < x.len() ==> !#[trigger] matches_at(h, k, tag_open(script_tag()))
            &&& forall|k: int|
                x.len() <= k < te ==> !#[trigger] matches_at(h, k, tag_close(script_tag()))
            &&& forall|k: int| !#[trigger] matches_at(x + z, k, tag_open(script_tag()))
            &&& forall|k: int| !#[trigger] matches_at(x + z, k, tag_open(style_tag()))
        }),
    ensures
        stripped(tagged(x, seq!['s', 'c', 'r', 'i', 'p', 't'], attrs, y, z)) == x + z,
{
    let name = seq!['s', 'c', 'r', 'i', 'p', 't'];
    assert(name =~= script_tag());
    assert forall|k: int| 0 <= k < name.len() implies 0x61 <= #[trigger] name[k] as u32 <= 0x7a by {}
    let h = tagged(x, name, attrs, y, z);
    let xs = x.len() as int;
    let te = inner_start(x, name, attrs) + y.len();
    lemma_tagged_parts(x, name, attrs, y, z);
    lemma_find_first(h, tag_open(name), 0, xs);
    lemma_find_first(h, tag_close(name), xs, te);
    assert(cut(h, xs, te + tag_close(name).len()) =~= x + z);
    assert(strip_tag(h, name) == strip_tag(x + z, name));
    lemma_strip_tag_absent(x + z, name);
    lemma_strip_tag_absent(x + z, style_tag());
}

/// A title found on a page neither begins nor ends with Unicode
/// `White_Space` (what `char::is_whitespace` holds of), given by code point:
/// U+0009 to U+000D (tab, line feed, vertical tab, form feed, carriage
/// return), U+0020, U+0085, U+00A0, U+1680, U+2000 to U+200A, U+2028,
/// U+2029, U+202F, U+205F and U+3000.
pub proof fn lemma_title_has_no_edge_white_space(h: Seq<char>)
    ensures
        title_of(h) matches Some(t) ==> t.len() > 0 && forall|c: char|
            #![trigger c as u32]
            (c == t[0] || c == t.last()) ==> {
                let u = c as u32;
                &&& !(0x9 <= u <= 0xd)
                &&& u != 0x20
                &&& u != 0x85
                &&& u != 0xa0
                &&& u != 0x1680
                &&& !(0x2000 <= u <= 0x200a)
                &&& u != 0x2028
                &&& u != 0x2029
                &&& u != 0x202f
                &&& u != 0x205f
                &&& u != 0x3000
            },
{
    lemma_title_is_trimmed(h);
    if let Some(t) = title_of(h) {
        lemma_whitespace_code_points(t[0]);
        lemma_whitespace_code_points(t.last());
    }
}

/// The content of a tag block ends where the whole closing tag `</tag>`
/// stands: right after the content, each character of `</tag>` follows, by
/// code point, or, for an ASCII letter, as the same letter in the other
/// case.
pub proof fn lemma_content_ends_at_close_tag(h: Seq<char>, tag: Seq<char>)
    ensures
        content_in(h, tag) matches Some(c) ==> exists|a: int|
            {
                &&& 0 <= a
                &&& a + c.len() + tag_close(tag).len() <= h.len()
                &&& #[trigger] h.subrange(a, a + c.len()) == c
                &&& forall|k: int|
                    0 <= k < tag_close(tag).len() ==> {
                        let x = (#[trigger] h[a + c.len() + k]) as u32;
                        let y = tag_close(tag)[k] as u32;
                        ||| x == y
                        ||| 0x41 <= x <= 0x5a && y == x + 32
                        ||| 0x41 <= y <= 0x5a && x == y + 32
                    }
            },
{
    if let Some(c) = content_in(h, tag) {
        let start = find_from(h, tag_open(tag), 0)->0;
        let gt = find_from(h, seq!['>'], start)->0;
        let end = block_end(h, tag, gt + 1)->0;
        lemma_find_from(h, tag_open(tag), 0);
        lemma_find_from(h, seq!['>'], start);
        lemma_matching_close(h, tag, gt + 1, 0);
        lemma_find_last(h, tag_close(tag), h.len() - tag_close(tag).len());
        assert(matches_at(h, end, tag_close(tag)));
        assert(c == h.subrange(gt + 1, end));
        lemma_match_is_whole_pattern(h, end, tag_close(tag));
        let a = gt + 1;
        assert(a + c.len() == end);
        assert(h.subrange(a, a + c.len()) == c);
    }
}

/// A `strip_tag` on a text in which no `<tag` occurs changes nothing.
proof fn lemma_strip_tag_absent(s: Seq<char>, tag: Seq<char>)
    requires
        forall|i: int| !#[trigger] matches_at(s, i, tag_open(tag)),
    ensures
        strip_tag(s, tag) == s,
{
    lemma_find_from(s, tag_open(tag), 0);
}

/// Stripping removes only script and style elements: a text in which no
/// `<script` and no `<style` occurs (in any ASCII case) comes back unchanged.
pub proof fn lemma_strip_keeps_other_text(h: Seq<char>)
    requires
        forall|i: int|
            0 <= i < h.len() ==> !matches_at(#[trigger] h.skip(i), 0, seq!['<', 's', 'c', 'r', 'i', 'p', 't']),
        forall|i: int|
            0 <= i < h.len() ==> !matches_at(#[trigger] h.skip(i), 0, seq!['<', 's', 't', 'y', 'l', 'e']),
    ensures
        stripped(h) == h,
{
    let script = seq!['<', 's', 'c', 'r', 'i', 'p', 't'];
    let style = seq!['<', 's', 't', 'y', 'l', 'e'];
    assert(tag_open(script_tag()) =~= script);
    assert(tag_open(style_tag()) =~= style);
    assert forall|i: int| !#[trigger] matches_at(h, i, tag_open(script_tag())) by {
        if matches_at(h, i, script) {
            assert(matches_at(h.skip(i), 0, script)) by {
                assert forall|k: int| 0 <= k < script.len() implies #[trigger] h.skip(i)[0 + k] == h[i + k] by {}
            }
        }
    }
    assert forall|i: int| !#[trigger] matches_at(h, i, tag_open(style_tag())) by {
        if matches_at(h, i, style) {
            assert(matches_at(h.skip(i), 0, style)) by {
                assert forall|k: int| 0 <= k < style.len() implies #[trigger] h.skip(i)[0 + k] == h[i + k] by {}
            }
        }
    }
    lemma_strip_tag_absent(h, script_tag());
    lemma_strip_tag_absent(h, style_tag());
}

/// The content picked from a page is a stretch of the page's text.
pub proof fn lemma_content_is_part(h: Seq<char>)
    ensures
        exists|a: int, b: int| 0 <= a <= b <= h.len() && content_of(h) == h.subrange(a, b),
{
    assert forall|tag: Seq<char>| #[trigger] content_in(h, tag) is Some implies exists|
        a: int,
        b: int,
    | 0 <= a <= b <= h.len() && content_in(h, tag)->0 == h.subrange(a, b) by {
        let start = find_from(h, tag_open(tag), 0)->0;
        let gt = find_from(h, seq!['>'], start)->0;
        let end = block_end(h, tag, gt + 1)->0;
        lemma_find_from(h, tag_open(tag), 0);
        lemma_find_from(h, seq!['>'], start);
        lemma_matching_close(h, tag, gt + 1, 0);
        lemma_find_last(h, tag_close(tag), h.len() - tag_close(tag).len());
        assert(content_in(h, tag) == Some(h.subrange(gt + 1, end)));
    }
    assert(h == h.subrange(0, h.len() as int));
    if let Some(c) = content_in(h, article_tag()) {
    } else if let Some(c) = content_in(h, main_tag()) {
    } else if let Some(c) = content_in(h, body_tag()) {
    } else {
    }
}

/// `e` begins with `p`.
pub open spec fn starts_with(e: Seq<char>, p: Seq<char>) -> bool {
    p.len() <= e.len() && e.take(p.len() as int) == p
}

/// One of the four entities that escaping writes begins at position `k`.
pub open spec fn entity_at(e: Seq<char>, k: int) -> bool {
    let rest = e.skip(k);
    ||| starts_with(rest, amp_entity())
    ||| starts_with(rest, lt_entity())
    ||| starts_with(rest, gt_entity())
    ||| starts_with(rest, quot_entity())
}

/// Decoding escaped text from left to right: each `&amp;`, `&lt;`, `&gt;`
/// and `&quot;` becomes the character it stands for; every other character
/// stays.
pub open spec fn unescape(e: Seq<char>) -> Seq<char>
    decreases e.len(),
{
    if e.len() == 0 {
        Seq::empty()
    } else if starts_with(e, amp_entity()) {
        seq!['&'] + unescape(e.skip(5))
    } else if starts_with(e, lt_entity()) {
        seq!['<'] + unescape(e.skip(4))
    } else if starts_with(e, gt_entity()) {
        seq!['>'] + unescape(e.skip(4))
    } else if starts_with(e, quot_entity()) {
        seq!['"'] + unescape(e.skip(6))
    } else {
        seq![e[0]] + unescape(e.skip(1))
    }
}

/// Escaping a concatenation escapes each part.
pub proof fn lemma_escape_concat(a: Seq<char>, b: Seq<char>)
    ensures
        escape(a + b) == escape(a) + escape(b),
    decreases b.len(),
{
    if b.len() == 0 {
        assert(a + b =~= a);
        assert(escape(a) + escape(b) =~= escape(a));
    } else {
        lemma_escape_concat(a, b.drop_last());
        assert((a + b).drop_last() =~= a + b.drop_last());
        assert((a + b).last() == b.last());
        assert(escape(a) + escape(b.drop_last()) + escape_char(b.last()) =~= escape(a) + (escape(
            b.drop_last(),
        ) + escape_char(b.last())));
    }
}

proof fn lemma_unescape_step(c: char, rest: Seq<char>)
    ensures
        unescape(escape_char(c) + rest) == seq![c] + unescape(rest),
{
    let e = escape_char(c) + rest;
    if c == '&' {
        assert(e.take(5) =~= amp_entity());
        assert(e.skip(5) =~= rest);
    } else if c == '<' {
        assert(e[1] == 'l');
        assert(!starts_with(e, amp_entity())) by {
            if starts_with(e, amp_entity()) {
                assert(e.take(5)[1] == 'a');
            }
        }
        assert(e.take(4) =~= lt_entity());
        assert(e.skip(4) =~= rest);
    } else if c == '>' {
        assert(e[1] == 'g');
        assert(!starts_with(e, amp_entity())) by {
            if starts_with(e, amp_entity()) {
                assert(e.take(5)[1] == 'a');
            }
        }
        assert(!starts_with(e, lt_entity())) by {
            if starts_with(e, lt_entity()) {
                assert(e.take(4)[1] == 'l');
            }
        }
        assert(e.take(4) =~= gt_entity());
        assert(e.skip(4) =~= rest);
    } else if c == '"' {
        assert(e[1] == 'q');
        assert(!starts_with(e, amp_entity())) by {
            if starts_with(e, amp_entity()) {
                assert(e.take(5)[1] == 'a');
            }
        }
        assert(!starts_with(e, lt_entity())) by {
            if starts_with(e, lt_entity()) {
                assert(e.take(4)[1] == 'l');
            }
        }
        assert(!starts_with(e, gt_entity())) by {
            if starts_with(e, gt_entity()) {
                assert(e.take(4)[1] == 'g');
            }
        }
        assert(e.take(6) =~= quot_entity());
        assert(e.skip(6) =~= rest);
    } else {
        assert(e[0] == c);
        assert(!starts_with(e, amp_entity())) by {
            if starts_with(e, amp_entity()) {
                assert(e.take(5)[0] == '&');
            }
        }
        assert(!starts_with(e, lt_entity())) by {
            if starts_with(e, lt_entity()) {
                assert(e.take(4)[0] == '&');
            }
        }
        assert(!starts_with(e, gt_entity())) by {
            if starts_with(e, gt_entity()) {
                assert(e.take(4)[0] == '&');
            }
        }
        assert(!starts_with(e, quot_entity())) by {
            if starts_with(e, quot_entity()) {
                assert(e.take(6)[0] == '&');
            }
        }
        assert(e.skip(1) =~= rest);
    }
}

/// Escaping can be undone: decoding the entities of escaped text gives the
/// text back.
pub proof fn lemma_unescape_escape(s: Seq<char>)
    ensures
        unescape(escape(s)) == s,
    decreases s.len(),
{
    if s.len() == 0 {
    } else {
        let x = s[0];
        let t = s.drop_first();
        assert(seq![x] + t =~= s);
        lemma_escape_concat(seq![x], t);
        assert(seq![x].drop_last() =~= Seq::<char>::empty());
        assert(seq![x].last() == x);
        assert(escape(Seq::<char>::empty()) == Seq::<char>::empty());
        assert(Seq::<char>::empty() + escape_char(x) =~= escape_char(x));
        assert(escape(seq![x]) =~= escape_char(x));
        lemma_unescape_step(x, escape(t));
        lemma_unescape_escape(t);
    }
}

/// In escaped text every `&` begins one of the entities `&amp;`, `&lt;`,
/// `&gt;` or `&quot;`.
#[verifier::spinoff_prover]
#[verifier::rlimit(40)]
pub proof fn lemma_escape_ampersands(s: Seq<char>)
    ensures
        forall|k: int|
            0 <= k < escape(s).len() && #[trigger] escape(s)[k] == '&' ==> entity_at(escape(s), k),
    decreases s.len(),
{
    if s.len() > 0 {
        let d = s.drop_last();
        let a = escape(d);
        let b = escape_char(s.last());
        let e = escape(s);
        lemma_escape_ampersands(d);
        assert(e == a + b);
        assert forall|k: int| 0 <= k < e.len() && #[trigger] e[k] == '&' implies entity_at(e, k) by {
            if k < a.len() {
                assert(a[k] == '&');
                assert(entity_at(a, k));
                let ra = a.skip(k);
                let re = e.skip(k);
                assert forall|m: int| 0 <= m < ra.len() implies re[m] == ra[m] by {
                    assert(re[m] == e[k + m]);
                    assert(e[k + m] == a[k + m]);
                }
                if starts_with(ra, amp_entity()) {
                    assert(re.take(5) =~= ra.take(5));
                } else if starts_with(ra, lt_entity()) {
                    assert(re.take(4) =~= ra.take(4));
                } else if starts_with(ra, gt_entity()) {
                    assert(re.take(4) =~= ra.take(4));
                } else {
                    assert(re.take(6) =~= ra.take(6));
                }
            } else {
                let c = s.last();
                assert(b[k - a.len()] == '&');
                assert(e.skip(k) =~= b.skip(k - a.len()));
                if c == '&' || c == '<' || c == '>' || c == '"' {
                    assert(k == a.len());
                    assert(b.skip(0) =~= b);
                    assert(b.take(b.len() as int) =~= b);
                } else {
                    assert(b =~= seq![c]);
                }
            }
        }
    }
}

/// Text with no `&`, `<`, `>` or `"` is its own escape.
pub proof fn lemma_escape_plain(s: Seq<char>)
    requires
        forall|k: int|
            0 <= k < s.len() ==> {
                let c = #[trigger] s[k];
                c != '&' && c != '<' && c != '>' && c != '"'
            },
    ensures
        escape(s) == s,
    decreases s.len(),
{
    if s.len() > 0 {
        let d = s.drop_last();
        assert forall|k: int| 0 <= k < d.len() implies {
            let c = #[trigger] d[k];
            c != '&' && c != '<' && c != '>' && c != '"'
        } by {
            assert(d[k] == s[k]);
        }
        lemma_escape_plain(d);
        let c = s[s.len() - 1];
        assert(escape_char(c) =~= seq![c]);
        assert(d.push(c) =~= s);
    }
}

/// Replacing in `s`, from left to right, each occurrence of `pat` by `rep`;
/// occurrences do not overlap, and the text put in is not searched again.
pub open spec fn replace_all(s: Seq<char>, pat: Seq<char>, rep: Seq<char>) -> Seq<char>
    decreases s.len(),
{
    if s.len() == 0 {
        Seq::empty()
    } else if pat.len() > 0 && starts_with(s, pat) {
        rep + replace_all(s.skip(pat.len() as int), pat, rep)
    } else {
        seq![s[0]] + replace_all(s.skip(1), pat, rep)
    }
}

/// The entity that the `k`-th replacement of the decoding turns back into
/// its character: `&quot;`, then `&gt;`, then `&lt;`, then `&amp;`.
spec fn decode_pattern(k: nat) -> Seq<char> {
    if k == 0 {
        quot_entity()
    } else if k == 1 {
        gt_entity()
    } else if k == 2 {
        lt_entity()
    } else {
        amp_entity()
    }
}

/// The character that the `k`-th replacement puts back.
spec fn decode_char(k: nat) -> char {
    if k == 0 {
        '"'
    } else if k == 1 {
        '>'
    } else if k == 2 {
        '<'
    } else {
        '&'
    }
}

/// What stands for `c` once the first `k` replacements are done.
spec fn decoded_piece(k: nat, c: char) -> Seq<char> {
    if (c == '"' && k >= 1) || (c == '>' && k >= 2) || (c == '<' && k >= 3) || (c == '&' && k
        >= 4) {
        seq![c]
    } else {
        escape_char(c)
    }
}

/// The escape of `s` once the first `k` replacements are done.
spec fn decoded(k: nat, s: Seq<char>) -> Seq<char>
    decreases s.len(),
{
    if s.len() == 0 {
        Seq::empty()
    } else {
        decoded_piece(k, s[0]) + decoded(k, s.drop_first())
    }
}

/// Text without `&` passes a replacement of a pattern that begins with `&`
/// unchanged.
proof fn lemma_replace_plain_prefix(x: Seq<char>, f: Seq<char>, pat: Seq<char>, rep: Seq<char>)
    requires
        pat.len() > 0,
        pat[0] == '&',
        forall|i: int| 0 <= i < x.len() ==> x[i] != '&',
    ensures
        replace_all(x + f, pat, rep) == x + replace_all(f, pat, rep),
    decreases x.len(),
{
    if x.len() > 0 {
        let e = x + f;
        assert(!starts_with(e, pat)) by {
            if starts_with(e, pat) {
                assert(e.take(pat.len() as int)[0] == e[0]);
            }
        }
        assert(e.skip(1) =~= x.skip(1) + f);
        lemma_replace_plain_prefix(x.skip(1), f, pat, rep);
        assert(seq![x[0]] + x.skip(1) =~= x);
        assert(seq![x[0]] + (x.skip(1) + replace_all(f, pat, rep)) =~= x + replace_all(
            f,
            pat,
            rep,
        ));
    }
}

/// One replacement step: the `k`-th replacement turns the text after `k`
/// replacements into the text after `k + 1`.
proof fn lemma_decode_step(k: nat, s: Seq<char>)
    requires
        k < 4,
    ensures
        replace_all(decoded(k, s), decode_pattern(k), seq![decode_char(k)]) == decoded(k + 1, s),
    decreases s.len(),
{
    let pat = decode_pattern(k);
    let rep = seq![decode_char(k)];
    if s.len() > 0 {
        let c = s[0];
        let rest = s.drop_first();
        let p = decoded_piece(k, c);
        let f = decoded(k, rest);
        let e = p + f;
        lemma_decode_step(k, rest);
        assert(decoded(k, s) == e);
        if p == pat {
            assert(e.take(pat.len() as int) =~= pat);
            assert(e.skip(pat.len() as int) =~= f);
            assert(decoded_piece((k + 1) as nat, c) == rep);
        } else {
            assert(decoded_piece((k + 1) as nat, c) == p);
            assert(p.len() > 0);
            assert(forall|i: int| 1 <= i < p.len() ==> p[i] != '&');
            assert(p[0] == '&' ==> p.len() >= 2 && p[1] != pat[1]);
            assert(!starts_with(e, pat)) by {
                if starts_with(e, pat) {
                    assert(e.take(pat.len() as int)[0] == e[0]);
                    assert(e.take(pat.len() as int)[1] == e[1]);
                }
            }
            assert(e.skip(1) =~= p.skip(1) + f);
            lemma_replace_plain_prefix(p.skip(1), f, pat, rep);
            assert(seq![p[0]] + (p.skip(1) + replace_all(f, pat, rep)) =~= p + replace_all(
                f,
                pat,
                rep,
            ));
        }
    }
}

/// Before any replacement the text is the escape.
proof fn lemma_decoded_start(s: Seq<char>)
    ensures
        decoded(0, s) == escape(s),
    decreases s.len(),
{
    if s.len() > 0 {
        let x = s[0];
        let t = s.drop_first();
        assert(seq![x] + t =~= s);
        lemma_escape_concat(seq![x], t);
        assert(seq![x].drop_last() =~= Seq::<char>::empty());
        assert(escape(Seq::<char>::empty()) == Seq::<char>::empty());
        assert(Seq::<char>::empty() + escape_char(x) =~= escape_char(x));
        assert(escape(seq![x]) =~= escape_char(x));
        lemma_decoded_start(t);
    }
}

/// After all four replacements the text is back.
proof fn lemma_decoded_end(s: Seq<char>)
    ensures
        decoded(4, s) == s,
    decreases s.len(),
{
    if s.len() > 0 {
        lemma_decoded_end(s.drop_first());
        assert(decoded_piece(4, s[0]) =~= seq![s[0]]);
        assert(seq![s[0]] + s.drop_first() =~= s);
    }
}

/// Escaping is undone by four replacements, in this order: `&quot;` by `"`,
/// `&gt;` by `>`, `&lt;` by `<`, and last `&amp;` by `&`.
pub proof fn lemma_replacements_undo_escape(s: Seq<char>)
    ensures
        replace_all(
            replace_all(
                replace_all(
                    replace_all(escape(s), seq!['&', 'q', 'u', 'o', 't', ';'], seq!['"']),
                    seq!['&', 'g', 't', ';'],
                    seq!['>'],
                ),
                seq!['&', 'l', 't', ';'],
                seq!['<'],
            ),
            seq!['&', 'a', 'm', 'p', ';'],
            seq!['&'],
        ) == s,
{
    assert(quot_entity() =~= seq!['&', 'q', 'u', 'o', 't', ';']);
    assert(gt_entity() =~= seq!['&', 'g', 't', ';']);
    assert(lt_entity() =~= seq!['&', 'l', 't', ';']);
    assert(amp_entity() =~= seq!['&', 'a', 'm', 'p', ';']);
    lemma_decoded_start(s);
    lemma_decode_step(0, s);
    lemma_decode_step(1, s);
    lemma_decode_step(2, s);
    lemma_decode_step(3, s);
    lemma_decoded_end(s);
}


} // verus!
