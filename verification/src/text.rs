//! Character-level text helpers: conversions between strings and character
//! vectors, decimal rendering, searching and whitespace trimming.
use vstd::prelude::*;

verus! {

/// Appends one character to a string (`String::push`): the string's
/// characters become the old ones followed by `c`.
#[verifier::external_body]
pub(crate) fn push_char(s: &mut String, c: char)
    ensures
        final(s)@ == old(s)@.push(c),
{
    s.push(c);
}

/// The characters of a string slice, in order.
pub fn chars_of(s: &str) -> (v: Vec<char>)
    ensures
        v@ == s@,
{
    let mut v: Vec<char> = Vec::new();
    for c in it: s.chars()
        invariant
            v@ == it.seq().take(it.index() as int),
    {
        v.push(c);
    }
    v
}

/// Appends the characters `v[from..to]` to `s`.
pub fn push_range(s: &mut String, v: &Vec<char>, from: usize, to: usize)
    requires
        from <= to <= v.len(),
    ensures
        final(s)@ == old(s)@ + v@.subrange(from as int, to as int),
{
    let ghost start = s@;
    let mut i = from;
    while i < to
        invariant
            from <= i <= to <= v.len(),
            s@ == start + v@.subrange(from as int, i as int),
        decreases to - i,
    {
        push_char(s, v[i]);
        assert(v@.subrange(from as int, i as int).push(v@[i as int]) =~= v@.subrange(
            from as int,
            i + 1,
        ));
        i = i + 1;
    }
}

/// Appends the characters of `v` to `s`.
pub fn push_chars(s: &mut String, v: &Vec<char>)
    ensures
        final(s)@ == old(s)@ + v@,
{
    push_range(s, v, 0, v.len());
    assert(v@.subrange(0, v@.len() as int) =~= v@);
}

/// The string whose characters are those of `v`.
pub fn string_of(v: &Vec<char>) -> (s: String)
    ensures
        s@ == v@,
{
    let mut s = String::new();
    push_range(&mut s, v, 0, v.len());
    assert(v@.subrange(0, v@.len() as int) =~= v@);
    s
}

/// The string whose characters are `v[from..to]`.
pub fn string_of_range(v: &Vec<char>, from: usize, to: usize) -> (s: String)
    requires
        from <= to <= v.len(),
    ensures
        s@ == v@.subrange(from as int, to as int),
{
    let mut s = String::new();
    push_range(&mut s, v, from, to);
    assert(Seq::<char>::empty() + v@.subrange(from as int, to as int) =~= v@.subrange(
        from as int,
        to as int,
    ));
    s
}

// ── Decimal rendering ───────────────────────────────────────────────────────

/// The character of a decimal digit.
pub open spec fn digit_char(d: nat) -> char {
    if d == 0 {
        '0'
    } else if d == 1 {
        '1'
    } else if d == 2 {
        '2'
    } else if d == 3 {
        '3'
    } else if d == 4 {
        '4'
    } else if d == 5 {
        '5'
    } else if d == 6 {
        '6'
    } else if d == 7 {
        '7'
    } else if d == 8 {
        '8'
    } else {
        '9'
    }
}

/// The decimal rendering of a natural number, without leading zeros.
pub open spec fn decimal(n: nat) -> Seq<char>
    decreases n,
{
    if n < 10 {
        seq![digit_char(n)]
    } else {
        decimal(n / 10).push(digit_char(n % 10))
    }
}

fn digit(d: u32) -> (c: char)
    requires
        d < 10,
    ensures
        c == digit_char(d as nat),
{
    if d == 0 {
        '0'
    } else if d == 1 {
        '1'
    } else if d == 2 {
        '2'
    } else if d == 3 {
        '3'
    } else if d == 4 {
        '4'
    } else if d == 5 {
        '5'
    } else if d == 6 {
        '6'
    } else if d == 7 {
        '7'
    } else if d == 8 {
        '8'
    } else {
        '9'
    }
}

/// Appends the decimal rendering of `n` to `s`.
pub fn push_decimal(s: &mut String, n: u32)
    ensures
        final(s)@ == old(s)@ + decimal(n as nat),
    decreases n,
{
    if n >= 10 {
        push_decimal(s, n / 10);
    }
    push_char(s, digit(n % 10));
    assert(old(s)@ + decimal(n as nat) =~= if n >= 10 {
        old(s)@ + decimal((n / 10) as nat) + seq![digit_char((n % 10) as nat)]
    } else {
        old(s)@ + seq![digit_char((n % 10) as nat)]
    });
}

/// The value of a numeral: its characters read as base-10 digits, each
/// worth its distance from `'0'`.
pub open spec fn numeral_value(s: Seq<char>) -> int
    decreases s.len(),
{
    if s.len() == 0 {
        0
    } else {
        numeral_value(s.drop_last()) * 10 + (s.last() as int - '0' as int)
    }
}

/// The character of digit `d` is `'0' + d`.
pub proof fn lemma_digit_char_value(d: nat)
    requires
        d < 10,
    ensures
        digit_char(d) as int == '0' as int + d,
{
}

/// The decimal rendering of `n` is its base-10 numeral: it is not empty,
/// every character is one of `'0'` to `'9'`, it begins with `'0'` only for
/// zero, and read back as a base-10 number it gives `n`.
pub proof fn lemma_decimal_reads_back(n: nat)
    ensures
        decimal(n).len() > 0,
        forall|k: int| 0 <= k < decimal(n).len() ==> '0' <= #[trigger] decimal(n)[k] <= '9',
        decimal(n)[0] == '0' ==> n == 0,
        numeral_value(decimal(n)) == n,
    decreases n,
{
    if n < 10 {
        lemma_digit_char_value(n);
        assert(decimal(n).drop_last() =~= Seq::<char>::empty());
        assert(numeral_value(Seq::<char>::empty()) == 0);
        assert(numeral_value(decimal(n)) == numeral_value(decimal(n).drop_last()) * 10 + (
        decimal(n).last() as int - '0' as int));
    } else {
        let q = (n / 10) as nat;
        let r = (n % 10) as nat;
        lemma_decimal_reads_back(q);
        lemma_digit_char_value(r);
        let d = decimal(n);
        assert(d == decimal(q).push(digit_char(r)));
        assert(d.drop_last() =~= decimal(q));
        assert(d[0] == decimal(q)[0]);
        assert forall|k: int| 0 <= k < d.len() implies '0' <= #[trigger] d[k] <= '9' by {
            if k < decimal(q).len() {
                assert(d[k] == decimal(q)[k]);
            }
        }
        assert(d.last() == digit_char(r));
        assert(numeral_value(d) == numeral_value(decimal(q)) * 10 + (digit_char(r) as int
            - '0' as int));
        assert(q * 10 + r == n);
    }
}

/// Different numbers have different decimal renderings.
pub proof fn lemma_decimal_injective(a: nat, b: nat)
    ensures
        decimal(a) == decimal(b) ==> a == b,
{
    lemma_decimal_reads_back(a);
    lemma_decimal_reads_back(b);
}

// ── Searching ───────────────────────────────────────────────────────────────

/// ASCII case folding of one character, as a code point: upper-case ASCII
/// letters map to their lower-case code point, every other character to its
/// own.
pub open spec fn fold(c: char) -> u32 {
    if 'A' <= c && c <= 'Z' {
        (c as u32 + 32) as u32
    } else {
        c as u32
    }
}

fn fold_exec(c: char) -> (r: u32)
    ensures
        r == fold(c),
{
    if 'A' <= c && c <= 'Z' {
        c as u32 + 32
    } else {
        c as u32
    }
}

/// `p` occurs in `s` at position `i`, letters compared without regard to
/// ASCII case.
pub open spec fn matches_at(s: Seq<char>, i: int, p: Seq<char>) -> bool {
    &&& 0 <= i
    &&& i + p.len() <= s.len()
    &&& forall|k: int| 0 <= k < p.len() ==> #[trigger] fold(s[i + k]) == fold(p[k])
}

/// A match is the whole pattern: `p` matches at `i` exactly where the
/// characters `s[i..i + |p|]` are there and each has the code point of the
/// character of `p` at the same place, or, for ASCII letters (`A` to `Z` are
/// U+0041 to U+005A, `a` to `z` 32 higher), that of the same letter in the
/// other case.
pub proof fn lemma_match_is_whole_pattern(s: Seq<char>, i: int, p: Seq<char>)
    ensures
        matches_at(s, i, p) <==> {
            &&& 0 <= i
            &&& i + p.len() <= s.len()
            &&& forall|k: int|
                0 <= k < p.len() ==> {
                    let c = (#[trigger] s[i + k]) as u32;
                    let d = p[k] as u32;
                    ||| c == d
                    ||| 0x41 <= c <= 0x5a && d == c + 32
                    ||| 0x41 <= d <= 0x5a && c == d + 32
                }
        },
{
    assert forall|k: int| 0 <= k < p.len() implies (fold(#[trigger] s[i + k]) == fold(p[k])) <==> {
        let c = s[i + k] as u32;
        let d = p[k] as u32;
        ||| c == d
        ||| 0x41 <= c <= 0x5a && d == c + 32
        ||| 0x41 <= d <= 0x5a && c == d + 32
    } by {
        lemma_fold_eq(s[i + k], p[k]);
    }
}

proof fn lemma_fold_eq(c: char, d: char)
    ensures
        (fold(c) == fold(d)) <==> {
            let x = c as u32;
            let y = d as u32;
            ||| x == y
            ||| 0x41 <= x <= 0x5a && y == x + 32
            ||| 0x41 <= y <= 0x5a && x == y + 32
        },
{
}

/// The first position at or after `from` where `p` occurs in `s`
/// (ASCII case-insensitively).
pub open spec fn find_from(s: Seq<char>, p: Seq<char>, from: int) -> Option<int>
    decreases s.len() - from,
{
    if from < 0 || from + p.len() > s.len() {
        None
    } else if matches_at(s, from, p) {
        Some(from)
    } else {
        find_from(s, p, from + 1)
    }
}

/// The last position at or before `i` where `p` occurs in `s`
/// (ASCII case-insensitively).
pub open spec fn find_last(s: Seq<char>, p: Seq<char>, i: int) -> Option<int>
    decreases i + 1,
{
    if i < 0 {
        None
    } else if matches_at(s, i, p) {
        Some(i)
    } else {
        find_last(s, p, i - 1)
    }
}

/// The last position where `p` occurs in `s` (ASCII case-insensitively).
pub open spec fn rfind(s: Seq<char>, p: Seq<char>) -> Option<int> {
    find_last(s, p, s.len() - p.len())
}

/// What a backwards search result says: a hit matches, and no later position
/// up to `i` matches.
pub proof fn lemma_find_last(s: Seq<char>, p: Seq<char>, i: int)
    ensures
        match find_last(s, p, i) {
            Some(j) => 0 <= j <= i && matches_at(s, j, p) && (forall|k: int|
                j < k <= i ==> !matches_at(s, k, p)),
            None => forall|k: int| k <= i ==> !matches_at(s, k, p),
        },
    decreases i + 1,
{
    if i < 0 {
    } else if matches_at(s, i, p) {
    } else {
        lemma_find_last(s, p, i - 1);
    }
}

/// What a search result says: a hit lies in range and matches, and no earlier
/// position from `from` on matches.
pub proof fn lemma_find_from(s: Seq<char>, p: Seq<char>, from: int)
    requires
        0 <= from,
    ensures
        match find_from(s, p, from) {
            Some(i) => from <= i && matches_at(s, i, p) && (forall|j: int|
                from <= j < i ==> !matches_at(s, j, p)),
            None => forall|j: int| from <= j ==> !matches_at(s, j, p),
        },
    decreases s.len() - from,
{
    if from + p.len() > s.len() {
    } else if matches_at(s, from, p) {
    } else {
        lemma_find_from(s, p, from + 1);
    }
}

/// The search from `from` finds `at` where `p` matches at `at` and nowhere
/// from `from` before it.
pub proof fn lemma_find_first(s: Seq<char>, p: Seq<char>, from: int, at: int)
    requires
        0 <= from <= at,
        matches_at(s, at, p),
        forall|k: int| from <= k < at ==> !#[trigger] matches_at(s, k, p),
    ensures
        find_from(s, p, from) == Some(at),
{
    lemma_find_from(s, p, from);
}

fn matches_at_exec(s: &Vec<char>, i: usize, p: &Vec<char>) -> (r: bool)
    requires
        i + p.len() <= s.len(),
    ensures
        r == matches_at(s@, i as int, p@),
{
    let mut k: usize = 0;
    while k < p.len()
        invariant
            i + p.len() <= s.len(),
            k <= p.len(),
            forall|m: int| 0 <= m < k ==> #[trigger] fold(s@[i + m]) == fold(p@[m]),
        decreases p.len() - k,
    {
        if fold_exec(s[i + k]) != fold_exec(p[k]) {
            assert(fold(s@[i + k as int]) != fold(p@[k as int]));
            return false;
        }
        k = k + 1;
    }
    true
}

/// Whether `p` occurs in `s` at position `i`, letters compared without
/// regard to ASCII case.
pub fn matches_at_ci(s: &Vec<char>, i: usize, p: &Vec<char>) -> (r: bool)
    ensures
        r == matches_at(s@, i as int, p@),
{
    if p.len() > s.len() || i > s.len() - p.len() {
        false
    } else {
        matches_at_exec(s, i, p)
    }
}

/// The last position where `p` occurs in `s`, letters compared without regard
/// to ASCII case.
pub fn rfind_ci(s: &Vec<char>, p: &Vec<char>) -> (r: Option<usize>)
    ensures
        match r {
            Some(i) => rfind(s@, p@) == Some(i as int),
            None => rfind(s@, p@) is None,
        },
{
    if p.len() > s.len() {
        assert(find_last(s@, p@, s@.len() - p@.len()) == None::<int>);
        return None;
    }
    let mut i = s.len() - p.len();
    loop
        invariant
            i + p.len() <= s.len(),
            rfind(s@, p@) == find_last(s@, p@, i as int),
        decreases i,
    {
        if matches_at_exec(s, i, p) {
            return Some(i);
        }
        if i == 0 {
            assert(find_last(s@, p@, -1) == None::<int>);
            return None;
        }
        i = i - 1;
    }
}

/// The first position at or after `from` where `p` occurs in `s`, letters
/// compared without regard to ASCII case.
pub fn find_ci(s: &Vec<char>, p: &Vec<char>, from: usize) -> (r: Option<usize>)
    ensures
        match r {
            Some(i) => find_from(s@, p@, from as int) == Some(i as int),
            None => find_from(s@, p@, from as int) is None,
        },
{
    if p.len() > s.len() {
        return None;
    }
    let last = s.len() - p.len();
    let mut i = from;
    while i <= last
        invariant
            last + p.len() == s.len(),
            from <= i,
            find_from(s@, p@, from as int) == find_from(s@, p@, i as int),
        decreases last + 1 - i,
    {
        if matches_at_exec(s, i, p) {
            return Some(i);
        }
        i = i + 1;
    }
    None
}

// ── Whitespace ──────────────────────────────────────────────────────────────

/// Unicode `White_Space` characters, the whitespace of `str::trim`.
pub open spec fn is_whitespace(c: char) -> bool {
    ||| '\t' <= c && c <= '\r'
    ||| c == ' '
    ||| c == '\u{85}'
    ||| c == '\u{a0}'
    ||| c == '\u{1680}'
    ||| '\u{2000}' <= c && c <= '\u{200a}'
    ||| c == '\u{2028}'
    ||| c == '\u{2029}'
    ||| c == '\u{202f}'
    ||| c == '\u{205f}'
    ||| c == '\u{3000}'
}

fn is_whitespace_exec(c: char) -> (r: bool)
    ensures
        r == is_whitespace(c),
{
    ('\t' <= c && c <= '\r') || c == ' ' || c == '\u{85}' || c == '\u{a0}' || c == '\u{1680}'
        || ('\u{2000}' <= c && c <= '\u{200a}') || c == '\u{2028}' || c == '\u{2029}' || c
        == '\u{202f}' || c == '\u{205f}' || c == '\u{3000}'
}

/// The whitespace that trimming removes is Unicode `White_Space`, the set
/// of `char::is_whitespace`, by code point: U+0009 to U+000D (tab, line
/// feed, vertical tab, form feed, carriage return), U+0020, U+0085, U+00A0,
/// U+1680, U+2000 to U+200A, U+2028, U+2029, U+202F, U+205F and U+3000.
pub proof fn lemma_whitespace_code_points(c: char)
    ensures
        is_whitespace(c) <==> {
            let u = c as u32;
            ||| 0x9 <= u <= 0xd
            ||| u == 0x20
            ||| u == 0x85
            ||| u == 0xa0
            ||| u == 0x1680
            ||| 0x2000 <= u <= 0x200a
            ||| u == 0x2028
            ||| u == 0x2029
            ||| u == 0x202f
            ||| u == 0x205f
            ||| u == 0x3000
        },
{
}

/// `s` without its leading whitespace.
pub open spec fn trim_start(s: Seq<char>) -> Seq<char>
    decreases s.len(),
{
    if s.len() > 0 && is_whitespace(s[0]) {
        trim_start(s.drop_first())
    } else {
        s
    }
}

/// `s` without its trailing whitespace.
pub open spec fn trim_end(s: Seq<char>) -> Seq<char>
    decreases s.len(),
{
    if s.len() > 0 && is_whitespace(s.last()) {
        trim_end(s.drop_last())
    } else {
        s
    }
}

/// `s` without its leading and trailing whitespace.
pub open spec fn trim(s: Seq<char>) -> Seq<char> {
    trim_end(trim_start(s))
}

proof fn lemma_trim_start_from(s: Seq<char>, i: int)
    requires
        0 <= i <= s.len(),
        forall|k: int| 0 <= k < i ==> is_whitespace(#[trigger] s[k]),
    ensures
        trim_start(s) == trim_start(s.subrange(i, s.len() as int)),
    decreases i,
{
    if i > 0 {
        assert(is_whitespace(s[0]));
        let t = s.drop_first();
        assert forall|k: int| 0 <= k < i - 1 implies is_whitespace(#[trigger] t[k]) by {
            assert(t[k] == s[k + 1]);
        }
        lemma_trim_start_from(t, i - 1);
        assert(t.subrange(i - 1, t.len() as int) =~= s.subrange(i, s.len() as int));
    } else {
        assert(s.subrange(0, s.len() as int) =~= s);
    }
}

proof fn lemma_trim_end_to(s: Seq<char>, j: int)
    requires
        0 <= j <= s.len(),
        forall|k: int| j <= k < s.len() ==> is_whitespace(#[trigger] s[k]),
    ensures
        trim_end(s) == trim_end(s.subrange(0, j)),
    decreases s.len() - j,
{
    if j < s.len() {
        assert(is_whitespace(s.last()));
        let t = s.drop_last();
        assert forall|k: int| j <= k < t.len() implies is_whitespace(#[trigger] t[k]) by {
            assert(t[k] == s[k]);
        }
        lemma_trim_end_to(t, j);
        assert(t.subrange(0, j) =~= s.subrange(0, j));
    } else {
        assert(s.subrange(0, j) =~= s);
    }
}

/// Trimming keeps an inner stretch of the text: everything before and after
/// it is whitespace, and the stretch, where not empty, neither begins nor
/// ends with whitespace.
pub proof fn lemma_trim_is_inner_part(s: Seq<char>)
    ensures
        exists|a: int, b: int|
            {
                &&& 0 <= a <= b <= s.len()
                &&& #[trigger] trim(s) == s.subrange(a, b)
                &&& forall|k: int| 0 <= k < a ==> is_whitespace(#[trigger] s[k])
                &&& forall|k: int| b <= k < s.len() ==> is_whitespace(#[trigger] s[k])
                &&& a < b ==> !is_whitespace(s[a]) && !is_whitespace(s[b - 1])
            },
{
    let a = lemma_trim_start_part(s);
    let t = s.subrange(a, s.len() as int);
    let b = lemma_trim_end_part(t);
    assert(trim(s) == t.subrange(0, b));
    assert(t.subrange(0, b) =~= s.subrange(a, a + b));
    assert forall|k: int| a + b <= k < s.len() implies is_whitespace(#[trigger] s[k]) by {
        assert(s[k] == t[k - a]);
    }
    if 0 < b {
        assert(s[a] == t[0]);
        assert(s[a + b - 1] == t[b - 1]);
    }
    assert(trim(s) == s.subrange(a, a + b));
}

proof fn lemma_trim_start_part(s: Seq<char>) -> (a: int)
    ensures
        0 <= a <= s.len(),
        trim_start(s) == s.subrange(a, s.len() as int),
        forall|k: int| 0 <= k < a ==> is_whitespace(#[trigger] s[k]),
        a < s.len() ==> !is_whitespace(s[a]),
    decreases s.len(),
{
    if s.len() > 0 && is_whitespace(s[0]) {
        let t = s.drop_first();
        let a1 = lemma_trim_start_part(t);
        assert(t.subrange(a1, t.len() as int) =~= s.subrange(a1 + 1, s.len() as int));
        assert forall|k: int| 0 <= k < a1 + 1 implies is_whitespace(#[trigger] s[k]) by {
            if k > 0 {
                assert(s[k] == t[k - 1]);
            }
        }
        if a1 + 1 < s.len() {
            assert(s[a1 + 1] == t[a1]);
        }
        a1 + 1
    } else {
        assert(s.subrange(0, s.len() as int) =~= s);
        0
    }
}

proof fn lemma_trim_end_part(s: Seq<char>) -> (b: int)
    ensures
        0 <= b <= s.len(),
        trim_end(s) == s.subrange(0, b),
        forall|k: int| b <= k < s.len() ==> is_whitespace(#[trigger] s[k]),
        0 < b ==> !is_whitespace(s[b - 1]),
    decreases s.len(),
{
    if s.len() > 0 && is_whitespace(s.last()) {
        let t = s.drop_last();
        let b1 = lemma_trim_end_part(t);
        assert(t.subrange(0, b1) =~= s.subrange(0, b1));
        assert forall|k: int| b1 <= k < s.len() implies is_whitespace(#[trigger] s[k]) by {
            if k < t.len() {
                assert(s[k] == t[k]);
            }
        }
        if 0 < b1 {
            assert(s[b1 - 1] == t[b1 - 1]);
        }
        b1
    } else {
        assert(s.subrange(0, s.len() as int) =~= s);
        s.len() as int
    }
}

/// The characters `v[from..to]` with leading and trailing whitespace removed,
/// as a string.
pub fn trimmed_range(v: &Vec<char>, from: usize, to: usize) -> (s: String)
    requires
        from <= to <= v.len(),
    ensures
        s@ == trim(v@.subrange(from as int, to as int)),
{
    let ghost w = v@.subrange(from as int, to as int);
    let mut a = from;
    while a < to && is_whitespace_exec(v[a])
        invariant
            from <= a <= to <= v.len(),
            w == v@.subrange(from as int, to as int),
            forall|k: int| from <= k < a ==> is_whitespace(#[trigger] v@[k]),
        decreases to - a,
    {
        a = a + 1;
    }
    proof {
        assert forall|k: int| 0 <= k < a - from implies is_whitespace(#[trigger] w[k]) by {
            assert(w[k] == v@[from + k]);
        }
        lemma_trim_start_from(w, a - from);
        assert(w.subrange(a - from, w.len() as int) =~= v@.subrange(a as int, to as int));
        if a < to {
            assert(v@.subrange(a as int, to as int)[0] == v@[a as int]);
        } else {
            assert(v@.subrange(a as int, to as int).len() == 0);
        }
        assert(trim_start(v@.subrange(a as int, to as int)) == v@.subrange(a as int, to as int));
    }
    let mut b = to;
    while b > a && is_whitespace_exec(v[b - 1])
        invariant
            a <= b <= to <= v.len(),
            forall|k: int| b <= k < to ==> is_whitespace(#[trigger] v@[k]),
        decreases b - a,
    {
        b = b - 1;
    }
    proof {
        let u = v@.subrange(a as int, to as int);
        assert forall|k: int| b - a <= k < u.len() implies is_whitespace(#[trigger] u[k]) by {
            assert(u[k] == v@[a + k]);
        }
        lemma_trim_end_to(u, b - a);
        assert(u.subrange(0, b - a) =~= v@.subrange(a as int, b as int));
        if a < b {
            assert(v@.subrange(a as int, b as int).last() == v@[b - 1]);
        }
        assert(trim_end(v@.subrange(a as int, b as int)) == v@.subrange(a as int, b as int));
    }
    string_of_range(v, a, b)
}

} // verus!
