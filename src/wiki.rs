//! Wikitext markup removal for MediaWiki article text, and extraction of the
//! content of single-line XML elements.
use vstd::prelude::*;
use vstd::string::*;

use crate::html::{char_vec, find_at, find_from, lemma_find_from, starts_at, starts_with_at, string_of};
use crate::normalize::{is_whitespace, white_space};
use crate::text_util::push_char;

verus! {

/// Number of consecutive `c` from position `i` on.
pub open spec fn run_len(cs: Seq<char>, i: int, c: char) -> nat
    decreases cs.len() - i,
{
    if 0 <= i < cs.len() && cs[i] == c {
        1 + run_len(cs, i + 1, c)
    } else {
        0
    }
}

/// Where a template ends: scanning from `j` with `depth` open braces, `{{`
/// adds two and `}}` takes two, until none is open or the text ends.
pub open spec fn template_end(cs: Seq<char>, j: int, depth: int) -> int
    decreases cs.len() - j,
{
    if j < 0 || j >= cs.len() || depth <= 0 {
        j
    } else if starts_at(cs, j, seq!['{', '{']) {
        template_end(cs, j + 2, depth + 2)
    } else if starts_at(cs, j, seq!['}', '}']) {
        template_end(cs, j + 2, depth - 2)
    } else {
        template_end(cs, j + 1, depth)
    }
}

/// Where a link's content ends: scanning from `j` with `depth` open links,
/// the position of the `]]` that closes the outermost one, or the end of the
/// text.
pub open spec fn link_end(cs: Seq<char>, j: int, depth: int) -> int
    decreases cs.len() - j,
{
    if j < 0 || j >= cs.len() || depth <= 0 {
        j
    } else if starts_at(cs, j, seq!['[', '[']) {
        link_end(cs, j + 2, depth + 1)
    } else if starts_at(cs, j, seq![']', ']']) {
        if depth == 1 {
            j
        } else {
            link_end(cs, j + 2, depth - 1)
        }
    } else {
        link_end(cs, j + 1, depth)
    }
}

/// The last position of `c` in `s`, or -1.
pub open spec fn last_index(s: Seq<char>, c: char) -> int
    decreases s.len(),
{
    if s.len() == 0 {
        -1
    } else if s.last() == c {
        s.len() - 1
    } else {
        last_index(s.drop_last(), c)
    }
}

/// The text that a link shows: what follows its last `|`, or else its
/// target, except that category, file and image links show nothing.
pub open spec fn link_display(content: Seq<char>) -> Seq<char> {
    let p = last_index(content, '|');
    if p >= 0 {
        content.subrange(p + 1, content.len() as int)
    } else if starts_at(content, 0, "Category:"@) || starts_at(content, 0, "File:"@) || starts_at(content, 0, "Image:"@) {
        Seq::empty()
    } else {
        content
    }
}

/// The text of `cs` from position `i` on with wikitext markup removed, before
/// trimming.
pub open spec fn wiki_from(cs: Seq<char>, i: int) -> Seq<char>
    decreases cs.len() - i,
{
    if i < 0 || i >= cs.len() {
        Seq::empty()
    } else {
        let comment_end = find_from(cs, i, seq!['-', '-', '>']);
        let ref_close = find_from(cs, i, seq!['<', '/', 'r', 'e', 'f', '>']);
        let ref_self = find_from(cs, i, seq!['/', '>']);
        let table_end = find_from(cs, i, seq!['|', '}']);
        let tpl = template_end(cs, i + 2, 2);
        let lnk = link_end(cs, i + 2, 1);
        let quotes = run_len(cs, i, '\'');
        let eqs = run_len(cs, i, '=');
        if starts_at(cs, i, seq!['<', '!', '-', '-']) && comment_end is Some && i <= comment_end->0 && comment_end->0 + 3 <= cs.len() {
            wiki_from(cs, comment_end->0 + 3)
        } else if starts_at(cs, i, seq!['<', 'r', 'e', 'f']) {
            if ref_close is Some && i <= ref_close->0 && ref_close->0 + 6 <= cs.len() {
                wiki_from(cs, ref_close->0 + 6)
            } else if ref_self is Some && i <= ref_self->0 && ref_self->0 + 2 <= cs.len() {
                wiki_from(cs, ref_self->0 + 2)
            } else {
                wiki_from(cs, i + 4)
            }
        } else if starts_at(cs, i, seq!['{', '{']) {
            if i < tpl <= cs.len() {
                wiki_from(cs, tpl)
            } else {
                Seq::empty()
            }
        } else if starts_at(cs, i, seq!['{', '|']) && table_end is Some && i <= table_end->0 && table_end->0 + 2 <= cs.len() {
            wiki_from(cs, table_end->0 + 2)
        } else if starts_at(cs, i, seq!['[', '[']) {
            if i + 2 <= lnk <= cs.len() {
                link_display(cs.subrange(i + 2, lnk)) + if lnk + 2 <= cs.len() {
                    wiki_from(cs, lnk + 2)
                } else {
                    Seq::empty()
                }
            } else {
                Seq::empty()
            }
        } else if starts_at(cs, i, seq!['\'', '\'']) && i + quotes <= cs.len() && quotes > 0 {
            wiki_from(cs, i + quotes)
        } else if cs[i] == '=' && (i == 0 || cs[i - 1] == '\n') && i + eqs <= cs.len() && eqs > 0 {
            if starts_at(cs, i + eqs, seq![' ']) {
                wiki_from(cs, i + eqs + 1)
            } else {
                wiki_from(cs, i + eqs)
            }
        } else if cs[i] == '=' && i + 1 < cs.len() && (cs[i + 1] == '\n' || cs[i + 1] == '=') && i + eqs <= cs.len() && eqs > 0 {
            wiki_from(cs, i + eqs)
        } else {
            seq![cs[i]] + wiki_from(cs, i + 1)
        }
    }
}

/// `s` without its leading whitespace.
pub open spec fn trim_start(s: Seq<char>) -> Seq<char>
    decreases s.len(),
{
    if s.len() > 0 && white_space(s[0]) {
        trim_start(s.drop_first())
    } else {
        s
    }
}

/// `s` without its trailing whitespace.
pub open spec fn trim_end(s: Seq<char>) -> Seq<char>
    decreases s.len(),
{
    if s.len() > 0 && white_space(s.last()) {
        trim_end(s.drop_last())
    } else {
        s
    }
}

/// `s` without whitespace at either end.
pub open spec fn trimmed(s: Seq<char>) -> Seq<char> {
    trim_end(trim_start(s))
}

/// Removes the whitespace at both ends of `s`.
fn trim(s: &str) -> (r: String)
    ensures
        r@ == trimmed(s@),
{
    let cs = char_vec(s);
    let n = cs.len();
    let mut a: usize = 0;
    assert(cs@.subrange(0, n as int) =~= cs@);
    while a < n && is_whitespace(cs[a])
        invariant
            a <= n,
            n == cs@.len(),
            trim_start(cs@) == trim_start(cs@.subrange(a as int, n as int)),
        decreases n - a,
    {
        assert(cs@.subrange(a as int, n as int).drop_first() =~= cs@.subrange(a + 1, n as int));
        a += 1;
    }
    let ghost front = cs@.subrange(a as int, n as int);
    assert(trim_start(front) == front);
    let mut b: usize = n;
    while b > a && is_whitespace(cs[b - 1])
        invariant
            a <= b <= n,
            n == cs@.len(),
            front == cs@.subrange(a as int, n as int),
            trim_end(front) == trim_end(cs@.subrange(a as int, b as int)),
        decreases b,
    {
        assert(cs@.subrange(a as int, b as int).drop_last() =~= cs@.subrange(a as int, b - 1));
        b -= 1;
    }
    string_of(cs.as_slice(), a, b)
}

} // verus!

verus! {

proof fn lemma_run_len(cs: Seq<char>, i: int, c: char)
    requires
        0 <= i <= cs.len(),
    ensures
        i + run_len(cs, i, c) <= cs.len(),
    decreases cs.len() - i,
{
    if i < cs.len() && cs[i] == c {
        lemma_run_len(cs, i + 1, c);
    }
}

proof fn lemma_template_end(cs: Seq<char>, j: int, depth: int)
    requires
        0 <= j <= cs.len(),
    ensures
        j <= template_end(cs, j, depth) <= cs.len(),
    decreases cs.len() - j,
{
    if !(j >= cs.len() || depth <= 0) {
        if starts_at(cs, j, seq!['{', '{']) {
            lemma_template_end(cs, j + 2, depth + 2);
        } else if starts_at(cs, j, seq!['}', '}']) {
            lemma_template_end(cs, j + 2, depth - 2);
        } else {
            lemma_template_end(cs, j + 1, depth);
        }
    }
}

proof fn lemma_link_end(cs: Seq<char>, j: int, depth: int)
    requires
        0 <= j <= cs.len(),
    ensures
        j <= link_end(cs, j, depth) <= cs.len(),
    decreases cs.len() - j,
{
    if !(j >= cs.len() || depth <= 0) {
        if starts_at(cs, j, seq!['[', '[']) {
            lemma_link_end(cs, j + 2, depth + 1);
        } else if starts_at(cs, j, seq![']', ']']) {
            if depth != 1 {
                lemma_link_end(cs, j + 2, depth - 1);
            }
        } else {
            lemma_link_end(cs, j + 1, depth);
        }
    }
}

fn run_len_at(cs: &[char], i: usize, c: char) -> (r: usize)
    requires
        i <= cs@.len(),
    ensures
        r == run_len(cs@, i as int, c),
        i + r <= cs@.len(),
{
    let mut k: usize = i;
    while k < cs.len() && cs[k] == c
        invariant
            i <= k <= cs@.len(),
            run_len(cs@, i as int, c) == (k - i) + run_len(cs@, k as int, c),
        decreases cs@.len() - k,
    {
        k += 1;
    }
    k - i
}

fn template_end_at(cs: &[char], start: usize) -> (r: usize)
    requires
        2 <= start <= cs@.len(),
    ensures
        r == template_end(cs@, start as int, 2),
{
    let brace_open: Vec<char> = vec!['{', '{'];
    let brace_close: Vec<char> = vec!['}', '}'];
    assert(brace_open@ =~= seq!['{', '{']);
    assert(brace_close@ =~= seq!['}', '}']);
    let mut j: usize = start;
    let mut depth: usize = 2;
    while j < cs.len() && depth > 0
        invariant
            start <= j <= cs@.len(),
            depth <= j,
            depth % 2 == 0,
            brace_open@ == seq!['{', '{'],
            brace_close@ == seq!['}', '}'],
            template_end(cs@, j as int, depth as int) == template_end(cs@, start as int, 2),
        decreases cs@.len() - j,
    {
        if starts_with_at(cs, j, brace_open.as_slice()) {
            depth += 2;
            j += 2;
        } else if starts_with_at(cs, j, brace_close.as_slice()) {
            depth -= 2;
            j += 2;
        } else {
            j += 1;
        }
    }
    j
}

fn link_end_at(cs: &[char], start: usize) -> (r: usize)
    requires
        2 <= start <= cs@.len(),
    ensures
        r == link_end(cs@, start as int, 1),
{
    let open: Vec<char> = vec!['[', '['];
    let close: Vec<char> = vec![']', ']'];
    assert(open@ =~= seq!['[', '[']);
    assert(close@ =~= seq![']', ']']);
    let mut j: usize = start;
    let mut depth: usize = 1;
    while j < cs.len() && depth > 0
        invariant
            start <= j <= cs@.len(),
            depth <= j,
            open@ == seq!['[', '['],
            close@ == seq![']', ']'],
            link_end(cs@, j as int, depth as int) == link_end(cs@, start as int, 1),
        decreases cs@.len() - j,
    {
        if starts_with_at(cs, j, open.as_slice()) {
            depth += 1;
            j += 2;
        } else if starts_with_at(cs, j, close.as_slice()) {
            if depth == 1 {
                return j;
            }
            depth -= 1;
            j += 2;
        } else {
            j += 1;
        }
    }
    j
}

/// The text that the link with content `cs[from..to]` shows.
fn link_display_of(cs: &[char], from: usize, to: usize) -> (r: String)
    requires
        from <= to <= cs@.len(),
    ensures
        r@ == link_display(cs@.subrange(from as int, to as int)),
{
    let ghost content = cs@.subrange(from as int, to as int);
    let mut k: usize = to;
    while k > from && cs[k - 1] != '|'
        invariant
            from <= k <= to,
            to <= cs@.len(),
            content == cs@.subrange(from as int, to as int),
            last_index(content, '|') == last_index(cs@.subrange(from as int, k as int), '|'),
        decreases k,
    {
        assert(cs@.subrange(from as int, k as int).drop_last() =~= cs@.subrange(from as int, k - 1));
        k -= 1;
    }
    if k > from {
        assert(last_index(cs@.subrange(from as int, k as int), '|') == k - 1 - from);
        assert(content.subrange(k - from, content.len() as int) =~= cs@.subrange(k as int, to as int));
        return string_of(cs, k, to);
    }
    assert(last_index(cs@.subrange(from as int, k as int), '|') == -1);
    let body = string_of(cs, from, to);
    let cv = char_vec(body.as_str());
    let category = char_vec("Category:");
    let file = char_vec("File:");
    let image = char_vec("Image:");
    if starts_with_at(cv.as_slice(), 0, category.as_slice()) || starts_with_at(cv.as_slice(), 0, file.as_slice()) || starts_with_at(cv.as_slice(), 0, image.as_slice()) {
        return String::new();
    }
    body
}

} // verus!

verus! {

/// Removes wikitext markup from article text: comments, references,
/// templates and tables are dropped; a link shows its display text (or its
/// target, and nothing for category, file and image links); bold and italic
/// quotes and heading markers are dropped.
#[verifier::rlimit(100)]
pub fn strip_wikitext(text: &str) -> (r: String)
    ensures
        r@ == wiki_from(text@, 0),
{
    let cs = char_vec(text);
    let n = cs.len();
    let ghost all = wiki_from(cs@, 0);
    let open_comment = char_vec("<!--");
    let close_comment = char_vec("-->");
    let ref_open = char_vec("<ref");
    let ref_close = char_vec("</ref>");
    let ref_self = char_vec("/>");
    let table_open = char_vec("{|");
    let table_close = char_vec("|}");
    let tpl_open = char_vec("{{");
    let link_open = char_vec("[[");
    let quotes = char_vec("''");
    proof {
        reveal_strlit("<!--");
        reveal_strlit("-->");
        reveal_strlit("<ref");
        reveal_strlit("</ref>");
        reveal_strlit("/>");
        reveal_strlit("{|");
        reveal_strlit("|}");
        reveal_strlit("{{");
        reveal_strlit("[[");
        reveal_strlit("''");
    }
    assert(open_comment@ =~= seq!['<', '!', '-', '-']);
    assert(close_comment@ =~= seq!['-', '-', '>']);
    assert(ref_open@ =~= seq!['<', 'r', 'e', 'f']);
    assert(ref_close@ =~= seq!['<', '/', 'r', 'e', 'f', '>']);
    assert(ref_self@ =~= seq!['/', '>']);
    assert(table_open@ =~= seq!['{', '|']);
    assert(table_close@ =~= seq!['|', '}']);
    assert(tpl_open@ =~= seq!['{', '{']);
    assert(link_open@ =~= seq!['[', '[']);
    assert(quotes@ =~= seq!['\'', '\'']);
    let mut out = String::new();
    let mut i: usize = 0;
    assert(out@ + all =~= all);
    while i < n
        invariant
            n == cs@.len(),
            cs@ == text@,
            all == wiki_from(cs@, 0),
            i <= n,
            open_comment@ == seq!['<', '!', '-', '-'],
            close_comment@ == seq!['-', '-', '>'],
            ref_open@ == seq!['<', 'r', 'e', 'f'],
            ref_close@ == seq!['<', '/', 'r', 'e', 'f', '>'],
            ref_self@ == seq!['/', '>'],
            table_open@ == seq!['{', '|'],
            table_close@ == seq!['|', '}'],
            tpl_open@ == seq!['{', '{'],
            link_open@ == seq!['[', '['],
            quotes@ == seq!['\'', '\''],
            out@ + wiki_from(cs@, i as int) == all,
        decreases n - i,
    {
        let c = cs.as_slice();
        let ghost before = out@;
        proof {
            lemma_find_from(cs@, i as int, seq!['-', '-', '>']);
            lemma_find_from(cs@, i as int, seq!['<', '/', 'r', 'e', 'f', '>']);
            lemma_find_from(cs@, i as int, seq!['/', '>']);
            lemma_find_from(cs@, i as int, seq!['|', '}']);
            lemma_run_len(cs@, i as int, '\'');
            lemma_run_len(cs@, i as int, '=');
        }
        if starts_with_at(c, i, open_comment.as_slice()) {
            if let Some(e) = find_at(c, i, close_comment.as_slice()) {
                i = e + 3;
                continue;
            }
        }
        if starts_with_at(c, i, ref_open.as_slice()) {
            if let Some(e) = find_at(c, i, ref_close.as_slice()) {
                i = e + 6;
            } else if let Some(e) = find_at(c, i, ref_self.as_slice()) {
                i = e + 2;
            } else {
                i = i + 4;
            }
            continue;
        }
        if starts_with_at(c, i, tpl_open.as_slice()) {
            proof {
                lemma_template_end(cs@, i + 2, 2);
            }
            i = template_end_at(c, i + 2);
            continue;
        }
        if starts_with_at(c, i, table_open.as_slice()) {
            if let Some(e) = find_at(c, i, table_close.as_slice()) {
                i = e + 2;
                continue;
            }
        }
        if starts_with_at(c, i, link_open.as_slice()) {
            proof {
                lemma_link_end(cs@, i + 2, 1);
            }
            let j = link_end_at(c, i + 2);
            let shown = link_display_of(c, i + 2, j);
            out.append(shown.as_str());
            if j <= n - 2 && n >= 2 {
                i = j + 2;
                assert(out@ + wiki_from(cs@, i as int) =~= all);
            } else {
                assert(out@ =~= all);
                i = n;
            }
            continue;
        }
        if starts_with_at(c, i, quotes.as_slice()) {
            i = i + run_len_at(c, i, '\'');
            continue;
        }
        if cs[i] == '=' && (i == 0 || cs[i - 1] == '\n') {
            let k = run_len_at(c, i, '=');
            let space: Vec<char> = vec![' '];
            assert(space@ =~= seq![' ']);
            if starts_with_at(c, i + k, space.as_slice()) {
                i = i + k + 1;
            } else {
                i = i + k;
            }
            continue;
        }
        if cs[i] == '=' && i + 1 < n && (cs[i + 1] == '\n' || cs[i + 1] == '=') {
            i = i + run_len_at(c, i, '=');
            continue;
        }
        push_char(&mut out, cs[i]);
        i = i + 1;
        assert(out@ + wiki_from(cs@, i as int) =~= all);
    }
    assert(out@ =~= all);
    out
}

/// Where the first `pat` stands in `s`, if anywhere.
pub open spec fn first_index(s: Seq<char>, pat: Seq<char>) -> Option<int> {
    find_from(s, 0, pat)
}

/// The content between `<tag>` and `</tag>` on one line: from the end of the
/// first opening tag to the start of the first closing tag, where the one
/// comes before the other.
pub open spec fn tag_content(line: Seq<char>, tag: Seq<char>) -> Option<Seq<char>> {
    let open = seq!['<'] + tag + seq!['>'];
    let close = seq!['<', '/'] + tag + seq!['>'];
    match (first_index(line, open), first_index(line, close)) {
        (Some(s), Some(e)) => if s + open.len() < e {
            Some(line.subrange(s + open.len(), e))
        } else {
            None
        },
        _ => None,
    }
}

/// Extracts the content of an element that opens and closes on one line,
/// such as `<title>Article Name</title>`.
pub fn extract_single_line_tag_content(line: &str, tag: &str) -> (r: Option<String>)
    ensures
        match r {
            Some(c) => tag_content(line@, tag@) == Some(c@),
            None => tag_content(line@, tag@) is None,
        },
{
    let cs = char_vec(line);
    let t = char_vec(tag);
    let mut open: Vec<char> = vec!['<'];
    let mut close: Vec<char> = vec!['<', '/'];
    let mut k: usize = 0;
    while k < t.len()
        invariant
            k <= t@.len(),
            open@ == seq!['<'] + t@.take(k as int),
            close@ == seq!['<', '/'] + t@.take(k as int),
        decreases t@.len() - k,
    {
        open.push(t[k]);
        close.push(t[k]);
        k += 1;
        assert(open@ =~= seq!['<'] + t@.take(k as int));
        assert(close@ =~= seq!['<', '/'] + t@.take(k as int));
    }
    open.push('>');
    close.push('>');
    assert(t@.take(t@.len() as int) =~= t@);
    assert(open@ =~= seq!['<'] + tag@ + seq!['>']);
    assert(close@ =~= seq!['<', '/'] + tag@ + seq!['>']);
    let start = match find_at(cs.as_slice(), 0, open.as_slice()) {
        Some(s) => s,
        None => return None,
    };
    let end = match find_at(cs.as_slice(), 0, close.as_slice()) {
        Some(e) => e,
        None => return None,
    };
    proof {
        lemma_find_from(cs@, 0, open@);
        lemma_find_from(cs@, 0, close@);
    }
    let total = cs.len();
    assert(start + open@.len() <= total);
    let content_start = start + open.len();
    if content_start < end {
        Some(string_of(cs.as_slice(), content_start, end))
    } else {
        None
    }
}

} // verus!

verus! {

/// Relies on `str::parse::<i32>`: an optional sign and one or more decimal
/// digits whose value fits in an `i32`.
#[verifier::external_body]
fn parse_i32(s: &str) -> (r: Option<i32>)
    ensures
        r == parsed_i32(s@),
{
    s.parse().ok()
}

/// An optional `+` or `-` and one or more decimal digits whose value fits in
/// an `i32`.
pub open spec fn parsed_i32(s: Seq<char>) -> Option<i32> {
    let neg = s.len() > 0 && s[0] == '-';
    let body = if s.len() > 0 && (s[0] == '+' || s[0] == '-') {
        s.drop_first()
    } else {
        s
    };
    if body.len() == 0 {
        None
    } else {
        match crate::html::digits_value(body, 10) {
            Some(v) => if neg && v <= 0x8000_0000 {
                Some((-v) as i32)
            } else if !neg && v <= 0x7FFF_FFFF {
                Some(v as i32)
            } else {
                None
            },
            None => None,
        }
    }
}

/// Where the reader of a dump stands.
#[derive(Debug, Clone, Copy, PartialEq, Eq, Structural)]
pub enum ParseState {
    /// Outside any page.
    Idle,
    /// Inside a page.
    InPage,
    /// Inside a title that spans lines.
    InTitle,
    /// Inside a namespace element.
    InNamespace,
    /// Inside the text of a page.
    InText,
}

/// One article of a dump.
#[derive(Debug, Clone)]
pub struct WikiArticle {
    /// Article title.
    pub title: String,
    /// Article namespace (0 for main articles).
    pub namespace: i32,
    /// Article text, with the wikitext markup removed.
    pub text: String,
}

/// The line-by-line reader of a MediaWiki XML dump: it takes one line at a
/// time and hands out each page's article when the page closes.
#[derive(Debug)]
pub struct ArticleParser {
    pub state: ParseState,
    pub title: String,
    pub namespace: i32,
    pub text: String,
    /// Whether only articles of the main namespace (0) are handed out.
    pub main_namespace_only: bool,
}

/// What a reader holds, as plain values.
pub struct ParserView {
    pub state: ParseState,
    pub title: Seq<char>,
    pub namespace: i32,
    pub text: Seq<char>,
    pub main_namespace_only: bool,
}

/// An article, as plain values.
pub struct ArticleView {
    pub title: Seq<char>,
    pub namespace: i32,
    pub text: Seq<char>,
}

pub open spec fn has(line: Seq<char>, pat: Seq<char>) -> bool {
    find_from(line, 0, pat) is Some
}

/// The reader after one more line of the dump, and the article that the line
/// completes, if any.
pub open spec fn parser_step(v: ParserView, raw: Seq<char>) -> (ParserView, Option<ArticleView>) {
    let line = trimmed(raw);
    match v.state {
        ParseState::Idle => if has(line, "<page>"@) {
            (ParserView { state: ParseState::InPage, title: Seq::empty(), namespace: 0, text: Seq::empty(), ..v }, None)
        } else {
            (v, None)
        },
        ParseState::InPage => if has(line, "<title>"@) {
            match tag_content(line, "title"@) {
                Some(c) => (ParserView { state: ParseState::InPage, title: c, ..v }, None),
                None => (ParserView { state: ParseState::InTitle, ..v }, None),
            }
        } else if has(line, "<ns>"@) {
            match tag_content(line, "ns"@) {
                Some(c) => (ParserView { namespace: match parsed_i32(c) { Some(n) => n, None => 0 }, ..v }, None),
                None => (v, None),
            }
        } else if has(line, "<text>"@) {
            match first_index(line, seq!['>']) {
                Some(s) => {
                    let content = line.subrange(s + 1, line.len() as int);
                    match first_index(content, "</text>"@) {
                        Some(e) => (ParserView { state: ParseState::InPage, text: content.subrange(0, e), ..v }, None),
                        None => (ParserView { state: ParseState::InText, text: content, ..v }, None),
                    }
                },
                None => (ParserView { state: ParseState::InText, ..v }, None),
            }
        } else if has(line, "</page>"@) {
            let next = ParserView { state: ParseState::Idle, ..v };
            if v.main_namespace_only && v.namespace != 0 {
                (next, None)
            } else {
                (next, Some(ArticleView { title: v.title, namespace: v.namespace, text: wiki_from(v.text, 0) }))
            }
        } else {
            (v, None)
        },
        ParseState::InTitle => match first_index(line, "</title>"@) {
            Some(e) => (ParserView { state: ParseState::InPage, title: v.title + line.subrange(0, e), ..v }, None),
            None => (ParserView { title: v.title + line, ..v }, None),
        },
        ParseState::InNamespace => (ParserView { state: ParseState::InPage, ..v }, None),
        ParseState::InText => match first_index(line, "</text>"@) {
            Some(e) => (ParserView { state: ParseState::InPage, text: v.text + line.subrange(0, e), ..v }, None),
            None => (ParserView { text: v.text + seq!['\n'] + line, ..v }, None),
        },
    }
}

impl ArticleParser {
    pub open spec fn view(&self) -> ParserView {
        ParserView { state: self.state, title: self.title@, namespace: self.namespace, text: self.text@, main_namespace_only: self.main_namespace_only }
    }

    /// A reader that stands outside any page.
    pub fn new(main_namespace_only: bool) -> (r: ArticleParser)
        ensures
            r.view() == (ParserView { state: ParseState::Idle, title: Seq::empty(), namespace: 0, text: Seq::empty(), main_namespace_only }),
    {
        ArticleParser { state: ParseState::Idle, title: String::new(), namespace: 0, text: String::new(), main_namespace_only }
    }

    /// Takes the next line of the dump; returns the article of the page that
    /// the line closes, where it is kept.
    #[verifier::rlimit(60)]
    pub fn feed_line(&mut self, raw: &str) -> (r: Option<WikiArticle>)
        ensures
            final(self).view() == parser_step(old(self).view(), raw@).0,
            match (r, parser_step(old(self).view(), raw@).1) {
                (Some(a), Some(av)) => a.title@ == av.title && a.namespace == av.namespace && a.text@ == av.text,
                (None, None) => true,
                _ => false,
            },
    {
        let line_s = trim(raw);
        let line = line_s.as_str();
        let ghost lv = line@;
        let cs = char_vec(line);
        let c = cs.as_slice();
        match self.state {
            ParseState::Idle => {
                if find_at(c, 0, char_vec("<page>").as_slice()).is_some() {
                    self.state = ParseState::InPage;
                    self.title = String::new();
                    self.namespace = 0;
                    self.text = String::new();
                }
                None
            },
            ParseState::InPage => {
                if find_at(c, 0, char_vec("<title>").as_slice()).is_some() {
                    match extract_single_line_tag_content(line, "title") {
                        Some(content) => {
                            self.title = content;
                            self.state = ParseState::InPage;
                        },
                        None => {
                            self.state = ParseState::InTitle;
                        },
                    }
                    None
                } else if find_at(c, 0, char_vec("<ns>").as_slice()).is_some() {
                    if let Some(content) = extract_single_line_tag_content(line, "ns") {
                        self.namespace = match parse_i32(content.as_str()) {
                            Some(n) => n,
                            None => 0,
                        };
                    }
                    None
                } else if find_at(c, 0, char_vec("<text>").as_slice()).is_some() {
                    let gt: Vec<char> = vec!['>'];
                    assert(gt@ =~= seq!['>']);
                    match find_at(c, 0, gt.as_slice()) {
                        Some(s) => {
                            proof {
                                lemma_find_from(cs@, 0, seq!['>']);
                            }
                            let total = cs.len();
                            let rest = string_of(c, s + 1, total);
                            let rc = char_vec(rest.as_str());
                            match find_at(rc.as_slice(), 0, char_vec("</text>").as_slice()) {
                                Some(e) => {
                                    proof {
                                        lemma_find_from(rc@, 0, "</text>"@);
                                    }
                                    self.text = string_of(rc.as_slice(), 0, e);
                                    self.state = ParseState::InPage;
                                },
                                None => {
                                    self.text = rest;
                                    self.state = ParseState::InText;
                                },
                            }
                        },
                        None => {
                            self.state = ParseState::InText;
                        },
                    }
                    None
                } else if find_at(c, 0, char_vec("</page>").as_slice()).is_some() {
                    self.state = ParseState::Idle;
                    if self.main_namespace_only && self.namespace != 0 {
                        return None;
                    }
                    Some(WikiArticle { title: self.title.clone(), namespace: self.namespace, text: strip_wikitext(self.text.as_str()) })
                } else {
                    None
                }
            },
            ParseState::InTitle => {
                match find_at(c, 0, char_vec("</title>").as_slice()) {
                    Some(e) => {
                        proof {
                            lemma_find_from(cs@, 0, "</title>"@);
                        }
                        let head = string_of(c, 0, e);
                        self.title.append(head.as_str());
                        self.state = ParseState::InPage;
                    },
                    None => {
                        self.title.append(line);
                    },
                }
                None
            },
            ParseState::InNamespace => {
                self.state = ParseState::InPage;
                None
            },
            ParseState::InText => {
                match find_at(c, 0, char_vec("</text>").as_slice()) {
                    Some(e) => {
                        proof {
                            lemma_find_from(cs@, 0, "</text>"@);
                        }
                        let head = string_of(c, 0, e);
                        self.text.append(head.as_str());
                        self.state = ParseState::InPage;
                    },
                    None => {
                        crate::text_util::push_char(&mut self.text, '\n');
                        self.text.append(line);
                        assert(self.text@ =~= old(self).text@ + seq!['\n'] + lv);
                    },
                }
                None
            },
        }
    }
}

} // verus!
