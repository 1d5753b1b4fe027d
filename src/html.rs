//! Extracting plain text from HTML: tags are removed (with the content of
//! `script`, `style`, `noscript` and `svg` elements), block-level tags leave a
//! space, entities are decoded, and whitespace is collapsed.
use vstd::prelude::*;
use vstd::string::*;

use crate::normalize::{ascii_lower, is_whitespace, lower_ascii, white_space};
use crate::text_util::push_char;

verus! {

/// Relies on `u32::from_str_radix`: it accepts an optional `+` and then one or
/// more digits of the radix, and fails where the value does not fit.
#[verifier::external_body]
fn parse_u32(s: &str, radix: u32) -> (r: Option<u32>)
    requires
        2 <= radix <= 36,
    ensures
        r == parsed_u32(s@, radix as nat),
{
    u32::from_str_radix(s, radix).ok()
}

/// Relies on `char::from_u32`: the character with that code, where the code is
/// a Unicode scalar value.
#[verifier::external_body]
fn char_from_u32(v: u32) -> (r: Option<char>)
    ensures
        r is Some <==> (v <= 0x10FFFF && !(0xD800 <= v <= 0xDFFF)),
        r matches Some(c) ==> c as u32 == v,
{
    char::from_u32(v)
}

/// The value of one digit in `radix`, if `c` is one.
pub open spec fn digit_value(c: char, radix: nat) -> Option<nat> {
    let v = c as u32;
    let d: int = if 0x30 <= v <= 0x39 {
        v - 0x30
    } else if 0x61 <= v <= 0x7A {
        v - 0x61 + 10
    } else if 0x41 <= v <= 0x5A {
        v - 0x41 + 10
    } else {
        36
    };
    if d < radix {
        Some(d as nat)
    } else {
        None
    }
}

/// The value of a string of digits, if every character is one.
pub open spec fn digits_value(s: Seq<char>, radix: nat) -> Option<nat>
    decreases s.len(),
{
    if s.len() == 0 {
        Some(0)
    } else {
        match (digits_value(s.drop_last(), radix), digit_value(s.last(), radix)) {
            (Some(a), Some(d)) => Some(a * radix + d),
            _ => None,
        }
    }
}

/// An optional `+` and one or more digits whose value fits in a `u32`.
pub open spec fn parsed_u32(s: Seq<char>, radix: nat) -> Option<u32> {
    let body = if s.len() > 0 && s[0] == '+' {
        s.drop_first()
    } else {
        s
    };
    if body.len() == 0 {
        None
    } else {
        match digits_value(body, radix) {
            Some(v) => if v <= u32::MAX {
                Some(v as u32)
            } else {
                None
            },
            None => None,
        }
    }
}

/// `pat` stands in `cs` at position `i`.
pub open spec fn starts_at(cs: Seq<char>, i: int, pat: Seq<char>) -> bool {
    0 <= i && i + pat.len() <= cs.len() && cs.subrange(i, i + pat.len()) == pat
}

/// The first position from `i` on where `pat` stands in `cs`.
pub open spec fn find_from(cs: Seq<char>, i: int, pat: Seq<char>) -> Option<int>
    decreases cs.len() - i,
{
    if i < 0 || i + pat.len() > cs.len() {
        None
    } else if starts_at(cs, i, pat) {
        Some(i)
    } else if pat.len() == 0 {
        None
    } else {
        find_from(cs, i + 1, pat)
    }
}

/// Where `find_from` finds `pat`, it stands there, and nowhere between.
pub proof fn lemma_find_from(cs: Seq<char>, i: int, pat: Seq<char>)
    ensures
        find_from(cs, i, pat) matches Some(j) ==> i <= j && j + pat.len() <= cs.len() && starts_at(cs, j, pat) && forall|k: int| i <= k < j ==> !#[trigger] starts_at(cs, k, pat),
        find_from(cs, i, pat) is None && 0 <= i ==> forall|k: int| i <= k ==> !#[trigger] starts_at(cs, k, pat),
    decreases cs.len() - i,
{
    if !(i < 0 || i + pat.len() > cs.len()) && !starts_at(cs, i, pat) && pat.len() != 0 {
        lemma_find_from(cs, i + 1, pat);
        if find_from(cs, i, pat) is None {
            assert forall|k: int| i <= k implies !#[trigger] starts_at(cs, k, pat) by {
                if k > i {
                    assert(i + 1 <= k);
                }
            }
        }
    } else if 0 <= i && i + pat.len() > cs.len() {
        assert forall|k: int| i <= k implies !#[trigger] starts_at(cs, k, pat) by {}
    } else if 0 <= i && pat.len() == 0 {
        assert(cs.subrange(i, i) =~= pat);
    }
}

/// `pat` stands in `cs` at position `i`, ignoring the case of ASCII letters.
pub open spec fn starts_at_ci(cs: Seq<char>, i: int, pat: Seq<char>) -> bool {
    &&& 0 <= i
    &&& i + pat.len() <= cs.len()
    &&& forall|k: int| 0 <= k < pat.len() ==> ascii_lower(#[trigger] cs[i + k]) == ascii_lower(pat[k])
}

/// The characters of a string, in a vector.
pub(crate) fn char_vec(s: &str) -> (r: Vec<char>)
    ensures
        r@ == s@,
{
    let mut r: Vec<char> = Vec::new();
    for ch in it: s.chars()
        invariant
            it.seq() == s@,
            r@ == s@.take(it.index() as int),
    {
        r.push(ch);
        assert(r@ =~= s@.take(it.index() as int + 1));
    }
    assert(s@.take(s@.len() as int) =~= s@);
    r
}

/// The string of some characters.
pub(crate) fn string_of(cs: &[char], from: usize, to: usize) -> (r: String)
    requires
        from <= to <= cs@.len(),
    ensures
        r@ == cs@.subrange(from as int, to as int),
{
    let mut r = String::new();
    let mut k: usize = from;
    while k < to
        invariant
            from <= k <= to,
            to <= cs@.len(),
            r@ == cs@.subrange(from as int, k as int),
        decreases to - k,
    {
        push_char(&mut r, cs[k]);
        k += 1;
        assert(r@ =~= cs@.subrange(from as int, k as int));
    }
    r
}

pub(crate) fn starts_with_at(cs: &[char], i: usize, pat: &[char]) -> (r: bool)
    requires
        i <= cs@.len(),
    ensures
        r == starts_at(cs@, i as int, pat@),
{
    if cs.len() - i < pat.len() {
        return false;
    }
    let mut k: usize = 0;
    while k < pat.len()
        invariant
            k <= pat@.len(),
            i + pat@.len() <= cs@.len(),
            cs@.len() == cs.len(),
            forall|m: int| 0 <= m < k ==> cs@[i + m] == pat@[m],
        decreases pat@.len() - k,
    {
        if cs[i + k] != pat[k] {
            assert(cs@.subrange(i as int, i + pat@.len())[k as int] != pat@[k as int]);
            return false;
        }
        k += 1;
    }
    assert(cs@.subrange(i as int, i + pat@.len()) =~= pat@);
    true
}

pub(crate) fn find_at(cs: &[char], i: usize, pat: &[char]) -> (r: Option<usize>)
    requires
        i <= cs@.len(),
    ensures
        match r {
            Some(j) => find_from(cs@, i as int, pat@) == Some(j as int),
            None => find_from(cs@, i as int, pat@) is None,
        },
    decreases cs@.len() - i,
{
    if cs.len() - i < pat.len() {
        return None;
    }
    if starts_with_at(cs, i, pat) {
        return Some(i);
    }
    if pat.len() == 0 || i == cs.len() {
        return None;
    }
    find_at(cs, i + 1, pat)
}

fn starts_with_at_ci(cs: &[char], i: usize, pat: &[char]) -> (r: bool)
    requires
        i <= cs@.len(),
    ensures
        r == starts_at_ci(cs@, i as int, pat@),
{
    if cs.len() - i < pat.len() {
        return false;
    }
    let mut k: usize = 0;
    while k < pat.len()
        invariant
            k <= pat@.len(),
            i + pat@.len() <= cs@.len(),
            cs@.len() == cs.len(),
            forall|m: int| 0 <= m < k ==> ascii_lower(#[trigger] cs@[i + m]) == ascii_lower(pat@[m]),
        decreases pat@.len() - k,
    {
        if lower_ascii(cs[i + k]) != lower_ascii(pat[k]) {
            return false;
        }
        k += 1;
    }
    true
}

} // verus!

verus! {

/// The text of a named entity (`&amp;` and the like, semicolon included).
pub open spec fn named_entity(e: Seq<char>) -> Option<Seq<char>> {
    if e == "&amp;"@ {
        Some("&"@)
    } else if e == "&lt;"@ {
        Some("<"@)
    } else if e == "&gt;"@ {
        Some(">"@)
    } else if e == "&quot;"@ {
        Some("\""@)
    } else if e == "&apos;"@ {
        Some("'"@)
    } else if e == "&nbsp;"@ {
        Some(" "@)
    } else if e == "&copy;"@ {
        Some("\u{a9}"@)
    } else if e == "&reg;"@ {
        Some("\u{ae}"@)
    } else if e == "&trade;"@ {
        Some("\u{2122}"@)
    } else if e == "&mdash;"@ {
        Some("\u{2014}"@)
    } else if e == "&ndash;"@ {
        Some("\u{2013}"@)
    } else if e == "&lsquo;"@ {
        Some("'"@)
    } else if e == "&rsquo;"@ {
        Some("'"@)
    } else if e == "&ldquo;"@ {
        Some("\""@)
    } else if e == "&rdquo;"@ {
        Some("\""@)
    } else if e == "&hellip;"@ {
        Some("\u{2026}"@)
    } else if e == "&bull;"@ {
        Some("\u{2022}"@)
    } else if e == "&euro;"@ {
        Some("\u{20ac}"@)
    } else if e == "&pound;"@ {
        Some("\u{a3}"@)
    } else if e == "&yen;"@ {
        Some("\u{a5}"@)
    } else if e == "&cent;"@ {
        Some("\u{a2}"@)
    } else {
        None
    }
}

fn named_entity_of(e: &String) -> (r: Option<String>)
    ensures
        match r {
            Some(t) => named_entity(e@) == Some(t@),
            None => named_entity(e@) is None,
        },
{
    if *e == String::from_str("&amp;") {
        Some(String::from_str("&"))
    } else if *e == String::from_str("&lt;") {
        Some(String::from_str("<"))
    } else if *e == String::from_str("&gt;") {
        Some(String::from_str(">"))
    } else if *e == String::from_str("&quot;") {
        Some(String::from_str("\""))
    } else if *e == String::from_str("&apos;") {
        Some(String::from_str("'"))
    } else if *e == String::from_str("&nbsp;") {
        Some(String::from_str(" "))
    } else if *e == String::from_str("&copy;") {
        Some(String::from_str("\u{a9}"))
    } else if *e == String::from_str("&reg;") {
        Some(String::from_str("\u{ae}"))
    } else if *e == String::from_str("&trade;") {
        Some(String::from_str("\u{2122}"))
    } else if *e == String::from_str("&mdash;") {
        Some(String::from_str("\u{2014}"))
    } else if *e == String::from_str("&ndash;") {
        Some(String::from_str("\u{2013}"))
    } else if *e == String::from_str("&lsquo;") {
        Some(String::from_str("'"))
    } else if *e == String::from_str("&rsquo;") {
        Some(String::from_str("'"))
    } else if *e == String::from_str("&ldquo;") {
        Some(String::from_str("\""))
    } else if *e == String::from_str("&rdquo;") {
        Some(String::from_str("\""))
    } else if *e == String::from_str("&hellip;") {
        Some(String::from_str("\u{2026}"))
    } else if *e == String::from_str("&bull;") {
        Some(String::from_str("\u{2022}"))
    } else if *e == String::from_str("&euro;") {
        Some(String::from_str("\u{20ac}"))
    } else if *e == String::from_str("&pound;") {
        Some(String::from_str("\u{a3}"))
    } else if *e == String::from_str("&yen;") {
        Some(String::from_str("\u{a5}"))
    } else if *e == String::from_str("&cent;") {
        Some(String::from_str("\u{a2}"))
    } else {
        None
    }
}

/// The code of a numeric entity's digits: `x` or `X` then hexadecimal digits,
/// or decimal digits.
pub open spec fn entity_code(num: Seq<char>) -> Option<u32> {
    if num.len() > 0 && (num[0] == 'x' || num[0] == 'X') {
        parsed_u32(num.drop_first(), 16)
    } else {
        parsed_u32(num, 10)
    }
}

/// The entity that starts at `i`, if it is one: its text and how many
/// characters it takes (up to and including the first `;`, which must come
/// within twelve characters).
pub open spec fn entity_at(cs: Seq<char>, i: int) -> Option<(Seq<char>, nat)> {
    match find_from(cs, i, seq![';']) {
        None => None,
        Some(j) => if j - i > 12 {
            None
        } else {
            let e = cs.subrange(i, j + 1);
            match named_entity(e) {
                Some(t) => Some((t, e.len())),
                None => if e.len() >= 3 && e[0] == '&' && e[1] == '#' {
                    match entity_code(e.subrange(2, e.len() - 1)) {
                        Some(v) => if v <= 0x10FFFF && !(0xD800 <= v <= 0xDFFF) {
                            Some((seq![v as char], e.len()))
                        } else {
                            None
                        },
                        None => None,
                    }
                } else {
                    None
                },
            }
        },
    }
}

fn decode_entity_at(cs: &[char], i: usize) -> (r: Option<(String, usize)>)
    requires
        i <= cs@.len(),
    ensures
        match r {
            Some((t, n)) => entity_at(cs@, i as int) == Some((t@, n as nat)),
            None => entity_at(cs@, i as int) is None,
        },
{
    let semi: Vec<char> = vec![';'];
    assert(semi@ =~= seq![';']);
    let j = match find_at(cs, i, semi.as_slice()) {
        Some(j) => j,
        None => return None,
    };
    proof {
        lemma_find_from(cs@, i as int, seq![';']);
    }
    let len = cs.len();
    assert(j < len);
    if j - i > 12 {
        return None;
    }
    let e = string_of(cs, i, j + 1);
    let n = j + 1 - i;
    assert(e@.len() == n);
    if let Some(t) = named_entity_of(&e) {
        return Some((t, n));
    }
    if n >= 3 && cs[i] == '&' && cs[i + 1] == '#' {
        assert(e@[0] == cs@[i as int] && e@[1] == cs@[i + 1]);
        let code = if cs[i + 2] == 'x' || cs[i + 2] == 'X' {
            let digits = string_of(cs, i + 3, j);
            assert(digits@ =~= e@.subrange(2, e@.len() - 1).drop_first());
            parse_u32(digits.as_str(), 16)
        } else {
            let digits = string_of(cs, i + 2, j);
            assert(digits@ =~= e@.subrange(2, e@.len() - 1));
            parse_u32(digits.as_str(), 10)
        };
        proof {
            let num = e@.subrange(2, e@.len() - 1);
            if num.len() > 0 {
                assert(num[0] == cs@[i + 2]);
            } else {
                assert(j == i + 2);
            }
        }
        match code {
            Some(v) => match char_from_u32(v) {
                Some(c) => {
                    proof {
                        vstd::utf8::char_u32_cast(c, v);
                    }
                    let mut t = String::new();
                    push_char(&mut t, c);
                    return Some((t, n));
                },
                None => return None,
            },
            None => return None,
        }
    } else {
        proof {
            if n >= 3 {
                assert(e@[0] == cs@[i as int] && e@[1] == cs@[i + 1]);
            }
        }
    }
    None
}

/// Decodes the HTML entity at the start of `s`: its text and how many
/// characters it takes, or `None` where `s` does not start with a known
/// entity.
pub fn decode_entity(s: &str) -> (r: Option<(String, usize)>)
    ensures
        match r {
            Some((t, n)) => entity_at(s@, 0) == Some((t@, n as nat)),
            None => entity_at(s@, 0) is None,
        },
{
    let cs = char_vec(s);
    decode_entity_at(cs.as_slice(), 0)
}

} // verus!

verus! {

/// How many characters the entity at `i` takes; 0 where there is none.
pub open spec fn entity_used(cs: Seq<char>, i: int) -> nat {
    match entity_at(cs, i) {
        Some((_, n)) => n,
        None => 0,
    }
}

/// The text of the entity at `i`.
pub open spec fn entity_text(cs: Seq<char>, i: int) -> Seq<char> {
    match entity_at(cs, i) {
        Some((t, _)) => t,
        None => Seq::empty(),
    }
}

/// Letters and digits of ASCII.
pub open spec fn ascii_alnum(c: char) -> bool {
    let v = c as u32;
    (0x30 <= v <= 0x39) || (0x41 <= v <= 0x5A) || (0x61 <= v <= 0x7A)
}

/// The name of a tag: its leading ASCII letters and digits, lowered.
pub open spec fn tag_name(content: Seq<char>) -> Seq<char>
    decreases content.len(),
{
    if content.len() == 0 || !ascii_alnum(content[0]) {
        Seq::empty()
    } else {
        seq![ascii_lower(content[0])] + tag_name(content.drop_first())
    }
}

/// Elements whose content is dropped.
pub open spec fn skipped_element(n: Seq<char>) -> bool {
    n == "script"@ || n == "style"@ || n == "noscript"@ || n == "svg"@
}

/// Block-level elements, whose tags separate words.
pub open spec fn block_tag(n: Seq<char>) -> bool {
    n == "p"@ || n == "div"@ || n == "br"@ || n == "li"@ || n == "tr"@ || n == "td"@ || n == "th"@ || n == "h1"@ || n == "h2"@ || n == "h3"@ || n == "h4"@ || n == "h5"@ || n == "h6"@ || n == "blockquote"@ || n == "pre"@ || n == "hr"@ || n == "article"@ || n == "section"@ || n == "header"@ || n == "footer"@
}

/// The closing tag of the element `n`.
pub open spec fn closing_tag(n: Seq<char>) -> Seq<char> {
    seq!['<', '/'] + n + seq!['>']
}

/// The text of `cs` from position `i` on, with tags, comments and dropped
/// elements removed and entities decoded, before whitespace is collapsed.
/// `skip` is the closing tag awaited inside a dropped element.
pub open spec fn strip_from(cs: Seq<char>, i: int, skip: Option<Seq<char>>) -> Seq<char>
    decreases cs.len() - i,
{
    if i < 0 || i >= cs.len() {
        Seq::empty()
    } else {
        match skip {
            Some(tag) => if tag.len() > 0 && starts_at_ci(cs, i, tag) {
                strip_from(cs, i + tag.len(), None)
            } else {
                strip_from(cs, i + 1, skip)
            },
            None => {
                let comment_end = find_from(cs, i, seq!['-', '-', '>']);
                let tag_end = find_from(cs, i, seq!['>']);
                if starts_at(cs, i, seq!['<', '!', '-', '-']) && comment_end is Some && i <= comment_end->0 && comment_end->0 + 3 <= cs.len() {
                    strip_from(cs, comment_end->0 + 3, None)
                } else if cs[i] == '<' && tag_end is Some && i < tag_end->0 < cs.len() {
                    let j = tag_end->0;
                    let content = cs.subrange(i + 1, j);
                    let name = tag_name(content);
                    let next = if skipped_element(name) && !(content.len() > 0 && content.last() == '/') {
                        Some(closing_tag(name))
                    } else {
                        None
                    };
                    (if block_tag(name) { seq![' '] } else { Seq::empty() }) + strip_from(cs, j + 1, next)
                } else if cs[i] == '&' && entity_used(cs, i) > 0 && i + entity_used(cs, i) <= cs.len() {
                    entity_text(cs, i) + strip_from(cs, i + entity_used(cs, i), None)
                } else {
                    seq![cs[i]] + strip_from(cs, i + 1, None)
                }
            },
        }
    }
}

/// The words of `s`: its maximal runs of characters that are not whitespace.
pub open spec fn words_of(s: Seq<char>) -> Seq<Seq<char>>
    decreases s.len(),
{
    if s.len() == 0 {
        Seq::empty()
    } else {
        let init = s.drop_last();
        let c = s.last();
        let ws = words_of(init);
        if white_space(c) {
            ws
        } else if init.len() > 0 && !white_space(init.last()) && ws.len() > 0 {
            ws.drop_last().push(ws.last().push(c))
        } else {
            ws.push(seq![c])
        }
    }
}

/// The words, with one space between each two.
pub open spec fn joined(ws: Seq<Seq<char>>) -> Seq<char>
    decreases ws.len(),
{
    if ws.len() == 0 {
        Seq::empty()
    } else if ws.len() == 1 {
        ws[0]
    } else {
        joined(ws.drop_last()) + seq![' '] + ws.last()
    }
}

/// `s` with each run of whitespace reduced to one space, and none at either
/// end: its words joined by single spaces.
pub open spec fn collapsed(s: Seq<char>) -> Seq<char> {
    joined(words_of(s))
}

/// The text so far and whether a space is pending, after reading `s` one
/// character at a time.
pub(crate) open spec fn collapse_scan(s: Seq<char>) -> (Seq<char>, bool)
    decreases s.len(),
{
    if s.len() == 0 {
        (Seq::empty(), false)
    } else {
        let (out, pending) = collapse_scan(s.drop_last());
        let c = s.last();
        if white_space(c) {
            (out, true)
        } else {
            (out + (if pending && out.len() > 0 { seq![' '] } else { Seq::empty() }) + seq![c], false)
        }
    }
}

pub(crate) proof fn lemma_collapse_scan(s: Seq<char>)
    ensures
        collapse_scan(s).0 == collapsed(s),
        collapse_scan(s).1 == (s.len() > 0 && white_space(s.last())),
        words_of(s).len() > 0 <==> collapsed(s).len() > 0,
        words_of(s).len() > 0 ==> s.len() > 0,
    decreases s.len(),
{
    if s.len() > 0 {
        let init = s.drop_last();
        let c = s.last();
        lemma_collapse_scan(init);
        let ws = words_of(init);
        if !white_space(c) {
            if init.len() > 0 && !white_space(init.last()) && ws.len() > 0 {
                let nw = ws.drop_last().push(ws.last().push(c));
                if ws.len() == 1 {
                    assert(nw.len() == 1);
                } else {
                    assert(nw.drop_last() =~= ws.drop_last());
                }
                assert(joined(nw) =~= joined(ws) + seq![c]);
            } else {
                let nw = ws.push(seq![c]);
                assert(nw.drop_last() =~= ws);
                if ws.len() > 0 {
                    assert(joined(nw) == joined(ws) + seq![' '] + seq![c]);
                } else {
                    assert(joined(nw) == seq![c]);
                }
            }
        }
    }
}

/// Collapses runs of whitespace into single spaces and trims both ends.
pub fn normalize_whitespace(s: &str) -> (r: String)
    ensures
        r@ == collapsed(s@),
{
    let mut result = String::new();
    let mut pending = false;
    for ch in it: s.chars()
        invariant
            it.seq() == s@,
            (result@, pending) == collapse_scan(s@.take(it.index() as int)),
    {
        proof {
            assert(s@.take(it.index() as int + 1).drop_last() =~= s@.take(it.index() as int));
        }
        let ghost before = result@;
        if is_whitespace(ch) {
            pending = true;
        } else {
            if pending && !result.as_str().is_empty() {
                push_char(&mut result, ' ');
            }
            push_char(&mut result, ch);
            pending = false;
            assert(result@ =~= before + (if collapse_scan(s@.take(it.index() as int)).1 && before.len() > 0 { seq![' '] } else { Seq::<char>::empty() }) + seq![ch]);
        }
    }
    proof {
        assert(s@.take(s@.len() as int) =~= s@);
        lemma_collapse_scan(s@);
    }
    result
}

fn is_skipped_element(n: &String) -> (r: bool)
    ensures
        r == skipped_element(n@),
{
    *n == String::from_str("script") || *n == String::from_str("style") || *n == String::from_str("noscript") || *n == String::from_str("svg")
}

fn is_block_tag(n: &String) -> (r: bool)
    ensures
        r == block_tag(n@),
{
    *n == String::from_str("p") || *n == String::from_str("div") || *n == String::from_str("br") || *n == String::from_str("li") || *n == String::from_str("tr") || *n == String::from_str("td") || *n == String::from_str("th") || *n == String::from_str("h1") || *n == String::from_str("h2") || *n == String::from_str("h3") || *n == String::from_str("h4") || *n == String::from_str("h5") || *n == String::from_str("h6") || *n == String::from_str("blockquote") || *n == String::from_str("pre") || *n == String::from_str("hr") || *n == String::from_str("article") || *n == String::from_str("section") || *n == String::from_str("header") || *n == String::from_str("footer")
}

fn is_ascii_alnum(c: char) -> (r: bool)
    ensures
        r == ascii_alnum(c),
{
    let v = c as u32;
    (0x30 <= v && v <= 0x39) || (0x41 <= v && v <= 0x5A) || (0x61 <= v && v <= 0x7A)
}

/// The name of the tag whose content is `cs[from..to]`.
fn tag_name_of(cs: &[char], from: usize, to: usize) -> (r: Vec<char>)
    requires
        from <= to <= cs@.len(),
    ensures
        r@ == tag_name(cs@.subrange(from as int, to as int)),
{
    let ghost c = cs@.subrange(from as int, to as int);
    let mut r: Vec<char> = Vec::new();
    let mut k: usize = from;
    while k < to && is_ascii_alnum(cs[k])
        invariant
            from <= k <= to,
            to <= cs@.len(),
            c == cs@.subrange(from as int, to as int),
            r@ + tag_name(cs@.subrange(k as int, to as int)) == tag_name(c),
        decreases to - k,
    {
        let ghost rest = cs@.subrange(k as int, to as int);
        assert(rest.drop_first() =~= cs@.subrange(k + 1, to as int));
        r.push(lower_ascii(cs[k]));
        k += 1;
        assert(r@ + tag_name(cs@.subrange(k as int, to as int)) =~= tag_name(c));
    }
    proof {
        let rest = cs@.subrange(k as int, to as int);
        assert(tag_name(rest) =~= Seq::<char>::empty());
        assert(r@ + Seq::<char>::empty() =~= r@);
    }
    r
}

} // verus!

verus! {

/// The view of an awaited closing tag.
pub open spec fn skip_view(skipping: bool, tag: Seq<char>) -> Option<Seq<char>> {
    if skipping {
        Some(tag)
    } else {
        None
    }
}

/// Extracts the plain text of an HTML document: comments and tags are
/// removed, the content of `script`, `style`, `noscript` and `svg` elements is
/// dropped, block-level tags leave a space, entities are decoded, and runs of
/// whitespace become single spaces with none at either end.
#[verifier::rlimit(80)]
pub fn strip_html(html: &str) -> (r: String)
    ensures
        r@ == collapsed(strip_from(html@, 0, None)),
{
    let cs = char_vec(html);
    let n = cs.len();
    let ghost all = strip_from(cs@, 0, None);
    let mut out = String::new();
    let mut i: usize = 0;
    let mut skipping = false;
    let mut skip_tag: Vec<char> = Vec::new();
    let open_comment: Vec<char> = vec!['<', '!', '-', '-'];
    let close_comment: Vec<char> = vec!['-', '-', '>'];
    let close_angle: Vec<char> = vec!['>'];
    assert(open_comment@ =~= seq!['<', '!', '-', '-']);
    assert(close_comment@ =~= seq!['-', '-', '>']);
    assert(close_angle@ =~= seq!['>']);
    assert(out@ + all =~= all);
    while i < n
        invariant
            n == cs@.len(),
            cs@ == html@,
            all == strip_from(cs@, 0, None),
            i <= n,
            open_comment@ == seq!['<', '!', '-', '-'],
            close_comment@ == seq!['-', '-', '>'],
            close_angle@ == seq!['>'],
            skipping ==> skip_tag@.len() > 0,
            out@ + strip_from(cs@, i as int, skip_view(skipping, skip_tag@)) == all,
        decreases n - i,
    {
        let ghost before = out@;
        let ghost sv = skip_view(skipping, skip_tag@);
        if skipping {
            if starts_with_at_ci(cs.as_slice(), i, skip_tag.as_slice()) {
                i = i + skip_tag.len();
                skipping = false;
            } else {
                i = i + 1;
            }
            continue;
        }
        let comment_end = find_at(cs.as_slice(), i, close_comment.as_slice());
        let tag_end = find_at(cs.as_slice(), i, close_angle.as_slice());
        proof {
            lemma_find_from(cs@, i as int, seq!['-', '-', '>']);
            lemma_find_from(cs@, i as int, seq!['>']);
        }
        if starts_with_at(cs.as_slice(), i, open_comment.as_slice()) && comment_end.is_some() {
            let e = comment_end.unwrap();
            i = e + 3;
            continue;
        }
        if cs[i] == '<' && tag_end.is_some() {
            let j = tag_end.unwrap();
            if j > i {
                let name_chars = tag_name_of(cs.as_slice(), i + 1, j);
                let name = string_of(name_chars.as_slice(), 0, name_chars.len());
                assert(name_chars@.subrange(0, name_chars@.len() as int) =~= name_chars@);
                let ghost content = cs@.subrange(i + 1, j as int);
                let self_closing = j > i + 1 && cs[j - 1] == '/';
                assert(self_closing == (content.len() > 0 && content.last() == '/'));
                if is_skipped_element(&name) && !self_closing {
                    let mut t: Vec<char> = vec!['<', '/'];
                    let mut k: usize = 0;
                    while k < name_chars.len()
                        invariant
                            k <= name_chars@.len(),
                            t@ == seq!['<', '/'] + name_chars@.take(k as int),
                        decreases name_chars@.len() - k,
                    {
                        t.push(name_chars[k]);
                        k += 1;
                        assert(t@ =~= seq!['<', '/'] + name_chars@.take(k as int));
                    }
                    t.push('>');
                    assert(name_chars@.take(name_chars@.len() as int) =~= name_chars@);
                    assert(t@ =~= closing_tag(name@));
                    skip_tag = t;
                    skipping = true;
                }
                if is_block_tag(&name) {
                    push_char(&mut out, ' ');
                }
                i = j + 1;
                assert(out@ + strip_from(cs@, i as int, skip_view(skipping, skip_tag@)) =~= all);
                continue;
            }
        }
        if cs[i] == '&' {
            if let Some((text, used)) = decode_entity_at(cs.as_slice(), i) {
                if used > 0 {
                    proof {
                        lemma_find_from(cs@, i as int, seq![';']);
                    }
                    out.append(text.as_str());
                    i = i + used;
                    assert(out@ + strip_from(cs@, i as int, None) =~= all);
                    continue;
                }
            }
        }
        push_char(&mut out, cs[i]);
        i = i + 1;
        assert(out@ + strip_from(cs@, i as int, None) =~= all);
    }
    assert(strip_from(cs@, i as int, skip_view(skipping, skip_tag@)) =~= Seq::<char>::empty());
    assert(out@ =~= all);
    normalize_whitespace(out.as_str())
}

} // verus!
