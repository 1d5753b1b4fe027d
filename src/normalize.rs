//! Text normalization: case folding for Latin scripts, punctuation folding,
//! and whitespace collapsing.
use vstd::prelude::*;
use vstd::string::*;

use crate::html::{collapse_scan, collapsed, lemma_collapse_scan};
use crate::text_util::push_char;

verus! {

/// The characters with the Unicode `White_Space` property.
pub open spec fn white_space(c: char) -> bool {
    let v = c as u32;
    (0x09 <= v <= 0x0D) || v == 0x20 || v == 0x85 || v == 0xA0 || v == 0x1680 || (0x2000 <= v
        <= 0x200A) || v == 0x2028 || v == 0x2029 || v == 0x202F || v == 0x205F || v == 0x3000
}

/// Whether `c` has the Unicode `White_Space` property, as `char::is_whitespace`
/// decides.
pub(crate) fn is_whitespace(c: char) -> (r: bool)
    ensures
        r == white_space(c),
{
    let v = c as u32;
    (0x09 <= v && v <= 0x0D) || v == 0x20 || v == 0x85 || v == 0xA0 || v == 0x1680 || (0x2000 <= v
        && v <= 0x200A) || v == 0x2028 || v == 0x2029 || v == 0x202F || v == 0x205F || v == 0x3000
}

/// Relies on `char::to_ascii_lowercase`: `A` to `Z` become `a` to `z`, and
/// every other character is returned as it is.
#[verifier::external_body]
pub(crate) fn ascii_lowercase(c: char) -> (r: char)
    ensures
        0x41 <= c as u32 <= 0x5A ==> r as u32 == c as u32 + 32,
        !(0x41 <= c as u32 <= 0x5A) ==> r == c,
{
    c.to_ascii_lowercase()
}

/// `A` to `Z` lowered; every other character as it is.
pub open spec fn ascii_lower(c: char) -> char {
    if 0x41 <= c as u32 <= 0x5A {
        ((c as u32) + 32) as char
    } else {
        c
    }
}

/// Lowers the ASCII capitals.
pub(crate) fn lower_ascii(c: char) -> (r: char)
    ensures
        r == ascii_lower(c),
{
    let r = ascii_lowercase(c);
    proof {
        vstd::utf8::char_u32_cast(r, r as u32);
    }
    r
}

pub open spec fn cjk(c: char) -> bool {
    let v = c as u32;
    (0x4E00 <= v <= 0x9FFF) || (0x3400 <= v <= 0x4DBF) || (0x20000 <= v <= 0x2A6DF) || (0x2A700
        <= v <= 0x2B73F) || (0x2B740 <= v <= 0x2B81F) || (0x2B820 <= v <= 0x2CEAF) || (0x2CEB0 <= v
        <= 0x2EBEF) || (0x30000 <= v <= 0x3134F) || (0x31350 <= v <= 0x323AF) || (0x2EBF0 <= v
        <= 0x2EE5F) || (0xF900 <= v <= 0xFAFF) || (0x2F800 <= v <= 0x2FA1F)
}

pub open spec fn hangul(c: char) -> bool {
    let v = c as u32;
    (0xAC00 <= v <= 0xD7AF) || (0x1100 <= v <= 0x11FF) || (0xA960 <= v <= 0xA97F) || (0xD7B0 <= v
        <= 0xD7FF) || (0x3130 <= v <= 0x318F)
}

pub open spec fn hiragana(c: char) -> bool {
    0x3040 <= c as u32 <= 0x309F
}

pub open spec fn katakana(c: char) -> bool {
    (0x30A0 <= c as u32 <= 0x30FF) || (0x31F0 <= c as u32 <= 0x31FF)
}

/// Whether `ch` is a CJK ideograph (a Han character).
pub fn is_cjk(ch: char) -> (r: bool)
    ensures
        r == cjk(ch),
{
    let v = ch as u32;
    (0x4E00 <= v && v <= 0x9FFF) || (0x3400 <= v && v <= 0x4DBF) || (0x20000 <= v && v <= 0x2A6DF)
        || (0x2A700 <= v && v <= 0x2B73F) || (0x2B740 <= v && v <= 0x2B81F) || (0x2B820 <= v && v
        <= 0x2CEAF) || (0x2CEB0 <= v && v <= 0x2EBEF) || (0x30000 <= v && v <= 0x3134F) || (0x31350
        <= v && v <= 0x323AF) || (0x2EBF0 <= v && v <= 0x2EE5F) || (0xF900 <= v && v <= 0xFAFF)
        || (0x2F800 <= v && v <= 0x2FA1F)
}

/// Whether `ch` is Korean Hangul.
pub fn is_hangul(ch: char) -> (r: bool)
    ensures
        r == hangul(ch),
{
    let v = ch as u32;
    (0xAC00 <= v && v <= 0xD7AF) || (0x1100 <= v && v <= 0x11FF) || (0xA960 <= v && v <= 0xA97F)
        || (0xD7B0 <= v && v <= 0xD7FF) || (0x3130 <= v && v <= 0x318F)
}

/// Whether `ch` is Japanese Hiragana.
pub fn is_hiragana(ch: char) -> (r: bool)
    ensures
        r == hiragana(ch),
{
    let v = ch as u32;
    0x3040 <= v && v <= 0x309F
}

/// Whether `ch` is Japanese Katakana.
pub fn is_katakana(ch: char) -> (r: bool)
    ensures
        r == katakana(ch),
{
    let v = ch as u32;
    (0x30A0 <= v && v <= 0x30FF) || (0x31F0 <= v && v <= 0x31FF)
}

/// Whether `ch` belongs to an East Asian script: CJK ideographs, Hiragana,
/// Katakana or Hangul.
pub fn is_east_asian(ch: char) -> (r: bool)
    ensures
        r == (cjk(ch) || hiragana(ch) || katakana(ch) || hangul(ch)),
{
    is_cjk(ch) || is_hiragana(ch) || is_katakana(ch) || is_hangul(ch)
}

/// Typographic quotes fold to ASCII quotes.
pub open spec fn quote_of(ch: char) -> Option<char> {
    match ch {
        '\u{2018}' | '\u{2019}' | '\u{201A}' | '\u{201B}' => Some('\''),
        '\u{201C}' | '\u{201D}' | '\u{201E}' | '\u{201F}' => Some('"'),
        _ => None,
    }
}

/// Hyphens and dashes fold to the ASCII hyphen.
pub open spec fn dash_of(ch: char) -> Option<char> {
    if 0x2010 <= ch as u32 <= 0x2015 {
        Some('-')
    } else {
        None
    }
}

/// Typographic spaces fold to the ASCII space.
pub open spec fn space_of(ch: char) -> Option<char> {
    let v = ch as u32;
    if v == 0xA0 || (0x2000 <= v <= 0x200A) || v == 0x202F || v == 0x205F || v == 0x3000 {
        Some(' ')
    } else {
        None
    }
}

/// German, French and Polish capitals with diacritics, lowered.
pub open spec fn european_lower_of(ch: char) -> Option<char> {
    match ch {
        '\u{C4}' => Some('\u{E4}'),
        '\u{D6}' => Some('\u{F6}'),
        '\u{DC}' => Some('\u{FC}'),
        '\u{C0}' => Some('\u{E0}'),
        '\u{C2}' => Some('\u{E2}'),
        '\u{C6}' => Some('\u{E6}'),
        '\u{C7}' => Some('\u{E7}'),
        '\u{C8}' => Some('\u{E8}'),
        '\u{C9}' => Some('\u{E9}'),
        '\u{CA}' => Some('\u{EA}'),
        '\u{CB}' => Some('\u{EB}'),
        '\u{CE}' => Some('\u{EE}'),
        '\u{CF}' => Some('\u{EF}'),
        '\u{D4}' => Some('\u{F4}'),
        '\u{152}' => Some('\u{153}'),
        '\u{D9}' => Some('\u{F9}'),
        '\u{DB}' => Some('\u{FB}'),
        '\u{178}' => Some('\u{FF}'),
        '\u{104}' => Some('\u{105}'),
        '\u{106}' => Some('\u{107}'),
        '\u{118}' => Some('\u{119}'),
        '\u{141}' => Some('\u{142}'),
        '\u{143}' => Some('\u{144}'),
        '\u{D3}' => Some('\u{F3}'),
        '\u{15A}' => Some('\u{15B}'),
        '\u{179}' => Some('\u{17A}'),
        '\u{17B}' => Some('\u{17C}'),
        _ => None,
    }
}

/// What one character becomes.
pub open spec fn folded(ch: char) -> char {
    if 0x41 <= ch as u32 <= 0x5A {
        ((ch as u32) + 32) as char
    } else if quote_of(ch) is Some {
        quote_of(ch)->0
    } else if dash_of(ch) is Some {
        dash_of(ch)->0
    } else if space_of(ch) is Some {
        space_of(ch)->0
    } else if european_lower_of(ch) is Some {
        european_lower_of(ch)->0
    } else {
        ch
    }
}

fn normalize_quote(ch: char) -> (r: Option<char>)
    ensures
        r == quote_of(ch),
{
    match ch {
        '\u{2018}' | '\u{2019}' | '\u{201A}' | '\u{201B}' => Some('\''),
        '\u{201C}' | '\u{201D}' | '\u{201E}' | '\u{201F}' => Some('"'),
        _ => None,
    }
}

fn normalize_dash(ch: char) -> (r: Option<char>)
    ensures
        r == dash_of(ch),
{
    let v = ch as u32;
    if 0x2010 <= v && v <= 0x2015 {
        Some('-')
    } else {
        None
    }
}

fn normalize_whitespace_char(ch: char) -> (r: Option<char>)
    ensures
        r == space_of(ch),
{
    let v = ch as u32;
    if v == 0xA0 || (0x2000 <= v && v <= 0x200A) || v == 0x202F || v == 0x205F || v == 0x3000 {
        Some(' ')
    } else {
        None
    }
}

fn lowercase_european(ch: char) -> (r: Option<char>)
    ensures
        r == european_lower_of(ch),
{
    match ch {
        '\u{C4}' => Some('\u{E4}'),
        '\u{D6}' => Some('\u{F6}'),
        '\u{DC}' => Some('\u{FC}'),
        '\u{C0}' => Some('\u{E0}'),
        '\u{C2}' => Some('\u{E2}'),
        '\u{C6}' => Some('\u{E6}'),
        '\u{C7}' => Some('\u{E7}'),
        '\u{C8}' => Some('\u{E8}'),
        '\u{C9}' => Some('\u{E9}'),
        '\u{CA}' => Some('\u{EA}'),
        '\u{CB}' => Some('\u{EB}'),
        '\u{CE}' => Some('\u{EE}'),
        '\u{CF}' => Some('\u{EF}'),
        '\u{D4}' => Some('\u{F4}'),
        '\u{152}' => Some('\u{153}'),
        '\u{D9}' => Some('\u{F9}'),
        '\u{DB}' => Some('\u{FB}'),
        '\u{178}' => Some('\u{FF}'),
        '\u{104}' => Some('\u{105}'),
        '\u{106}' => Some('\u{107}'),
        '\u{118}' => Some('\u{119}'),
        '\u{141}' => Some('\u{142}'),
        '\u{143}' => Some('\u{144}'),
        '\u{D3}' => Some('\u{F3}'),
        '\u{15A}' => Some('\u{15B}'),
        '\u{179}' => Some('\u{17A}'),
        '\u{17B}' => Some('\u{17C}'),
        _ => None,
    }
}

/// Folds one character: ASCII capitals to lower case, typographic quotes,
/// dashes and spaces to their ASCII forms, and the German, French and Polish
/// capitals with diacritics to lower case.
pub fn normalize_char(ch: char) -> (r: char)
    ensures
        r == folded(ch),
{
    let v = ch as u32;
    if 0x41 <= v && v <= 0x5A {
        let r = ascii_lowercase(ch);
        proof {
            vstd::utf8::char_u32_cast(r, r as u32);
        }
        return r;
    }
    if let Some(c) = normalize_quote(ch) {
        return c;
    }
    if let Some(c) = normalize_dash(ch) {
        return c;
    }
    if let Some(c) = normalize_whitespace_char(ch) {
        return c;
    }
    if let Some(c) = lowercase_european(ch) {
        return c;
    }
    ch
}

/// The ellipsis character, which spells out as three dots.
pub open spec fn is_ellipsis(c: char) -> bool {
    c as u32 == 0x2026
}

/// What one character spells out to: the ellipsis three dots, any other
/// character its folded form.
pub open spec fn piece(c: char) -> Seq<char> {
    if is_ellipsis(c) {
        seq!['.', '.', '.']
    } else {
        seq![folded(c)]
    }
}

/// The pieces of the characters of `s`, one after the other.
pub open spec fn spelled_out(s: Seq<char>) -> Seq<char>
    decreases s.len(),
{
    if s.len() == 0 {
        Seq::empty()
    } else {
        spelled_out(s.drop_last()) + piece(s.last())
    }
}

/// The normal form of `s`: each character folded, the ellipsis spelled out
/// as three dots, runs of whitespace reduced to one space, and none at either
/// end.
pub open spec fn normalized(s: Seq<char>) -> Seq<char> {
    collapsed(spelled_out(s))
}

/// The text so far and whether a space is pending before the next
/// character, after reading `s` one character at a time.
spec fn normalize_scan(s: Seq<char>) -> (Seq<char>, bool)
    decreases s.len(),
{
    if s.len() == 0 {
        (Seq::empty(), false)
    } else {
        let (out, pending) = normalize_scan(s.drop_last());
        let c = s.last();
        let sep = if pending && out.len() > 0 { seq![' '] } else { Seq::empty() };
        if is_ellipsis(c) {
            (out + sep + seq!['.', '.', '.'], false)
        } else if white_space(folded(c)) {
            (out, true)
        } else {
            (out + sep + seq![folded(c)], false)
        }
    }
}

proof fn lemma_normalize_scan(s: Seq<char>)
    ensures
        normalize_scan(s) == collapse_scan(spelled_out(s)),
    decreases s.len(),
{
    if s.len() > 0 {
        let init = s.drop_last();
        let c = s.last();
        lemma_normalize_scan(init);
        let x = spelled_out(init);
        if is_ellipsis(c) {
            let x1 = x.push('.');
            let x2 = x1.push('.');
            let x3 = x2.push('.');
            assert(x1.drop_last() =~= x);
            assert(x2.drop_last() =~= x1);
            assert(x3.drop_last() =~= x2);
            assert(spelled_out(s) =~= x3);
            let (out, pending) = collapse_scan(x);
            let sep = if pending && out.len() > 0 { seq![' '] } else { Seq::<char>::empty() };
            assert(collapse_scan(x1) == (out + sep + seq!['.'], false));
            assert(collapse_scan(x2) == (out + sep + seq!['.'] + seq!['.'], false));
            assert(collapse_scan(x3) == (out + sep + seq!['.'] + seq!['.'] + seq!['.'], false));
            assert(out + sep + seq!['.'] + seq!['.'] + seq!['.'] =~= out + sep + seq!['.', '.', '.']);
        } else {
            assert(spelled_out(s) =~= x.push(folded(c)));
            assert(x.push(folded(c)).drop_last() =~= x);
        }
    }
}

/// Normalizes text for tokenization.
pub fn normalize(text: &str) -> (r: String)
    ensures
        r@ == normalized(text@),
{
    let ghost s = text@;
    let mut result = String::new();
    let mut pending = false;
    for ch in it: text.chars()
        invariant
            it.seq() == s,
            (result@, pending) == normalize_scan(s.take(it.index() as int)),
    {
        proof {
            assert(s.take(it.index() as int + 1).drop_last() =~= s.take(it.index() as int));
        }
        let ghost before = result@;
        let ghost sep = if pending && before.len() > 0 { seq![' '] } else { Seq::<char>::empty() };
        if ch == '\u{2026}' {
            if pending && !result.as_str().is_empty() {
                push_char(&mut result, ' ');
            }
            proof {
                reveal_strlit("...");
            }
            assert("..."@ =~= seq!['.', '.', '.']);
            result.append("...");
            pending = false;
            assert(result@ =~= before + sep + seq!['.', '.', '.']);
        } else {
            let normalized = normalize_char(ch);
            if is_whitespace(normalized) {
                pending = true;
            } else {
                if pending && !result.as_str().is_empty() {
                    push_char(&mut result, ' ');
                }
                push_char(&mut result, normalized);
                pending = false;
                assert(result@ =~= before + sep + seq![normalized]);
            }
        }
    }
    proof {
        assert(s.take(s.len() as int) =~= s);
        lemma_normalize_scan(s);
        lemma_collapse_scan(spelled_out(s));
    }
    result
}

} // verus!
