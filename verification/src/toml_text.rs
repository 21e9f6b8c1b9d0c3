//! TOML as text: the body of a basic string, and the removal of sections.

use vstd::arithmetic::power::pow;
use vstd::prelude::*;
use vstd::slice::slice_subrange;

use crate::number::{hex_number, hex_padded, lemma_hex_digits, lemma_hex_reads_back, push_hex};
use crate::text::{
    chars_of, is_ascii_control, is_ascii_ctrl, is_blank, is_control, is_ctrl, is_plain_line,
    is_white, law_leading_white_space_is_dropped, law_lines_read_back,
    lemma_lines_hold_no_line_feed, line_texts, lines, lines_of, push_all, same, starts_with,
    trim_start, trimmed_start, unlines,
};

verus! {

// ---------------------------------------------------------------------------
// Basic strings
// ---------------------------------------------------------------------------
/// What stands for the character `c` in the body of a basic string.
pub open spec fn toml_char(c: char) -> Seq<char> {
    if c == '\\' {
        seq!['\\', '\\']
    } else if c == '"' {
        seq!['\\', '"']
    } else if c == '\u{8}' {
        seq!['\\', 'b']
    } else if c == '\t' {
        seq!['\\', 't']
    } else if c == '\n' {
        seq!['\\', 'n']
    } else if c == '\u{c}' {
        seq!['\\', 'f']
    } else if c == '\r' {
        seq!['\\', 'r']
    } else if is_ctrl(c) {
        seq!['\\', 'u'] + hex_padded(c as u32 as nat, 4)
    } else {
        seq![c]
    }
}

/// The body of a basic string that stands for `s`.
pub open spec fn toml_body(s: Seq<char>) -> Seq<char>
    decreases s.len(),
{
    if s.len() == 0 {
        seq![]
    } else {
        toml_char(s[0]) + toml_body(s.skip(1))
    }
}

/// Escapes a text as the body of a TOML basic string: what stands between the quotes. Quotes,
/// backslashes and control characters are escaped; all else stands for itself.
pub fn toml_string_body(s: &str) -> (r: String)
    ensures
        r@ == toml_body(s@),
{
    let cs = chars_of(s);
    let mut out = String::new();
    assert(cs@.skip(0) == s@);
    for i in 0..cs.len()
        invariant
            out@ + toml_body(cs@.skip(i as int)) == toml_body(s@),
    {
        let c = cs[i];
        let ghost before = out@;
        assert(cs@.skip(i as int).skip(1) == cs@.skip(i + 1));
        if c == '\\' {
            out.push('\\');
            out.push('\\');
        } else if c == '"' {
            out.push('\\');
            out.push('"');
        } else if c == '\u{8}' {
            out.push('\\');
            out.push('b');
        } else if c == '\t' {
            out.push('\\');
            out.push('t');
        } else if c == '\n' {
            out.push('\\');
            out.push('n');
        } else if c == '\u{c}' {
            out.push('\\');
            out.push('f');
        } else if c == '\r' {
            out.push('\\');
            out.push('r');
        } else if is_control(c) {
            out.push('\\');
            out.push('u');
            push_hex(&mut out, c as u32, 4);
        } else {
            out.push(c);
        }
        assert(out@ == before + toml_char(c));
    }
    assert(cs@.skip(cs@.len() as int).len() == 0);
    assert(out@ == toml_body(s@));
    out
}

/// Escapes a text as the body of a TOML basic string; see `toml_string_body`.
pub fn toml_string_body_public(s: &str) -> (r: String)
    ensures
        r@ == toml_body(s@),
{
    toml_string_body(s)
}

/// `s` without its ASCII control characters.
pub open spec fn without_controls(s: Seq<char>) -> Seq<char>
    decreases s.len(),
{
    if s.len() == 0 {
        seq![]
    } else if is_ascii_ctrl(s[0]) {
        without_controls(s.skip(1))
    } else {
        seq![s[0]] + without_controls(s.skip(1))
    }
}

/// Removes the ASCII control characters of a text, so that it can stand in a comment line: TOML
/// has none of them there but the tab, and a line feed would end the comment.
pub fn strip_controls(s: &str) -> (r: String)
    ensures
        r@ == without_controls(s@),
{
    let cs = chars_of(s);
    let mut out = String::new();
    assert(cs@.skip(0) == s@);
    for i in 0..cs.len()
        invariant
            out@ + without_controls(cs@.skip(i as int)) == without_controls(s@),
    {
        assert(cs@.skip(i as int).skip(1) == cs@.skip(i + 1));
        if !is_ascii_control(cs[i]) {
            out.push(cs[i]);
        }
    }
    assert(cs@.skip(cs@.len() as int).len() == 0);
    assert(out@ == without_controls(s@));
    out
}

// ---------------------------------------------------------------------------
// Sections
// ---------------------------------------------------------------------------
/// The texts that a sequence of string slices stands for.
pub open spec fn str_texts(v: Seq<&str>) -> Seq<Seq<char>> {
    Seq::new(v.len(), |i: int| v[i]@)
}

/// What stands between the brackets of a section header, if the line is one.
pub open spec fn header(line: Seq<char>) -> Option<Seq<char>> {
    let t = trimmed_start(line);
    if t.len() > 0 && t[0] == '[' && t.last() == ']' {
        Some(t.subrange(1, t.len() - 1))
    } else {
        None
    }
}

/// The section `inner` is the section `key` or lies within it.
pub open spec fn in_section(inner: Seq<char>, key: Seq<char>) -> bool {
    inner == key || key.push('.').is_prefix_of(inner)
}

/// The section is one of `keys`, or lies within one of them.
pub open spec fn is_stripped(inner: Seq<char>, keys: Seq<Seq<char>>) -> bool {
    exists|i: int| 0 <= i < keys.len() && in_section(inner, #[trigger] keys[i])
}

/// The lines that remain when the sections `keys` are removed. `dropping` says that the first
/// line belongs to a section that is removed.
pub open spec fn kept(
    ls: Seq<Seq<char>>,
    keys: Seq<Seq<char>>,
    dropping: bool,
) -> Seq<Seq<char>>
    decreases ls.len(),
{
    if ls.len() == 0 {
        seq![]
    } else {
        let drop = match header(ls[0]) {
            Some(inner) => is_stripped(inner, keys),
            None => dropping,
        };
        if drop {
            kept(ls.skip(1), keys, true)
        } else {
            seq![ls[0]] + kept(ls.skip(1), keys, false)
        }
    }
}

/// `toml` without the sections `keys`, each remaining line ended by a line feed.
pub open spec fn stripped(toml: Seq<char>, keys: Seq<Seq<char>>) -> Seq<char> {
    unlines(kept(lines_of(toml), keys, false))
}

/// Whether the section `inner` is `key` or lies within it.
fn lies_in_section(inner: &[char], key: &str) -> (r: bool)
    ensures
        r == in_section(inner@, key@),
{
    let mut k = chars_of(key);
    if same(inner, k.as_slice()) {
        return true;
    }
    k.push('.');
    starts_with(inner, k.as_slice())
}

/// Whether the section `inner` is one of `keys`, or lies within one of them.
fn lies_in_any(inner: &[char], keys: &[&str]) -> (r: bool)
    ensures
        r == is_stripped(inner@, str_texts(keys@)),
{
    for i in 0..keys.len()
        invariant
            forall|j: int| 0 <= j < i ==> !in_section(inner@, #[trigger] str_texts(keys@)[j]),
    {
        assert(str_texts(keys@)[i as int] == keys@[i as int]@);
        if lies_in_section(inner, keys[i]) {
            return true;
        }
    }
    false
}

/// Removes the sections `keys`, and the sections within them, from a TOML text. A section
/// reaches from its header to the next one.
pub fn strip_sections(toml: &str, keys: &[&str]) -> (r: String)
    ensures
        r@ == stripped(toml@, str_texts(keys@)),
{
    let ls = lines(toml);
    let ghost all = lines_of(toml@);
    let ghost ks = str_texts(keys@);
    let ghost goal = kept(all, ks, false);
    let ghost mut done: Seq<Seq<char>> = seq![];
    let mut out = String::new();
    let mut dropping = false;
    let mut i: usize = 0;
    assert(all.skip(0) == all);
    assert(done + goal == goal);
    while i < ls.len()
        invariant
            0 <= i <= ls@.len(),
            all == line_texts(ls@),
            ks == str_texts(keys@),
            out@ == unlines(done),
            done + kept(all.skip(i as int), ks, dropping) == goal,
        decreases ls@.len() - i,
    {
        let line = ls[i].as_slice();
        let ghost rest = all.skip(i as int);
        assert(rest[0] == line@);
        assert(rest.skip(1) == all.skip(i + 1));
        let t = trim_start(line);
        if t.len() > 0 && t[0] == '[' && t[t.len() - 1] == ']' {
            let inner = slice_subrange(t, 1, t.len() - 1);
            dropping = lies_in_any(inner, keys);
        }
        if !dropping {
            push_all(&mut out, line);
            out.push('\n');
            proof {
                let next = done.push(line@);
                assert(next.drop_last() == done);
                assert(out@ == unlines(next));
                assert(done + (seq![line@] + kept(rest.skip(1), ks, false)) == next + kept(
                    rest.skip(1),
                    ks,
                    false,
                ));
                done = next;
            }
        }
        i += 1;
    }
    assert(all.skip(i as int).len() == 0);
    assert(done == goal);
    out
}

/// The section of a preprocessor.
pub open spec fn preprocessor_key(name: Seq<char>) -> Seq<char> {
    "preprocessor."@ + name
}

/// The sections of preprocessors.
pub open spec fn preprocessor_keys(names: Seq<Seq<char>>) -> Seq<Seq<char>> {
    Seq::new(names.len(), |i: int| preprocessor_key(names[i]))
}

/// Removes the sections of the preprocessors `names` from the text of a `book.toml`.
pub fn strip_preprocessor_blocks(toml: &str, names: &[&str]) -> (r: String)
    ensures
        r@ == stripped(toml@, preprocessor_keys(str_texts(names@))),
{
    let mut keys: Vec<String> = Vec::new();
    let ghost want = preprocessor_keys(str_texts(names@));
    for i in 0..names.len()
        invariant
            keys@.len() == i,
            forall|j: int| 0 <= j < i ==> (#[trigger] keys@[j])@ == want[j],
            want == preprocessor_keys(str_texts(names@)),
    {
        let mut key = String::new();
        key.append("preprocessor.");
        key.append(names[i]);
        assert(key@ == want[i as int]);
        keys.push(key);
    }
    let mut refs: Vec<&str> = Vec::new();
    for i in 0..keys.len()
        invariant
            refs@.len() == i,
            keys@.len() == want.len(),
            forall|j: int| 0 <= j < keys@.len() ==> (#[trigger] keys@[j])@ == want[j],
            forall|j: int| 0 <= j < i ==> (#[trigger] refs@[j])@ == want[j],
    {
        refs.push(keys[i].as_str());
    }
    assert(str_texts(refs@) == want);
    strip_sections(toml, refs.as_slice())
}

// ---------------------------------------------------------------------------
// Reading basic strings
// ---------------------------------------------------------------------------
/// The character with the code point `n`, if there is one.
pub open spec fn scalar(n: nat) -> Option<char> {
    if n < 0xd800 || (0xe000 <= n && n < 0x110000) {
        Some(n as u32 as char)
    } else {
        None
    }
}

/// The character that `width` hexadecimal digits name, from the third character of `t` on, and
/// what follows them.
pub open spec fn unicode_escape(t: Seq<char>, width: int) -> Option<(char, Seq<char>)> {
    if t.len() < 2 + width {
        None
    } else {
        match hex_number(t.subrange(2, 2 + width)) {
            Some(n) => match scalar(n) {
                Some(c) => Some((c, t.skip(2 + width))),
                None => None,
            },
            None => None,
        }
    }
}

/// The character that the escape sequence at the start of `t` stands for, and what follows it.
pub open spec fn escape(t: Seq<char>) -> Option<(char, Seq<char>)> {
    if t.len() < 2 {
        None
    } else if t[1] == 'b' {
        Some(('\u{8}', t.skip(2)))
    } else if t[1] == 't' {
        Some(('\t', t.skip(2)))
    } else if t[1] == 'n' {
        Some(('\n', t.skip(2)))
    } else if t[1] == 'f' {
        Some(('\u{c}', t.skip(2)))
    } else if t[1] == 'r' {
        Some(('\r', t.skip(2)))
    } else if t[1] == '"' {
        Some(('"', t.skip(2)))
    } else if t[1] == '\\' {
        Some(('\\', t.skip(2)))
    } else if t[1] == 'u' {
        unicode_escape(t, 4)
    } else if t[1] == 'U' {
        unicode_escape(t, 8)
    } else {
        None
    }
}

/// Reads a basic string from behind its opening quote, as TOML has it: the text that it stands
/// for, and what follows its closing quote.
pub open spec fn basic_string(t: Seq<char>) -> Option<(Seq<char>, Seq<char>)>
    decreases t.len(),
{
    if t.len() == 0 {
        None
    } else if t[0] == '"' {
        Some((seq![], t.skip(1)))
    } else if t[0] == '\\' {
        match escape(t) {
            Some((c, rest)) => if rest.len() < t.len() {
                match basic_string(rest) {
                    Some((s, end)) => Some((seq![c] + s, end)),
                    None => None,
                }
            } else {
                None
            },
            None => None,
        }
    } else if (t[0] <= '\u{1f}' && t[0] != '\t') || t[0] == '\u{7f}' {
        None
    } else {
        match basic_string(t.skip(1)) {
            Some((s, end)) => Some((seq![t[0]] + s, end)),
            None => None,
        }
    }
}

/// What stands for a character in the body of a basic string is read back as that character.
proof fn lemma_char_reads_back(c: char, t: Seq<char>)
    ensures
        basic_string(toml_char(c) + t) == match basic_string(t) {
            Some((s, end)) => Some((seq![c] + s, end)),
            None => None,
        },
{
    let u = toml_char(c) + t;
    if c == '\\' || c == '"' || c == '\u{8}' || c == '\t' || c == '\n' || c == '\u{c}' || c == '\r' {
        assert(u.skip(2) == t);
    } else if is_ctrl(c) {
        let n = c as u32 as nat;
        assert(pow(16, 4) == 65536) by {
            reveal_with_fuel(pow, 5);
        }
        lemma_hex_reads_back(n, 4);
        assert(u.subrange(2, 6) == hex_padded(n, 4));
        assert(u.skip(6) == t);
        assert(n as u32 as char == c);
    } else {
        assert(u.skip(1) == t);
    }
}

/// An escaped text, put between quotes, stands for the text: a TOML reader gives back what was
/// written, and goes on behind the closing quote. No text can end the string early.
pub proof fn law_basic_string_reads_back(s: Seq<char>, rest: Seq<char>)
    ensures
        basic_string(toml_body(s) + seq!['"'] + rest) == Some((s, rest)),
    decreases s.len(),
{
    let t = toml_body(s) + seq!['"'] + rest;
    if s.len() == 0 {
        assert(t.skip(1) == rest);
        assert(s == Seq::<char>::empty());
    } else {
        let tail = s.skip(1);
        law_basic_string_reads_back(tail, rest);
        let u = toml_body(tail) + seq!['"'] + rest;
        assert(t == toml_char(s[0]) + u);
        lemma_char_reads_back(s[0], u);
        assert(seq![s[0]] + tail == s);
    }
}

/// An escaped text holds no control character; so it stays on one line.
pub proof fn law_body_holds_no_control(s: Seq<char>)
    ensures
        forall|i: int| 0 <= i < toml_body(s).len() ==> !is_ctrl(#[trigger] toml_body(s)[i]),
    decreases s.len(),
{
    if s.len() > 0 {
        let head = toml_char(s[0]);
        let tail = toml_body(s.skip(1));
        law_body_holds_no_control(s.skip(1));
        lemma_hex_digits(s[0] as u32 as nat, 4);
        assert forall|i: int| 0 <= i < toml_body(s).len() implies !is_ctrl(
            #[trigger] toml_body(s)[i],
        ) by {
            if i < head.len() {
                assert(toml_body(s)[i] == head[i]);
            } else {
                assert(toml_body(s)[i] == tail[i - head.len()]);
            }
        }
    }
}

/// A text without quotes, backslashes and control characters is escaped as itself.
pub proof fn law_plain_text_is_its_body(s: Seq<char>)
    requires
        forall|i: int|
            0 <= i < s.len() ==> !is_ctrl(#[trigger] s[i]) && s[i] != '"' && s[i] != '\\',
    ensures
        toml_body(s) == s,
    decreases s.len(),
{
    if s.len() > 0 {
        assert forall|i: int| 0 <= i < s.skip(1).len() implies !is_ctrl(#[trigger] s.skip(1)[i])
            && s.skip(1)[i] != '"' && s.skip(1)[i] != '\\' by {
            assert(s.skip(1)[i] == s[i + 1]);
        }
        law_plain_text_is_its_body(s.skip(1));
        assert(toml_body(s) == s);
    } else {
        assert(toml_body(s) == s);
    }
}

/// Texts are escaped character by character.
pub proof fn law_body_of_concatenation(a: Seq<char>, b: Seq<char>)
    ensures
        toml_body(a + b) == toml_body(a) + toml_body(b),
    decreases a.len(),
{
    if a.len() > 0 {
        assert((a + b).skip(1) == a.skip(1) + b);
        law_body_of_concatenation(a.skip(1), b);
        assert(toml_body(a + b) == toml_body(a) + toml_body(b));
    } else {
        assert(a + b == b);
        assert(toml_body(a + b) == toml_body(a) + toml_body(b));
    }
}

/// What `strip_controls` leaves holds no ASCII control character.
pub proof fn law_no_controls_remain(s: Seq<char>)
    ensures
        forall|i: int|
            0 <= i < without_controls(s).len() ==> !is_ascii_ctrl(#[trigger] without_controls(s)[i]),
    decreases s.len(),
{
    if s.len() > 0 {
        law_no_controls_remain(s.skip(1));
        if !is_ascii_ctrl(s[0]) {
            let tail = without_controls(s.skip(1));
            assert forall|i: int| 0 <= i < without_controls(s).len() implies !is_ascii_ctrl(
                #[trigger] without_controls(s)[i],
            ) by {
                if i > 0 {
                    assert(without_controls(s)[i] == tail[i - 1]);
                }
            }
        } else {
            assert(without_controls(s) == without_controls(s.skip(1)));
        }
    }
}

/// `strip_controls` leaves a text without ASCII control characters as it is.
pub proof fn law_clean_text_is_kept(s: Seq<char>)
    requires
        forall|i: int| 0 <= i < s.len() ==> !is_ascii_ctrl(#[trigger] s[i]),
    ensures
        without_controls(s) == s,
    decreases s.len(),
{
    if s.len() > 0 {
        assert forall|i: int| 0 <= i < s.skip(1).len() implies !is_ascii_ctrl(
            #[trigger] s.skip(1)[i],
        ) by {
            assert(s.skip(1)[i] == s[i + 1]);
        }
        law_clean_text_is_kept(s.skip(1));
        assert(without_controls(s) == s);
    } else {
        assert(without_controls(s) == s);
    }
}

// ---------------------------------------------------------------------------
// Laws of sections
// ---------------------------------------------------------------------------
/// Removing sections from what remains after their removal removes nothing more.
proof fn lemma_kept_is_stable(ls: Seq<Seq<char>>, keys: Seq<Seq<char>>, dropping: bool)
    ensures
        kept(kept(ls, keys, dropping), keys, false) == kept(ls, keys, dropping),
    decreases ls.len(),
{
    if ls.len() > 0 {
        let drop = match header(ls[0]) {
            Some(inner) => is_stripped(inner, keys),
            None => dropping,
        };
        lemma_kept_is_stable(ls.skip(1), keys, drop);
        if !drop {
            let k = kept(ls, keys, dropping);
            assert(k.skip(1) == kept(ls.skip(1), keys, false));
            assert(kept(k, keys, false) == k);
        }
    } else {
        assert(kept(kept(ls, keys, dropping), keys, false) == kept(ls, keys, dropping));
    }
}

/// Every line that remains is one of the lines.
proof fn lemma_kept_is_among(ls: Seq<Seq<char>>, keys: Seq<Seq<char>>, dropping: bool)
    ensures
        forall|i: int|
            0 <= i < kept(ls, keys, dropping).len() ==> ls.contains(
                #[trigger] kept(ls, keys, dropping)[i],
            ),
    decreases ls.len(),
{
    if ls.len() > 0 {
        let drop = match header(ls[0]) {
            Some(inner) => is_stripped(inner, keys),
            None => dropping,
        };
        let k = kept(ls, keys, dropping);
        let tail = kept(ls.skip(1), keys, drop);
        lemma_kept_is_among(ls.skip(1), keys, drop);
        assert forall|i: int| 0 <= i < k.len() implies ls.contains(#[trigger] k[i]) by {
            if !drop && i == 0 {
                assert(k[0] == ls[0]);
            } else {
                let j = if drop {
                    i
                } else {
                    i - 1
                };
                assert(k[i] == tail[j]);
                let m = choose|m: int| 0 <= m < ls.skip(1).len() && ls.skip(1)[m] == tail[j];
                assert(ls[m + 1] == k[i]);
            }
        }
    }
}

/// No header of a removed section, or of a section within one, remains.
pub proof fn law_no_stripped_header_remains(ls: Seq<Seq<char>>, keys: Seq<Seq<char>>)
    ensures
        forall|i: int|
            0 <= i < kept(ls, keys, false).len() ==> match header(
                #[trigger] kept(ls, keys, false)[i],
            ) {
                Some(inner) => !is_stripped(inner, keys),
                None => true,
            },
{
    lemma_no_stripped_header(ls, keys, false);
}

/// No header of a removed section remains, whichever section the first line belongs to.
proof fn lemma_no_stripped_header(ls: Seq<Seq<char>>, keys: Seq<Seq<char>>, dropping: bool)
    ensures
        forall|i: int|
            0 <= i < kept(ls, keys, dropping).len() ==> match header(
                #[trigger] kept(ls, keys, dropping)[i],
            ) {
                Some(inner) => !is_stripped(inner, keys),
                None => true,
            },
    decreases ls.len(),
{
    if ls.len() > 0 {
        let drop = match header(ls[0]) {
            Some(inner) => is_stripped(inner, keys),
            None => dropping,
        };
        let k = kept(ls, keys, dropping);
        let tail = kept(ls.skip(1), keys, drop);
        lemma_no_stripped_header(ls.skip(1), keys, drop);
        assert forall|i: int| 0 <= i < k.len() implies match header(#[trigger] k[i]) {
            Some(inner) => !is_stripped(inner, keys),
            None => true,
        } by {
            if drop {
                assert(k[i] == tail[i]);
            } else if i > 0 {
                assert(k[i] == tail[i - 1]);
            }
        }
    }
}

/// Where no line is the header of a removed section, every line remains.
pub proof fn law_other_sections_are_kept(ls: Seq<Seq<char>>, keys: Seq<Seq<char>>)
    requires
        forall|i: int|
            0 <= i < ls.len() ==> match header(#[trigger] ls[i]) {
                Some(inner) => !is_stripped(inner, keys),
                None => true,
            },
    ensures
        kept(ls, keys, false) == ls,
    decreases ls.len(),
{
    if ls.len() > 0 {
        assert forall|i: int| 0 <= i < ls.skip(1).len() implies match header(
            #[trigger] ls.skip(1)[i],
        ) {
            Some(inner) => !is_stripped(inner, keys),
            None => true,
        } by {
            assert(ls.skip(1)[i] == ls[i + 1]);
        }
        law_other_sections_are_kept(ls.skip(1), keys);
        assert(header(ls[0]) is Some ==> !is_stripped(header(ls[0])->0, keys));
        assert(kept(ls, keys, false) == ls);
    } else {
        assert(kept(ls, keys, false) == ls);
    }
}

/// The line ends in a carriage return.
pub open spec fn ends_in_cr(line: Seq<char>) -> bool {
    line.len() > 0 && line.last() == '\r'
}

/// A text from which sections were removed has the lines that were to remain and no others,
/// provided that none of them ends in a carriage return.
pub proof fn law_strip_keeps_lines(toml: Seq<char>, keys: Seq<Seq<char>>)
    requires
        forall|i: int|
            0 <= i < kept(lines_of(toml), keys, false).len() ==> !ends_in_cr(
                #[trigger] kept(lines_of(toml), keys, false)[i],
            ),
    ensures
        lines_of(stripped(toml, keys)) == kept(lines_of(toml), keys, false),
{
    let ls = lines_of(toml);
    let k = kept(ls, keys, false);
    lemma_lines_hold_no_line_feed(toml);
    lemma_kept_is_among(ls, keys, false);
    assert forall|i: int| 0 <= i < k.len() implies is_plain_line(#[trigger] k[i]) by {
        let m = choose|m: int| 0 <= m < ls.len() && ls[m] == k[i];
        assert(!ends_in_cr(k[i]));
        assert forall|j: int| 0 <= j < k[i].len() implies k[i][j] != '\n' by {
            assert(ls[m][j] != '\n');
        }
    }
    law_lines_read_back(k);
}

/// Removing sections twice is the same as removing them once, provided that no line that remains
/// ends in a carriage return: being followed by a line feed, that would be taken for part of the
/// line's end the second time.
pub proof fn law_strip_is_idempotent(toml: Seq<char>, keys: Seq<Seq<char>>)
    requires
        forall|i: int|
            0 <= i < kept(lines_of(toml), keys, false).len() ==> !ends_in_cr(
                #[trigger] kept(lines_of(toml), keys, false)[i],
            ),
    ensures
        stripped(stripped(toml, keys), keys) == stripped(toml, keys),
{
    law_strip_keeps_lines(toml, keys);
    lemma_kept_is_stable(lines_of(toml), keys, false);
}

// ---------------------------------------------------------------------------
// Escapes, headers and sections one by one
// ---------------------------------------------------------------------------
/// A control character that has a short escape gets that one; another one gets `\u` and four
/// hexadecimal digits, with capital letters.
pub proof fn law_controls_get_their_escapes(c: char)
    ensures
        toml_body(seq!['\u{8}']) == seq!['\\', 'b'],
        toml_body(seq!['\t']) == seq!['\\', 't'],
        toml_body(seq!['\n']) == seq!['\\', 'n'],
        toml_body(seq!['\u{c}']) == seq!['\\', 'f'],
        toml_body(seq!['\r']) == seq!['\\', 'r'],
        (c as u32 <= 0x1f || 0x7f <= c as u32 <= 0x9f) && c != '\u{8}' && c != '\t' && c != '\n' && c
            != '\u{c}' && c != '\r' ==> toml_body(seq![c]).len() == 6 && toml_body(seq![c])[0] == '\\'
            && toml_body(seq![c])[1] == 'u' && hex_number(toml_body(seq![c]).skip(2)) == Some(
            c as u32 as nat,
        ),
        forall|i: int|
            2 <= i < toml_body(seq![c]).len() ==> !('a' <= #[trigger] toml_body(seq![c])[i]
                && toml_body(seq![c])[i] <= 'z'),
{
    lemma_body_of_one('\u{8}');
    lemma_body_of_one('\t');
    lemma_body_of_one('\n');
    lemma_body_of_one('\u{c}');
    lemma_body_of_one('\r');
    lemma_body_of_one(c);
    let n = c as u32 as nat;
    if is_ctrl(c) {
        assert(pow(16, 4) == 65536) by {
            reveal_with_fuel(pow, 5);
        }
        lemma_hex_reads_back(n, 4);
        lemma_hex_digits(n, 4);
        if toml_char(c).len() == 6 {
            assert(toml_char(c).skip(2) == hex_padded(n, 4));
            assert forall|i: int| 2 <= i < 6 implies !('a' <= #[trigger] toml_char(c)[i]
                && toml_char(c)[i] <= 'z') by {
                assert(toml_char(c)[i] == hex_padded(n, 4)[i - 2]);
            }
        }
    }
}

/// The body of a single character.
proof fn lemma_body_of_one(c: char)
    ensures
        toml_body(seq![c]) == toml_char(c),
{
    assert(seq![c].skip(1).len() == 0);
    assert(toml_body(seq![c].skip(1)) == Seq::<char>::empty());
    assert(toml_body(seq![c]) == toml_char(c));
}

/// `strip_controls` works character by character: it drops a control character and keeps any
/// other, wherever it stands.
pub proof fn law_controls_are_dropped_one_by_one(a: Seq<char>, b: Seq<char>, c: char)
    ensures
        without_controls(a + b) == without_controls(a) + without_controls(b),
        c as u32 <= 0x1f || c as u32 == 0x7f ==> without_controls(seq![c]).len() == 0,
        c as u32 > 0x1f && c as u32 != 0x7f ==> without_controls(seq![c]) == seq![c],
    decreases a.len(),
{
    assert(seq![c].skip(1).len() == 0);
    assert(without_controls(seq![c].skip(1)) == Seq::<char>::empty());
    if a.len() > 0 {
        assert((a + b).skip(1) == a.skip(1) + b);
        law_controls_are_dropped_one_by_one(a.skip(1), b, c);
        assert(without_controls(a + b) == without_controls(a) + without_controls(b));
    } else {
        assert(a + b == b);
        assert(without_controls(a + b) == without_controls(a) + without_controls(b));
    }
}

/// A line is a section header just where it is a bracketed text, which white space may precede.
pub proof fn law_brackets_make_a_header(w: Seq<char>, t: Seq<char>)
    requires
        is_blank(w),
        t.len() == 0 || !is_white(t[0]),
    ensures
        forall|inner: Seq<char>| t == #[trigger] (seq!['['] + inner + seq![']']) ==> header(w + t)
            == Some(inner),
        header(w + t) matches Some(inner) ==> t == seq!['['] + inner + seq![']'],
{
    law_leading_white_space_is_dropped(w, t);
    assert forall|inner: Seq<char>| t == #[trigger] (seq!['['] + inner + seq![']']) implies header(
        w + t,
    ) == Some(inner) by {
        assert(t[0] == '[' && t.last() == ']');
        assert(t.subrange(1, t.len() - 1) == inner);
    }
    if let Some(inner) = header(w + t) {
        assert(t == seq!['['] + inner + seq![']']);
    }
}

/// A section lies within another just where its name is that name, with nothing or a dot behind
/// it. A longer name that merely begins the same is another section.
pub proof fn law_sections_lie_within(key: Seq<char>, rest: Seq<char>, inner: Seq<char>)
    ensures
        in_section(key + rest, key) <==> rest.len() == 0 || rest[0] == '.',
        in_section(inner, key) ==> key.is_prefix_of(inner),
{
    let s = key + rest;
    let k = key.push('.');
    if rest.len() == 0 {
        assert(s == key);
    } else {
        assert(s.len() != key.len());
        if rest[0] == '.' {
            assert(s.take(k.len() as int) == k);
        }
        if k.is_prefix_of(s) {
            assert(k == s.take(k.len() as int));
            assert(k[key.len() as int] == s[key.len() as int]);
        }
    }
    if in_section(inner, key) {
        if inner == key {
            assert(inner.take(key.len() as int) == key);
        } else {
            assert(k == inner.take(k.len() as int));
            assert(inner.take(key.len() as int) == k.take(key.len() as int));
            assert(k.take(key.len() as int) == key);
        }
    }
}

/// The sections of preprocessors that are removed: those with their names behind `preprocessor.`,
/// and what lies within them.
pub proof fn law_preprocessors_are_stripped(names: Seq<Seq<char>>, inner: Seq<char>)
    ensures
        is_stripped(inner, preprocessor_keys(names)) <==> exists|i: int|
            0 <= i < names.len() && in_section(inner, "preprocessor."@ + #[trigger] names[i]),
{
    let keys = preprocessor_keys(names);
    if is_stripped(inner, keys) {
        let i = choose|i: int| 0 <= i < keys.len() && in_section(inner, #[trigger] keys[i]);
        assert(in_section(inner, "preprocessor."@ + names[i]));
    }
    if exists|i: int|
        0 <= i < names.len() && in_section(inner, "preprocessor."@ + #[trigger] names[i]) {
        let i = choose|i: int|
            0 <= i < names.len() && in_section(inner, "preprocessor."@ + #[trigger] names[i]);
        assert(keys[i] == "preprocessor."@ + names[i]);
    }
}

/// What is kept before a header does not change what is kept from the header on.
proof fn lemma_kept_in_parts(
    a: Seq<Seq<char>>,
    b: Seq<Seq<char>>,
    keys: Seq<Seq<char>>,
    dropping: bool,
)
    requires
        b.len() == 0 || header(b[0]) is Some,
    ensures
        kept(a + b, keys, dropping) == kept(a, keys, dropping) + kept(b, keys, false),
    decreases a.len(),
{
    if a.len() > 0 {
        let drop = match header(a[0]) {
            Some(inner) => is_stripped(inner, keys),
            None => dropping,
        };
        assert((a + b).skip(1) == a.skip(1) + b);
        lemma_kept_in_parts(a.skip(1), b, keys, drop);
        assert(kept(a + b, keys, dropping) == kept(a, keys, dropping) + kept(b, keys, false));
    } else {
        assert(a + b == b);
        assert(kept(b, keys, dropping) == kept(b, keys, false));
        assert(kept(a + b, keys, dropping) == kept(a, keys, dropping) + kept(b, keys, false));
    }
}

/// Lines without a header share the fate of what stands before them.
proof fn lemma_kept_without_headers(ls: Seq<Seq<char>>, keys: Seq<Seq<char>>, dropping: bool)
    requires
        forall|i: int| 0 <= i < ls.len() ==> header(#[trigger] ls[i]) is None,
    ensures
        kept(ls, keys, dropping) == (if dropping {
            seq![]
        } else {
            ls
        }),
    decreases ls.len(),
{
    if ls.len() > 0 {
        assert(header(ls[0]) is None);
        assert forall|i: int| 0 <= i < ls.skip(1).len() implies header(
            #[trigger] ls.skip(1)[i],
        ) is None by {
            assert(ls.skip(1)[i] == ls[i + 1]);
        }
        lemma_kept_without_headers(ls.skip(1), keys, dropping);
        assert(seq![ls[0]] + ls.skip(1) == ls);
    } else {
        assert(ls == Seq::<Seq<char>>::empty());
    }
}

/// A section is removed or kept as a whole, from its header to the line before the next one: it
/// is removed just where it is one of the given sections or lies within one. What stands before it
/// and what follows it is treated as if it were not there. Lines before the first header are kept.
pub proof fn law_section_is_removed_as_a_whole(
    before: Seq<Seq<char>>,
    line: Seq<char>,
    body: Seq<Seq<char>>,
    after: Seq<Seq<char>>,
    keys: Seq<Seq<char>>,
)
    requires
        header(line) is Some,
        forall|i: int| 0 <= i < body.len() ==> header(#[trigger] body[i]) is None,
        after.len() == 0 || header(after[0]) is Some,
    ensures
        kept(before + seq![line] + body + after, keys, false) == kept(before, keys, false) + (
        if exists|i: int| 0 <= i < keys.len() && in_section(header(line)->0, #[trigger] keys[i]) {
            seq![]
        } else {
            seq![line] + body
        }) + kept(after, keys, false),
        kept(body, keys, false) == body,
{
    let own = seq![line] + body;
    let all = before + seq![line] + body + after;
    assert(all == before + (own + after));
    lemma_kept_in_parts(before, own + after, keys, false);
    lemma_kept_in_parts(own, after, keys, false);
    assert(own.skip(1) == body);
    lemma_kept_without_headers(body, keys, is_stripped(header(line)->0, keys));
    lemma_kept_without_headers(body, keys, false);
    let mid = kept(own, keys, false);
    assert(kept(before, keys, false) + (mid + kept(after, keys, false)) == kept(
        before,
        keys,
        false,
    ) + mid + kept(after, keys, false));
}

/// A text from which sections were removed is made of the lines that are kept, each with a line
/// feed behind it.
pub proof fn law_kept_lines_are_written_out(toml: Seq<char>, keys: Seq<Seq<char>>)
    ensures
        stripped(toml, keys) == unlines(kept(lines_of(toml), keys, false)),
{
}

} // verus!
