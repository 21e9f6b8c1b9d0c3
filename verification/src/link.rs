//! The text and the target of a link in the book's summary.

use vstd::arithmetic::power::pow;
use vstd::prelude::*;

use crate::number::{hex_number, hex_padded, lemma_hex_digits, lemma_hex_reads_back, push_hex};
use crate::text::{chars_of, occurs};

verus! {

// ---------------------------------------------------------------------------
// Link targets
// ---------------------------------------------------------------------------
/// Characters that stand for themselves in a link target.
pub open spec fn is_plain_in_url(c: char) -> bool {
    ||| 'A' <= c && c <= 'Z'
    ||| 'a' <= c && c <= 'z'
    ||| '0' <= c && c <= '9'
    ||| c == '/' || c == '-' || c == '.' || c == '_' || c == '~'
    ||| c >= '\u{80}'
}

/// What stands for the character `c` of a path in a link target.
pub open spec fn url_char(c: char) -> Seq<char> {
    if c == '\\' {
        seq!['/']
    } else if is_plain_in_url(c) {
        seq![c]
    } else {
        seq!['%'] + hex_padded(c as u32 as nat, 2)
    }
}

/// What stands for the path `s` in a link target, after the leading `./`.
pub open spec fn url_path(s: Seq<char>) -> Seq<char>
    decreases s.len(),
{
    if s.len() == 0 {
        seq![]
    } else {
        url_char(s[0]) + url_path(s.skip(1))
    }
}

/// The link target for the relative path `s`.
pub open spec fn link_url(s: Seq<char>) -> Seq<char> {
    "./"@ + url_path(s)
}

/// The link target for a relative path: `./`, then the path with `/` for every backslash and
/// with the ASCII characters that could end or change a link percent-encoded.
pub fn format_link_url(rel: &str) -> (r: String)
    ensures
        r@ == link_url(rel@),
{
    let cs = chars_of(rel);
    let mut out = String::new();
    out.append("./");
    assert(cs@.skip(0) == rel@);
    for i in 0..cs.len()
        invariant
            out@ + url_path(cs@.skip(i as int)) == link_url(rel@),
    {
        let c = cs[i];
        let ghost before = out@;
        assert(cs@.skip(i as int).skip(1) == cs@.skip(i + 1));
        if c == '\\' {
            out.push('/');
        } else if ('A' <= c && c <= 'Z') || ('a' <= c && c <= 'z') || ('0' <= c && c <= '9') || c
            == '/' || c == '-' || c == '.' || c == '_' || c == '~' || c >= '\u{80}' {
            out.push(c);
        } else {
            out.push('%');
            push_hex(&mut out, c as u32, 2);
        }
        assert(out@ == before + url_char(c));
    }
    assert(cs@.skip(cs@.len() as int).len() == 0);
    assert(out@ == link_url(rel@));
    out
}

// ---------------------------------------------------------------------------
// Link texts
// ---------------------------------------------------------------------------
/// What stands for the character `c` of a title in a link text.
pub open spec fn link_char(c: char) -> Seq<char> {
    if c == '[' || c == ']' || c == '\\' || c == '`' {
        seq!['\\', c]
    } else if c == '<' {
        "&lt;"@
    } else if c == '>' {
        "&gt;"@
    } else {
        seq![c]
    }
}

/// The link text for the title `s`.
pub open spec fn link_text(s: Seq<char>) -> Seq<char>
    decreases s.len(),
{
    if s.len() == 0 {
        seq![]
    } else {
        link_char(s[0]) + link_text(s.skip(1))
    }
}

/// The link text for a title: brackets, backslashes and backticks are escaped, and angle brackets
/// become character references, so that the title can neither end the link nor hold HTML.
pub fn escape_link_text(title: &str) -> (r: String)
    ensures
        r@ == link_text(title@),
{
    let cs = chars_of(title);
    let mut out = String::new();
    assert(cs@.skip(0) == title@);
    for i in 0..cs.len()
        invariant
            out@ + link_text(cs@.skip(i as int)) == link_text(title@),
    {
        let c = cs[i];
        let ghost before = out@;
        assert(cs@.skip(i as int).skip(1) == cs@.skip(i + 1));
        if c == '[' || c == ']' || c == '\\' || c == '`' {
            out.push('\\');
            out.push(c);
        } else if c == '<' {
            out.append("&lt;");
        } else if c == '>' {
            out.append("&gt;");
        } else {
            out.push(c);
        }
        assert(out@ == before + link_char(c));
    }
    assert(cs@.skip(cs@.len() as int).len() == 0);
    assert(out@ == link_text(title@));
    out
}

// ---------------------------------------------------------------------------
// Laws
// ---------------------------------------------------------------------------
/// A link target with its percent-encoded characters decoded.
pub open spec fn percent_decoded(t: Seq<char>) -> Seq<char>
    decreases t.len(),
{
    if t.len() == 0 {
        seq![]
    } else if t[0] == '%' && t.len() >= 3 && hex_number(t.subrange(1, 3)) is Some {
        seq![hex_number(t.subrange(1, 3))->0 as u32 as char] + percent_decoded(t.skip(3))
    } else {
        seq![t[0]] + percent_decoded(t.skip(1))
    }
}

/// The character itself, or a slash for a backslash.
pub open spec fn slash(c: char) -> char {
    if c == '\\' {
        '/'
    } else {
        c
    }
}

/// The path with a slash for every backslash.
pub open spec fn slashed(s: Seq<char>) -> Seq<char> {
    Seq::new(s.len(), |i: int| slash(s[i]))
}

/// What stands for a character in a link target is decoded as that character.
proof fn lemma_char_decodes(c: char, tail: Seq<char>)
    ensures
        percent_decoded(url_char(c) + tail) == seq![slash(c)] + percent_decoded(tail),
{
    let t = url_char(c) + tail;
    if c == '\\' || is_plain_in_url(c) {
        assert(t.skip(1) == tail);
    } else {
        let n = c as u32 as nat;
        assert(n < 128 && n as u32 as char == c);
        assert(pow(16, 2) == 256) by {
            reveal_with_fuel(pow, 3);
        }
        lemma_hex_reads_back(n, 2);
        assert(t.subrange(1, 3) == hex_padded(n, 2));
        assert(t.skip(3) == tail);
    }
}

/// A link target leads to the path that it was made for: decoded, it is the path with slashes
/// for its backslashes.
pub proof fn law_url_leads_to_path(s: Seq<char>)
    ensures
        percent_decoded(url_path(s)) == slashed(s),
    decreases s.len(),
{
    if s.len() > 0 {
        law_url_leads_to_path(s.skip(1));
        lemma_char_decodes(s[0], url_path(s.skip(1)));
        assert(slashed(s) == seq![slash(s[0])] + slashed(s.skip(1)));
    } else {
        assert(percent_decoded(url_path(s)) == slashed(s));
    }
}

/// A link target holds no character that could end it or begin something else: only letters,
/// digits, `/`, `-`, `.`, `_`, `~`, `%` and characters beyond ASCII.
pub proof fn law_url_is_plain(s: Seq<char>)
    ensures
        forall|i: int|
            0 <= i < url_path(s).len() ==> is_plain_in_url(#[trigger] url_path(s)[i])
                || url_path(s)[i] == '%',
    decreases s.len(),
{
    if s.len() > 0 {
        let head = url_char(s[0]);
        let tail = url_path(s.skip(1));
        law_url_is_plain(s.skip(1));
        lemma_hex_digits(s[0] as u32 as nat, 2);
        assert forall|i: int| 0 <= i < url_path(s).len() implies is_plain_in_url(
            #[trigger] url_path(s)[i],
        ) || url_path(s)[i] == '%' by {
            if i < head.len() {
                assert(url_path(s)[i] == head[i]);
                if head.len() == 3 && i > 0 {
                    assert(head[i] == hex_padded(s[0] as u32 as nat, 2)[i - 1]);
                }
            } else {
                assert(url_path(s)[i] == tail[i - head.len()]);
            }
        }
    }
}

/// The characters of a link text that a markdown reader gives a meaning: those that no backslash
/// stands before.
pub open spec fn active_chars(t: Seq<char>) -> Seq<char>
    decreases t.len(),
{
    if t.len() == 0 {
        seq![]
    } else if t[0] == '\\' && t.len() >= 2 {
        active_chars(t.skip(2))
    } else {
        seq![t[0]] + active_chars(t.skip(1))
    }
}

/// The character could end a link text, or begin code or HTML in it.
pub open spec fn is_markup(c: char) -> bool {
    c == '[' || c == ']' || c == '`' || c == '<' || c == '>' || c == '\\'
}

/// Whatever the title, its link text ends where the title ends: none of its characters that have
/// a meaning is a bracket, a backtick, an angle bracket or a backslash.
pub proof fn law_link_text_holds_no_markup(s: Seq<char>)
    ensures
        forall|i: int|
            0 <= i < active_chars(link_text(s)).len() ==> !is_markup(
                #[trigger] active_chars(link_text(s))[i],
            ),
    decreases s.len(),
{
    if s.len() > 0 {
        let c = s[0];
        let tail = link_text(s.skip(1));
        let t = link_char(c) + tail;
        law_link_text_holds_no_markup(s.skip(1));
        reveal_strlit("&lt;");
        reveal_strlit("&gt;");
        if c == '[' || c == ']' || c == '\\' || c == '`' {
            assert(t.skip(2) == tail);
        } else if c == '<' || c == '>' {
            reveal_with_fuel(active_chars, 5);
            assert(t.skip(1).skip(1).skip(1).skip(1) == tail);
            assert(active_chars(t) == link_char(c) + active_chars(tail));
        } else {
            assert(t.skip(1) == tail);
        }
        assert forall|i: int| 0 <= i < active_chars(t).len() implies !is_markup(
            #[trigger] active_chars(t)[i],
        ) by {
            let k = active_chars(t).len() - active_chars(tail).len();
            if i >= k {
                assert(active_chars(t)[i] == active_chars(tail)[i - k]);
            }
        }
    }
}

/// What a markdown reader shows of a link text: a backslash and a character as that character, and
/// the character references of the angle brackets as those.
pub open spec fn shown(t: Seq<char>) -> Seq<char>
    decreases t.len(),
{
    if t.len() == 0 {
        seq![]
    } else if t[0] == '\\' && t.len() >= 2 {
        seq![t[1]] + shown(t.skip(2))
    } else if "&lt;"@.is_prefix_of(t) && t.len() >= 4 {
        seq!['<'] + shown(t.skip(4))
    } else if "&gt;"@.is_prefix_of(t) && t.len() >= 4 {
        seq!['>'] + shown(t.skip(4))
    } else {
        seq![t[0]] + shown(t.skip(1))
    }
}

/// A link text that begins with plain characters was made for a title that does.
proof fn lemma_title_begins(s: Seq<char>, p: Seq<char>)
    requires
        p.is_prefix_of(link_text(s)),
        forall|i: int| 0 <= i < p.len() ==> p[i] != '\\' && p[i] != '&',
    ensures
        p.is_prefix_of(s),
    decreases p.len(),
{
    let t = link_text(s);
    if p.len() > 0 {
        reveal_strlit("&lt;");
        reveal_strlit("&gt;");
        assert(p[0] == t[0]);
        assert(t[0] == link_char(s[0])[0]);
        assert(link_char(s[0]) == seq![s[0]]);
        assert(t.skip(1) == link_text(s.skip(1)));
        let rest = p.skip(1);
        assert(rest == t.skip(1).take(rest.len() as int));
        lemma_title_begins(s.skip(1), rest);
        assert forall|i: int| 0 <= i < p.len() implies p[i] == s[i] by {
            if i > 0 {
                assert(p[i] == rest[i - 1]);
                assert(s[i] == s.skip(1)[i - 1]);
                assert(rest == s.skip(1).take(rest.len() as int));
            }
        }
        assert(p == s.take(p.len() as int));
    }
}

/// What occurs behind the first character of a text occurs in the text.
proof fn lemma_occurs_behind(p: Seq<char>, s: Seq<char>)
    requires
        s.len() > 0,
        occurs(p, s.skip(1)),
    ensures
        occurs(p, s),
{
    let i = choose|i: int| 0 <= i <= s.skip(1).len() && p.is_prefix_of(#[trigger] s.skip(1).skip(i));
    assert(s.skip(1).skip(i) == s.skip(i + 1));
}

/// A character reference at the front of a link text, where it does not stand for an angle
/// bracket, is spelled out in the title.
proof fn lemma_reference_is_in_title(s: Seq<char>, p: Seq<char>)
    requires
        s.len() > 0,
        link_char(s[0]) == seq![s[0]],
        p.len() > 0,
        p.is_prefix_of(link_text(s)),
        forall|i: int| 1 <= i < p.len() ==> p[i] != '\\' && p[i] != '&',
    ensures
        occurs(p, s),
{
    let t = link_text(s);
    let rest = s.skip(1);
    let q = p.skip(1);
    assert(t.skip(1) == link_text(rest));
    assert(p == t.take(p.len() as int));
    assert(q == t.skip(1).take(q.len() as int));
    lemma_title_begins(rest, q);
    assert forall|i: int| 0 <= i < p.len() implies p[i] == s[i] by {
        if i > 0 {
            assert(p[i] == q[i - 1]);
            assert(q[i - 1] == rest.take(q.len() as int)[i - 1]);
        } else {
            assert(p[0] == t[0]);
        }
    }
    assert(p == s.take(p.len() as int));
    assert(s.skip(0) == s);
    assert(p.is_prefix_of(s.skip(0)));
}

/// What stands for a character in a link text is shown as that character, unless the text there
/// spells out a character reference.
proof fn lemma_char_is_shown(c: char, tail: Seq<char>)
    requires
        link_char(c) == seq![c] ==> !"&lt;"@.is_prefix_of(link_char(c) + tail)
            && !"&gt;"@.is_prefix_of(link_char(c) + tail),
    ensures
        shown(link_char(c) + tail) == seq![c] + shown(tail),
{
    reveal_strlit("&lt;");
    reveal_strlit("&gt;");
    let t = link_char(c) + tail;
    if c == '[' || c == ']' || c == '\\' || c == '`' {
        assert(t.skip(2) == tail);
    } else if c == '<' {
        assert(t.take(4) == "&lt;"@);
        assert(t.skip(4) == tail);
    } else if c == '>' {
        assert(t.take(4) == "&gt;"@);
        assert(t.skip(4) == tail);
        if "&lt;"@.is_prefix_of(t) {
            assert("&lt;"@[1] == t.take(4)[1]);
        }
    } else {
        assert(t.skip(1) == tail);
    }
}

/// A link text shows the title that it was made for, whatever characters the title holds; save
/// for a title in which a character reference of an angle bracket is spelled out, which a reader
/// takes for the angle bracket.
pub proof fn law_link_text_shows_title(s: Seq<char>)
    requires
        !occurs("&lt;"@, s),
        !occurs("&gt;"@, s),
    ensures
        shown(link_text(s)) == s,
    decreases s.len(),
{
    let lt = "&lt;"@;
    let gt = "&gt;"@;
    if s.len() > 0 {
        let c = s[0];
        if occurs(lt, s.skip(1)) {
            lemma_occurs_behind(lt, s);
        }
        if occurs(gt, s.skip(1)) {
            lemma_occurs_behind(gt, s);
        }
        law_link_text_shows_title(s.skip(1));
        if link_char(c) == seq![c] {
            assert(lt.len() == 4 && gt.len() == 4 && (forall|i: int|
                1 <= i < 4 ==> lt[i] != '\\' && lt[i] != '&' && gt[i] != '\\' && gt[i] != '&')) by {
                reveal_strlit("&lt;");
                reveal_strlit("&gt;");
            }
            if lt.is_prefix_of(link_text(s)) {
                lemma_reference_is_in_title(s, lt);
            }
            if gt.is_prefix_of(link_text(s)) {
                lemma_reference_is_in_title(s, gt);
            }
        }
        lemma_char_is_shown(c, link_text(s.skip(1)));
        assert(seq![c] + s.skip(1) == s);
    }
}

/// A title without brackets, backslashes, backticks and angle brackets is its own link text.
pub proof fn law_plain_title_is_its_link_text(s: Seq<char>)
    requires
        forall|i: int|
            0 <= i < s.len() ==> s[i] != '[' && s[i] != ']' && s[i] != '\\' && s[i] != '`' && s[i]
                != '<' && s[i] != '>',
    ensures
        link_text(s) == s,
    decreases s.len(),
{
    if s.len() > 0 {
        assert forall|i: int| 0 <= i < s.skip(1).len() implies s.skip(1)[i] != '[' && s.skip(1)[i]
            != ']' && s.skip(1)[i] != '\\' && s.skip(1)[i] != '`' && s.skip(1)[i] != '<'
            && s.skip(1)[i] != '>' by {
            assert(s.skip(1)[i] == s[i + 1]);
        }
        law_plain_title_is_its_link_text(s.skip(1));
        assert(seq![s[0]] + s.skip(1) == s);
    }
}

/// The link text of a title is made character by character: what stands before or behind a part
/// of the title does not change what stands for that part.
pub proof fn law_link_text_of_concatenation(a: Seq<char>, b: Seq<char>)
    ensures
        link_text(a + b) == link_text(a) + link_text(b),
    decreases a.len(),
{
    if a.len() > 0 {
        assert((a + b).skip(1) == a.skip(1) + b);
        law_link_text_of_concatenation(a.skip(1), b);
        assert(link_text(a + b) == link_text(a) + link_text(b));
    } else {
        assert(a + b == b);
        assert(link_text(a + b) == link_text(a) + link_text(b));
    }
}

/// A link text holds no angle bracket, not even behind a backslash.
pub proof fn law_link_text_holds_no_angle_brackets(s: Seq<char>)
    ensures
        forall|i: int|
            0 <= i < link_text(s).len() ==> #[trigger] link_text(s)[i] != '<' && link_text(s)[i]
                != '>',
    decreases s.len(),
{
    if s.len() > 0 {
        let head = link_char(s[0]);
        let tail = link_text(s.skip(1));
        law_link_text_holds_no_angle_brackets(s.skip(1));
        reveal_strlit("&lt;");
        reveal_strlit("&gt;");
        assert forall|i: int| 0 <= i < link_text(s).len() implies #[trigger] link_text(s)[i] != '<'
            && link_text(s)[i] != '>' by {
            if i < head.len() {
                assert(link_text(s)[i] == head[i]);
            } else {
                assert(link_text(s)[i] == tail[i - head.len()]);
            }
        }
    }
}

/// A path of letters, digits, `/`, `-`, `.`, `_`, `~` and characters beyond ASCII is its own link
/// target.
pub proof fn law_plain_path_is_its_url(s: Seq<char>)
    requires
        forall|i: int|
            0 <= i < s.len() ==> ('A' <= #[trigger] s[i] && s[i] <= 'Z') || ('a' <= s[i] && s[i]
                <= 'z') || ('0' <= s[i] && s[i] <= '9') || s[i] == '/' || s[i] == '-' || s[i] == '.'
                || s[i] == '_' || s[i] == '~' || s[i] >= '\u{80}',
    ensures
        url_path(s) == s,
        link_url(s) == seq!['.', '/'] + s,
    decreases s.len(),
{
    reveal_strlit("./");
    assert("./"@ == seq!['.', '/']);
    if s.len() > 0 {
        let rest = s.skip(1);
        assert forall|i: int| 0 <= i < rest.len() implies ('A' <= #[trigger] rest[i] && rest[i]
            <= 'Z') || ('a' <= rest[i] && rest[i] <= 'z') || ('0' <= rest[i] && rest[i] <= '9')
            || rest[i] == '/' || rest[i] == '-' || rest[i] == '.' || rest[i] == '_' || rest[i]
            == '~' || rest[i] >= '\u{80}' by {
            assert(rest[i] == s[i + 1]);
        }
        law_plain_path_is_its_url(rest);
        assert(is_plain_in_url(s[0]));
        assert(seq![s[0]] + rest == s);
    }
}

/// A character that could end or change a link becomes a percent sign and two hexadecimal digits,
/// with capital letters.
pub proof fn law_other_characters_are_encoded(c: char)
    requires
        c < '\u{80}',
        !('A' <= c && c <= 'Z') && !('a' <= c && c <= 'z') && !('0' <= c && c <= '9'),
        c != '/' && c != '-' && c != '.' && c != '_' && c != '~' && c != '\\',
    ensures
        url_path(seq![c]).len() == 3,
        url_path(seq![c])[0] == '%',
        forall|i: int|
            1 <= i < 3 ==> ('0' <= #[trigger] url_path(seq![c])[i] && url_path(seq![c])[i] <= '9')
                || ('A' <= url_path(seq![c])[i] && url_path(seq![c])[i] <= 'F'),
        hex_number(url_path(seq![c]).skip(1)) == Some(c as u32 as nat),
{
    let n = c as u32 as nat;
    let ds = hex_padded(n, 2);
    assert(pow(16, 2) == 256) by {
        reveal_with_fuel(pow, 3);
    }
    lemma_hex_reads_back(n, 2);
    lemma_hex_digits(n, 2);
    assert(url_path(seq![c].skip(1)) == Seq::<char>::empty());
    assert(url_path(seq![c]) == seq!['%'] + ds);
    assert(url_path(seq![c]).skip(1) == ds);
    assert forall|i: int| 1 <= i < 3 implies ('0' <= #[trigger] url_path(seq![c])[i]
        && url_path(seq![c])[i] <= '9') || ('A' <= url_path(seq![c])[i] && url_path(seq![c])[i]
        <= 'F') by {
        assert(url_path(seq![c])[i] == ds[i - 1]);
    }
}

/// A link target is made character by character.
pub proof fn law_url_of_concatenation(a: Seq<char>, b: Seq<char>)
    ensures
        url_path(a + b) == url_path(a) + url_path(b),
        link_url(a + b) == link_url(a) + url_path(b),
    decreases a.len(),
{
    if a.len() > 0 {
        assert((a + b).skip(1) == a.skip(1) + b);
        law_url_of_concatenation(a.skip(1), b);
        assert(url_path(a + b) == url_path(a) + url_path(b));
    } else {
        assert(a + b == b);
        assert(url_path(a + b) == url_path(a) + url_path(b));
    }
    assert(link_url(a + b) == link_url(a) + url_path(b));
}

} // verus!
