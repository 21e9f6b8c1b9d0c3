//! Images inside of texts: base64, and the markdown that shows an image from a data URI.

use vstd::prelude::*;

verus! {

// ---------------------------------------------------------------------------
// Base64
// ---------------------------------------------------------------------------
/// The character for six bits.
pub open spec fn base64_char(v: int) -> char {
    if v < 26 {
        (65 + v) as char
    } else if v < 52 {
        (97 + v - 26) as char
    } else if v < 62 {
        (48 + v - 52) as char
    } else if v == 62 {
        '+'
    } else {
        '/'
    }
}

/// The bytes in base64: four characters for every three bytes, filled up with equals signs.
pub open spec fn base64_text(b: Seq<u8>) -> Seq<char>
    decreases b.len(),
{
    if b.len() == 0 {
        seq![]
    } else if b.len() == 1 {
        seq![base64_char(b[0] as int / 4), base64_char(b[0] as int % 4 * 16), '=', '=']
    } else if b.len() == 2 {
        seq![
            base64_char(b[0] as int / 4),
            base64_char(b[0] as int % 4 * 16 + b[1] as int / 16),
            base64_char(b[1] as int % 16 * 4),
            '=',
        ]
    } else {
        seq![
            base64_char(b[0] as int / 4),
            base64_char(b[0] as int % 4 * 16 + b[1] as int / 16),
            base64_char(b[1] as int % 16 * 4 + b[2] as int / 64),
            base64_char(b[2] as int % 64),
        ] + base64_text(b.skip(3))
    }
}

/// How many characters the base64 of `n` bytes has.
pub open spec fn base64_len(n: nat) -> nat {
    (n + 2) / 3 * 4
}

/// `base64::Engine::encode` with `base64::engine::general_purpose::STANDARD`: the bytes in the
/// standard base64 alphabet, padded with equals signs to a multiple of four characters. It panics
/// where the text would be longer than a string can be.
#[verifier::external_body]
pub(crate) fn base64_encode(b: &[u8]) -> (r: String)
    requires
        base64_len(b@.len()) <= isize::MAX,
    ensures
        r@ == base64_text(b@),
{
    base64::Engine::encode(&base64::engine::general_purpose::STANDARD, b)
}

/// The six bits that a character stands for.
pub open spec fn base64_value(c: char) -> int {
    if 'A' <= c && c <= 'Z' {
        c as int - 65
    } else if 'a' <= c && c <= 'z' {
        c as int - 97 + 26
    } else if '0' <= c && c <= '9' {
        c as int - 48 + 52
    } else if c == '+' {
        62
    } else {
        63
    }
}

/// The bytes that a padded base64 text stands for.
pub open spec fn base64_bytes(t: Seq<char>) -> Seq<u8>
    decreases t.len(),
{
    if t.len() < 4 {
        seq![]
    } else {
        let b0 = (base64_value(t[0]) * 4 + base64_value(t[1]) / 16) as u8;
        let b1 = (base64_value(t[1]) % 16 * 16 + base64_value(t[2]) / 4) as u8;
        let b2 = (base64_value(t[2]) % 4 * 64 + base64_value(t[3])) as u8;
        if t[2] == '=' {
            seq![b0]
        } else if t[3] == '=' {
            seq![b0, b1]
        } else {
            seq![b0, b1, b2] + base64_bytes(t.skip(4))
        }
    }
}

/// A character stands for the six bits that it was made from, and is not the padding.
proof fn lemma_base64_char(v: int)
    requires
        0 <= v < 64,
    ensures
        base64_value(base64_char(v)) == v,
        base64_char(v) != '=',
{
}

/// An image that was put into a text can be got back out of it.
pub proof fn law_base64_decodes(b: Seq<u8>)
    ensures
        base64_bytes(base64_text(b)) == b,
    decreases b.len(),
{
    let t = base64_text(b);
    if b.len() == 1 {
        lemma_base64_char(b[0] as int / 4);
        lemma_base64_char(b[0] as int % 4 * 16);
        assert(b[0] as int / 4 * 4 + b[0] as int % 4 * 16 / 16 == b[0] as int);
        assert(base64_bytes(t) == b);
    } else if b.len() == 2 {
        lemma_base64_char(b[0] as int / 4);
        lemma_base64_char(b[0] as int % 4 * 16 + b[1] as int / 16);
        lemma_base64_char(b[1] as int % 16 * 4);
        assert(base64_bytes(t) == b);
    } else if b.len() > 2 {
        lemma_base64_char(b[0] as int / 4);
        lemma_base64_char(b[0] as int % 4 * 16 + b[1] as int / 16);
        lemma_base64_char(b[1] as int % 16 * 4 + b[2] as int / 64);
        lemma_base64_char(b[2] as int % 64);
        law_base64_decodes(b.skip(3));
        assert(t.skip(4) == base64_text(b.skip(3)));
        assert(base64_bytes(t) == b);
    } else {
        assert(base64_bytes(t) == b);
    }
}

// ---------------------------------------------------------------------------
// Images
// ---------------------------------------------------------------------------
/// The markdown line that shows an image.
pub open spec fn image_line(alt: Seq<char>, mime: Seq<char>, data: Seq<u8>) -> Seq<char> {
    "!["@ + alt + "](data:"@ + mime + ";base64,"@ + base64_text(data) + ")\n"@
}

/// Appends the markdown line that shows an image.
pub fn push_image(out: &mut String, alt: &str, mime: &str, data: &[u8])
    requires
        base64_len(data@.len()) <= isize::MAX,
    ensures
        final(out)@ == old(out)@ + image_line(alt@, mime@, data@),
{
    out.append("![");
    out.append(alt);
    out.append("](data:");
    out.append(mime);
    out.append(";base64,");
    out.append(base64_encode(data).as_str());
    out.append(")\n");
    assert(out@ == old(out)@ + image_line(alt@, mime@, data@));
}

} // verus!
