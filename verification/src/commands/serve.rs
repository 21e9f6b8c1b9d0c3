//! The preview server: its port and address, and when its pages have to be listed anew.

use vstd::prelude::*;

use crate::number::{decimal, decimal_of};
use crate::os_path::{
    byte_strings, extension, extension_of, file_name, file_name_of, is_file_name, is_inside,
    is_within, law_file_name_is_last, law_name_is_stem_and_extension, same_bytes,
};
use crate::text::{law_part_occurs, occurs, same_str};
use crate::toml_text::str_texts;

verus! {

/// The programs that HTML books are built with.
pub open spec fn mdbook_tools() -> Seq<Seq<char>> {
    seq![
        "mdbook"@,
        "mdbook-katex"@,
        "mdbook-mermaid"@,
        "mdbook-plantuml"@,
        "mdbook-pagetoc"@,
    ]
}

/// The programs that HTML books are built with.
pub fn tools() -> (r: Vec<&'static str>)
    ensures
        str_texts(r@) == mdbook_tools(),
{
    let mut r: Vec<&'static str> = Vec::new();
    r.push("mdbook");
    r.push("mdbook-katex");
    r.push("mdbook-mermaid");
    r.push("mdbook-plantuml");
    r.push("mdbook-pagetoc");
    assert(str_texts(r@) == mdbook_tools());
    r
}

// ---------------------------------------------------------------------------
// The port
// ---------------------------------------------------------------------------
/// How many ports are tried, the requested one among them.
pub const PORT_FALLBACK_RANGE: u16 = 16;

/// The first number behind the ports that are tried.
pub open spec fn window_end(requested: u16) -> int {
    if requested + PORT_FALLBACK_RANGE <= 65536 {
        requested + PORT_FALLBACK_RANGE
    } else {
        65536
    }
}

/// What to tell a user where no port is free.
pub open spec fn no_port_text(requested: u16) -> Seq<char> {
    "no free port in ["@ + decimal(requested as nat) + ", "@ + decimal(
        window_end(requested) as nat,
    ) + ")"@
}

/// The first free port from the requested one on, among those that are tried; `is_free` finds out
/// whether a port is free. The requested port is taken where it is free; there is an error only
/// where none of the ports is.
pub fn pick_free_port<F: Fn(u16) -> bool>(requested: u16, is_free: F) -> (r: Result<u16, String>)
    requires
        forall|p: u16| #[trigger] call_requires(is_free, (p,)),
    ensures
        match r {
            Ok(port) => {
                &&& requested <= port < window_end(requested)
                &&& call_ensures(is_free, (port,), true)
                &&& forall|p: u16|
                    requested <= p < port ==> #[trigger] call_ensures(is_free, (p,), false)
            },
            Err(e) => {
                &&& e@ == no_port_text(requested)
                &&& forall|p: u16|
                    requested <= p < window_end(requested) ==> #[trigger] call_ensures(
                        is_free,
                        (p,),
                        false,
                    )
            },
        },
        (forall|b: bool| #[trigger] call_ensures(is_free, (requested,), b) ==> b) ==> r == Ok::<
            u16,
            String,
        >(requested),
{
    let mut offset: u16 = 0;
    while offset < PORT_FALLBACK_RANGE && offset <= 65535 - requested
        invariant
            0 <= offset <= PORT_FALLBACK_RANGE,
            requested + offset <= 65536,
            forall|p: u16| #[trigger] call_requires(is_free, (p,)),
            forall|p: u16|
                requested <= p < requested + offset ==> #[trigger] call_ensures(
                    is_free,
                    (p,),
                    false,
                ),
        decreases PORT_FALLBACK_RANGE - offset,
    {
        let candidate: u16 = requested + offset;
        if is_free(candidate) {
            assert(candidate > requested ==> call_ensures(is_free, (requested,), false));
            return Ok(candidate);
        }
        offset += 1;
    }
    assert(requested + offset == window_end(requested));
    assert(call_ensures(is_free, (requested,), false));
    let mut out = String::new();
    out.append("no free port in [");
    out.append(decimal_of(requested as u128).as_str());
    out.append(", ");
    out.append(decimal_of(requested as u128 + offset as u128).as_str());
    out.append(")");
    assert(out@ == no_port_text(requested));
    Err(out)
}

// ---------------------------------------------------------------------------
// The address
// ---------------------------------------------------------------------------
/// Whether the server may listen at an address: at a loopback address always, at another one only
/// where `MDP_ALLOW_NON_LOOPBACK`, whose value is `allow`, is 1.
pub fn may_bind(loopback: bool, allow: Option<&str>) -> (r: bool)
    ensures
        r == (loopback || (allow matches Some(v) && v@ == "1"@)),
{
    if loopback {
        return true;
    }
    match allow {
        Some(v) => same_str(v, "1"),
        None => false,
    }
}

/// What to tell a user whose address is refused.
pub fn bind_refusal(host: &str) -> (r: String)
    ensures
        r@ == "refusing to bind non-loopback "@ + host@
            + "; set MDP_ALLOW_NON_LOOPBACK=1 to override"@,
{
    let mut out = String::new();
    out.append("refusing to bind non-loopback ");
    out.append(host);
    out.append("; set MDP_ALLOW_NON_LOOPBACK=1 to override");
    out
}

/// The line that tells other programs where the server is.
pub fn serving_line(host: &str, port: u16) -> (r: String)
    ensures
        r@ == "mdp: serving on http://"@ + host@ + ":"@ + decimal(port as nat) + "/"@,
{
    let mut out = String::new();
    out.append("mdp: serving on http://");
    out.append(host);
    out.append(":");
    out.append(decimal_of(port as u128).as_str());
    out.append("/");
    assert(out@ == "mdp: serving on http://"@ + host@ + ":"@ + decimal(port as nat) + "/"@);
    out
}

/// The URL for a browser. An IPv6 address stands in brackets.
pub open spec fn url(host: Seq<char>, ipv6: bool, port: u16) -> Seq<char> {
    let authority = if ipv6 {
        "["@ + host + "]"@
    } else {
        host
    };
    "http://"@ + authority + ":"@ + decimal(port as nat) + "/"@
}

/// The URL for a browser.
pub fn browser_url(host: &str, ipv6: bool, port: u16) -> (r: String)
    ensures
        r@ == url(host@, ipv6, port),
{
    let mut out = String::new();
    out.append("http://");
    if ipv6 {
        out.append("[");
        out.append(host);
        out.append("]");
    } else {
        out.append(host);
    }
    out.append(":");
    out.append(decimal_of(port as u128).as_str());
    out.append("/");
    assert(out@ == url(host@, ipv6, port));
    out
}

// ---------------------------------------------------------------------------
// Changes of the source directory
// ---------------------------------------------------------------------------
/// The path is that of a markdown file, by its extension in either case.
pub open spec fn is_md(path: Seq<u8>) -> bool {
    match file_name(path) {
        Some(name) => match extension(name) {
            Some(e) => e.len() == 2 && (e[0] == 0x6d || e[0] == 0x4d) && (e[1] == 0x64 || e[1]
                == 0x44),
            None => false,
        },
        None => false,
    }
}

/// Whether the path is that of a markdown file, by its extension in either case.
pub fn is_md_file(path: &[u8]) -> (r: bool)
    ensures
        r == is_md(path@),
{
    match file_name_of(path) {
        Some(name) => match extension_of(name.as_slice()) {
            Some(e) => e.len() == 2 && (e[0] == 0x6d || e[0] == 0x4d) && (e[1] == 0x64 || e[1]
                == 0x44),
            None => false,
        },
        None => false,
    }
}

/// One of the paths is that of a markdown file outside of the book's own pages.
pub open spec fn touches_pages(events: Seq<Seq<u8>>, book_src: Seq<u8>) -> bool {
    exists|i: int|
        0 <= i < events.len() && is_md(#[trigger] events[i]) && !is_within(events[i], book_src)
}

/// Whether one of the paths in which something happened is that of a markdown file outside of the
/// book's own pages, which are in `book_src`.
pub fn needs_resync(events: &Vec<Vec<u8>>, book_src: &[u8]) -> (r: bool)
    ensures
        r == touches_pages(byte_strings(events@), book_src@),
{
    for i in 0..events.len()
        invariant
            forall|j: int|
                0 <= j < i ==> !(is_md(#[trigger] byte_strings(events@)[j]) && !is_within(
                    byte_strings(events@)[j],
                    book_src@,
                )),
    {
        assert(byte_strings(events@)[i as int] == events@[i as int]@);
        if is_md_file(events[i].as_slice()) && !is_inside(events[i].as_slice(), book_src) {
            return true;
        }
    }
    false
}

/// Whether two lists of paths are the same.
fn same_list(a: &Vec<Vec<u8>>, b: &Vec<Vec<u8>>) -> (r: bool)
    ensures
        r == (byte_strings(a@) == byte_strings(b@)),
{
    assert(byte_strings(a@).len() == a@.len() && byte_strings(b@).len() == b@.len());
    if a.len() != b.len() {
        return false;
    }
    for i in 0..a.len()
        invariant
            a@.len() == b@.len(),
            forall|j: int|
                0 <= j < i ==> #[trigger] byte_strings(a@)[j] == byte_strings(b@)[j],
    {
        assert(byte_strings(a@)[i as int] == a@[i as int]@);
        assert(byte_strings(b@)[i as int] == b@[i as int]@);
        if !same_bytes(a[i].as_slice(), b[i].as_slice()) {
            return false;
        }
    }
    assert(byte_strings(a@) == byte_strings(b@));
    true
}

/// Whether the book's pages have to be listed anew: something happened to a markdown file, and
/// there are not the same pages `after` as `before`. Where the pages could not be listed, they may
/// be others.
pub fn resync_due(
    events: &Vec<Vec<u8>>,
    book_src: &[u8],
    before: &Option<Vec<Vec<u8>>>,
    after: &Option<Vec<Vec<u8>>>,
) -> (r: bool)
    ensures
        r == (touches_pages(byte_strings(events@), book_src@) && match (*before, *after) {
            (Some(a), Some(b)) => byte_strings(a@) != byte_strings(b@),
            _ => true,
        }),
{
    if !needs_resync(events, book_src) {
        return false;
    }
    match (before, after) {
        (Some(a), Some(b)) => !same_list(a, b),
        _ => true,
    }
}

// ---------------------------------------------------------------------------
// Laws
// ---------------------------------------------------------------------------
/// Sixteen ports are tried, from the requested one on, or as many as there are up to the last.
pub proof fn law_sixteen_ports_are_tried(requested: u16)
    ensures
        requested <= 65520 ==> window_end(requested) == requested + 16,
        requested > 65520 ==> window_end(requested) == 65536,
{
}

/// A user is told which ports were tried, from the first to the one behind the last.
pub proof fn law_tried_ports_are_told(requested: u16)
    ensures
        occurs(
            "["@ + decimal(requested as nat) + ", "@ + decimal(window_end(requested) as nat) + ")"@,
            no_port_text(requested),
        ),
{
    let a = decimal(requested as nat);
    let b = decimal(window_end(requested) as nat);
    lemma_port_text(a, b);
    law_part_occurs("no free port in "@, "["@ + a + ", "@ + b + ")"@, Seq::<char>::empty());
}

/// The text on ports, taken apart.
proof fn lemma_port_text(a: Seq<char>, b: Seq<char>)
    ensures
        "no free port in ["@ + a + ", "@ + b + ")"@ == "no free port in "@ + ("["@ + a + ", "@ + b
            + ")"@) + Seq::<char>::empty(),
{
    reveal_strlit("no free port in [");
    reveal_strlit("no free port in ");
    reveal_strlit("[");
    assert("no free port in ["@ == "no free port in "@ + "["@);
}

/// The URL names the host and the port; an IPv6 address, and no other, stands in brackets.
pub proof fn law_url_names_host_and_port(host: Seq<char>, port: u16)
    ensures
        url(host, false, port) == "http://"@ + host + ":"@ + decimal(port as nat) + "/"@,
        url(host, true, port) == url(seq!['['] + host + seq![']'], false, port),
{
    reveal_strlit("[");
    reveal_strlit("]");
    assert("["@ == seq!['[']);
    assert("]"@ == seq![']']);
}

/// A path is that of a markdown file just where its file name ends in `.md`, in either case, with
/// something before it.
pub proof fn law_markdown_files_end_in_md(p: Seq<u8>, base: Seq<u8>, ext: Seq<u8>)
    requires
        p.len() > 0,
        base.len() > 0,
        is_file_name(base + seq![46u8] + ext),
        forall|i: int| 0 <= i < ext.len() ==> ext[i] != 46,
    ensures
        is_md(p + seq![47u8] + (base + seq![46u8] + ext)) <==> ext == seq![0x6du8, 0x64u8] || ext
            == seq![0x4du8, 0x64u8] || ext == seq![0x6du8, 0x44u8] || ext == seq![0x4du8, 0x44u8],
        is_md(p + seq![47u8]) == is_md(p),
{
    let name = base + seq![46u8] + ext;
    law_file_name_is_last(p, name);
    law_name_is_stem_and_extension(base, ext);
    if ext.len() == 2 {
        assert(ext == seq![ext[0], ext[1]]);
    }
}

/// Something that happened to a markdown file counts, unless the file is one of the book's own
/// pages; what happened besides does not matter.
pub proof fn law_changed_pages_count(a: Seq<Seq<u8>>, path: Seq<u8>, b: Seq<Seq<u8>>, src: Seq<u8>)
    ensures
        is_md(path) && !is_within(path, src) ==> touches_pages(a + seq![path] + b, src),
        !is_md(path) || is_within(path, src) ==> touches_pages(a + seq![path] + b, src)
            == touches_pages(a + b, src),
        !touches_pages(Seq::<Seq<u8>>::empty(), src),
{
    let all = a + seq![path] + b;
    let n = a.len() as int;
    assert(all[n] == path);
    if !is_md(path) || is_within(path, src) {
        if touches_pages(all, src) {
            let i = choose|i: int|
                0 <= i < all.len() && is_md(#[trigger] all[i]) && !is_within(all[i], src);
            if i < n {
                assert((a + b)[i] == all[i]);
            } else {
                assert((a + b)[i - 1] == all[i]);
            }
        }
        if touches_pages(a + b, src) {
            let i = choose|i: int|
                0 <= i < (a + b).len() && is_md(#[trigger] (a + b)[i]) && !is_within(
                    (a + b)[i],
                    src,
                );
            if i < n {
                assert(all[i] == (a + b)[i]);
            } else {
                assert(all[i + 1] == (a + b)[i]);
            }
        }
    }
}

} // verus!
