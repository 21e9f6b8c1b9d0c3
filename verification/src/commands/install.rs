//! The installation of the tools that books are built with.

use vstd::prelude::*;

use crate::commands::pdf::required_tools;
use crate::commands::serve::mdbook_tools;
use crate::text::texts;

verus! {

/// The crates to install, each with the version that is asked for.
pub open spec fn crate_table() -> Seq<(Seq<char>, Seq<char>)> {
    seq![
        ("mdbook"@, "~0.5.2"@),
        ("mdbook-katex"@, "=0.10.0-alpha"@),
        ("mdbook-mermaid"@, "~0.17.0"@),
        ("mdbook-plantuml"@, "~2.0.0"@),
        ("mdbook-pagetoc"@, "~0.3.0"@),
        ("mdbook-pandoc"@, "~0.11.0"@),
    ]
}

/// The programs that some features need, each with a hint on how to install it.
pub open spec fn system_table() -> Seq<(Seq<char>, Seq<char>)> {
    seq![
        ("plantuml"@, "pacman -S plantuml / brew install plantuml"@),
        ("mmdc"@, "npm i -g @mermaid-js/mermaid-cli"@),
        ("pandoc"@, "pacman -S pandoc / brew install pandoc"@),
        ("lualatex"@, "pacman -S texlive-luatex / brew install --cask mactex"@),
    ]
}

/// The texts of pairs of string slices.
pub open spec fn pair_texts(v: Seq<(&str, &str)>) -> Seq<(Seq<char>, Seq<char>)> {
    Seq::new(v.len(), |i: int| (v[i].0@, v[i].1@))
}

/// The crates to install, each with the version that is asked for.
pub fn crates() -> (r: Vec<(&'static str, &'static str)>)
    ensures
        pair_texts(r@) == crate_table(),
{
    let mut r: Vec<(&'static str, &'static str)> = Vec::new();
    r.push(("mdbook", "~0.5.2"));
    r.push(("mdbook-katex", "=0.10.0-alpha"));
    r.push(("mdbook-mermaid", "~0.17.0"));
    r.push(("mdbook-plantuml", "~2.0.0"));
    r.push(("mdbook-pagetoc", "~0.3.0"));
    r.push(("mdbook-pandoc", "~0.11.0"));
    assert(pair_texts(r@) == crate_table());
    r
}

/// The programs that some features need, each with a hint on how to install it.
pub fn system_bins() -> (r: Vec<(&'static str, &'static str)>)
    ensures
        pair_texts(r@) == system_table(),
{
    let mut r: Vec<(&'static str, &'static str)> = Vec::new();
    r.push(("plantuml", "pacman -S plantuml / brew install plantuml"));
    r.push(("mmdc", "npm i -g @mermaid-js/mermaid-cli"));
    r.push(("pandoc", "pacman -S pandoc / brew install pandoc"));
    r.push(("lualatex", "pacman -S texlive-luatex / brew install --cask mactex"));
    assert(pair_texts(r@) == system_table());
    r
}

/// The arguments with which `cargo` installs a crate.
pub open spec fn cargo_args(name: Seq<char>, version: Seq<char>, force: bool) -> Seq<Seq<char>> {
    let args = seq!["install"@, name, "--version"@, version, "--locked"@];
    if force {
        args.push("--force"@)
    } else {
        args
    }
}

/// What to do about one crate: the arguments for `cargo`, or nothing where the crate's program was
/// found already. With `force` it is installed in any case.
pub fn install_step(name: &str, version: &str, force: bool, found: bool) -> (r: Option<
    Vec<String>,
>)
    ensures
        r is None <==> (found && !force),
        r matches Some(args) ==> texts(args@) == cargo_args(name@, version@, force),
{
    if !force && found {
        return None;
    }
    let mut args: Vec<String> = Vec::new();
    args.push("install".to_owned());
    args.push(name.to_owned());
    args.push("--version".to_owned());
    args.push(version.to_owned());
    args.push("--locked".to_owned());
    if force {
        args.push("--force".to_owned());
    }
    assert(texts(args@) == cargo_args(name@, version@, force));
    Some(args)
}

/// The warnings about programs that were not found, one line for each.
pub open spec fn hints_of(table: Seq<(Seq<char>, Seq<char>)>, found: Seq<bool>) -> Seq<Seq<char>>
    decreases table.len(),
{
    if table.len() == 0 || found.len() == 0 {
        seq![]
    } else if found[0] {
        hints_of(table.skip(1), found.skip(1))
    } else {
        seq!["  "@ + table[0].0 + ": "@ + table[0].1] + hints_of(table.skip(1), found.skip(1))
    }
}

/// The warnings about the programs of `bins` that were not found, one line for each; `found` says
/// of each whether it was.
pub fn missing_hints(bins: &Vec<(&str, &str)>, found: &[bool]) -> (r: Vec<String>)
    requires
        bins@.len() == found@.len(),
    ensures
        texts(r@) == hints_of(pair_texts(bins@), found@),
{
    let mut out: Vec<String> = Vec::new();
    let ghost all = pair_texts(bins@);
    let mut i: usize = 0;
    assert(all.skip(0) == all);
    assert(found@.skip(0) == found@);
    assert(texts(out@) + hints_of(all, found@) == hints_of(all, found@));
    while i < bins.len()
        invariant
            0 <= i <= bins@.len(),
            bins@.len() == found@.len(),
            all == pair_texts(bins@),
            texts(out@) + hints_of(all.skip(i as int), found@.skip(i as int)) == hints_of(
                all,
                found@,
            ),
        decreases bins@.len() - i,
    {
        let ghost before = texts(out@);
        let ghost rest = all.skip(i as int);
        assert(rest.skip(1) == all.skip(i + 1));
        assert(found@.skip(i as int).skip(1) == found@.skip(i + 1));
        if !found[i] {
            let (bin, hint) = bins[i];
            let mut line = String::new();
            line.append("  ");
            line.append(bin);
            line.append(": ");
            line.append(hint);
            let ghost l = "  "@ + rest[0].0 + ": "@ + rest[0].1;
            assert(line@ == l);
            out.push(line);
            assert(texts(out@) == before.push(l));
            let ghost more = hints_of(all.skip(i + 1), found@.skip(i + 1));
            assert(before + (seq![l] + more) == before.push(l) + more);
        }
        i += 1;
    }
    assert(all.skip(i as int).len() == 0);
    assert(texts(out@) == hints_of(all, found@));
    out
}

// ---------------------------------------------------------------------------
// Laws
// ---------------------------------------------------------------------------
/// Every program that books are built with is one of the crates to install, or one of the programs
/// that the user gets a hint on.
pub proof fn law_needed_tools_are_installed(name: Seq<char>)
    ensures
        mdbook_tools().contains(name) ==> exists|i: int|
            0 <= i < crate_table().len() && (#[trigger] crate_table()[i]).0 == name,
        required_tools().contains(name) ==> (exists|i: int|
            0 <= i < crate_table().len() && (#[trigger] crate_table()[i]).0 == name) || (exists|
            i: int,
        |
            0 <= i < system_table().len() && (#[trigger] system_table()[i]).0 == name),
{
    let cs = crate_table();
    assert(cs[0].0 == "mdbook"@ && cs[1].0 == "mdbook-katex"@ && cs[2].0 == "mdbook-mermaid"@
        && cs[3].0 == "mdbook-plantuml"@ && cs[4].0 == "mdbook-pagetoc"@ && cs[5].0
        == "mdbook-pandoc"@);
    assert(system_table()[2].0 == "pandoc"@);
}

/// A crate is installed by its name at the version that is asked for, with the versions that it
/// was made with; `--force` is given just where the installation is forced.
pub proof fn law_crate_is_installed_at_its_version(
    name: Seq<char>,
    version: Seq<char>,
    force: bool,
)
    ensures
        ({
            let args = cargo_args(name, version, force);
            &&& args.len() == (if force {
                6int
            } else {
                5int
            })
            &&& args[0] == "install"@ && args[1] == name
            &&& args[2] == "--version"@ && args[3] == version
            &&& args[4] == "--locked"@
            &&& force ==> args[5] == "--force"@
        }),
{
}

/// Programs are looked at one by one: one that was not found gets a line with its name and its
/// hint, one that was found gets none, and the order stays.
pub proof fn law_hints_come_one_by_one(
    a: Seq<(Seq<char>, Seq<char>)>,
    b: Seq<(Seq<char>, Seq<char>)>,
    f: Seq<bool>,
    g: Seq<bool>,
    bin: (Seq<char>, Seq<char>),
)
    requires
        a.len() == f.len(),
    ensures
        hints_of(a + b, f + g) == hints_of(a, f) + hints_of(b, g),
        hints_of(seq![bin], seq![false]) == seq![seq![' ', ' '] + bin.0 + seq![':', ' '] + bin.1],
        hints_of(seq![bin], seq![true]).len() == 0,
    decreases a.len(),
{
    reveal_strlit("  ");
    reveal_strlit(": ");
    assert("  "@ == seq![' ', ' ']);
    assert(": "@ == seq![':', ' ']);
    assert(seq![bin].skip(1).len() == 0);
    assert(hints_of(seq![bin].skip(1), seq![false].skip(1)) == Seq::<Seq<char>>::empty());
    assert(hints_of(seq![bin], seq![false]) == seq![
        seq![' ', ' '] + bin.0 + seq![':', ' '] + bin.1,
    ]);
    assert(hints_of(seq![bin].skip(1), seq![true].skip(1)) == Seq::<Seq<char>>::empty());
    if a.len() > 0 {
        assert((a + b).skip(1) == a.skip(1) + b);
        assert((f + g).skip(1) == f.skip(1) + g);
        law_hints_come_one_by_one(a.skip(1), b, f.skip(1), g, bin);
        assert(hints_of(a + b, f + g) == hints_of(a, f) + hints_of(b, g));
    } else {
        assert(a + b == b);
        assert(f + g == g);
        assert(hints_of(a + b, f + g) == hints_of(a, f) + hints_of(b, g));
    }
}

} // verus!
