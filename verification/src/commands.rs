//! What the commands share: the registration of the diagram preprocessor, the search for tools,
//! and the watchdog over long builds.

pub mod book;
pub mod book_laws;
pub mod drawing;
pub mod dump;
pub mod install;
pub mod pdf;
pub mod preprocess;
pub mod serve;

use std::collections::VecDeque;

use vstd::prelude::*;

use crate::number::{decimal, decimal_of, law_decimal_reads_back, parse_u64, unsigned_value};
use crate::text::{
    is_ctrl, is_plain_line, join, joined, law_lines_before_text, law_lines_read_back,
    law_part_occurs, lemma_lines_hold_no_line_feed, lines_of, occurs, texts, unlines,
};
use crate::toml_text::{
    basic_string, ends_in_cr, in_section, is_stripped, kept, law_basic_string_reads_back,
    law_body_holds_no_control, law_body_of_concatenation, law_plain_text_is_its_body,
    law_preprocessors_are_stripped, law_strip_keeps_lines, preprocessor_keys, str_texts,
    strip_preprocessor_blocks, stripped, toml_body, toml_string_body_public,
};
use crate::utf8::{lossy_string, lossy_text};

verus! {

// ---------------------------------------------------------------------------
// The diagram preprocessor
// ---------------------------------------------------------------------------
/// The section of a `book.toml` that makes the program with the path `exe` the preprocessor of
/// diagrams, with an empty line before it.
pub open spec fn registration(exe: Seq<char>) -> Seq<char> {
    "\n[preprocessor.mdp-diagrams]\ncommand = \""@ + toml_body(exe) + " preprocess\"\n"@
}

/// The section of a `book.toml` that makes the program with the path `exe` the preprocessor of
/// diagrams.
pub fn registration_of(exe: &str) -> (r: String)
    ensures
        r@ == registration(exe@),
{
    let mut out = String::new();
    out.append("\n[preprocessor.mdp-diagrams]\ncommand = \"");
    out.append(toml_string_body_public(exe).as_str());
    out.append(" preprocess\"\n");
    assert(out@ == registration(exe@));
    out
}

/// The preprocessors that the registration of our own replaces in HTML books.
pub open spec fn replaced_preprocessors() -> Seq<Seq<char>> {
    seq!["plantuml"@]
}

/// Replaces the PlantUML preprocessor in the text of a `book.toml` by the program with the path
/// `exe`.
pub fn replace_plantuml(existing: &str, exe: &str) -> (r: String)
    ensures
        r@ == stripped(existing@, preprocessor_keys(replaced_preprocessors())) + registration(exe@),
{
    let names: [&str; 1] = ["plantuml"];
    assert(str_texts(names@) == replaced_preprocessors());
    let mut out = strip_preprocessor_blocks(existing, names.as_slice());
    out.append(registration_of(exe).as_str());
    out
}

/// Replaces the PlantUML preprocessor in the text of a `book.toml` by this program, whose
/// executable is `self_exe`, so that diagrams are drawn in the theme's colours.
pub fn register_mdp_preprocess(existing: &str, self_exe: &[u8]) -> (r: String)
    ensures
        r@ == stripped(existing@, preprocessor_keys(replaced_preprocessors())) + registration(
            lossy_text(self_exe@),
        ),
{
    replace_plantuml(existing, lossy_string(self_exe).as_str())
}

/// The command that is registered reads back as the path of the program, a space and the word
/// `preprocess`, whatever characters the path holds.
pub proof fn law_registered_command_reads_back(exe: Seq<char>, rest: Seq<char>)
    ensures
        basic_string(toml_body(exe) + " preprocess\""@ + rest) == Some(
            (exe + " preprocess"@, rest),
        ),
{
    reveal_strlit(" preprocess\"");
    reveal_strlit(" preprocess");
    let word = " preprocess"@;
    law_plain_text_is_its_body(word);
    law_body_of_concatenation(exe, word);
    law_basic_string_reads_back(exe + word, rest);
    assert(toml_body(exe) + " preprocess\""@ + rest == toml_body(exe + word) + seq!['"'] + rest);
}

/// A `book.toml` in which our preprocessor was registered has the lines that it had without the
/// replaced sections, and then an empty line, the header of our section and the command;
/// provided that none of the lines that remain ends in a carriage return.
pub proof fn law_registered_lines(existing: Seq<char>, exe: Seq<char>)
    requires
        forall|i: int|
            0 <= i < kept(
                lines_of(existing),
                preprocessor_keys(replaced_preprocessors()),
                false,
            ).len() ==> !ends_in_cr(
                #[trigger] kept(
                    lines_of(existing),
                    preprocessor_keys(replaced_preprocessors()),
                    false,
                )[i],
            ),
    ensures
        lines_of(
            stripped(existing, preprocessor_keys(replaced_preprocessors())) + registration(exe),
        ) == kept(lines_of(existing), preprocessor_keys(replaced_preprocessors()), false) + seq![
            ""@,
            "[preprocessor.mdp-diagrams]"@,
            "command = \""@ + toml_body(exe) + " preprocess\""@,
        ],
{
    let keys = preprocessor_keys(replaced_preprocessors());
    let ls = lines_of(existing);
    let k = kept(ls, keys, false);
    law_strip_keeps_lines(existing, keys);
    lemma_lines_hold_no_line_feed(stripped(existing, keys));
    assert forall|i: int| 0 <= i < k.len() implies is_plain_line(#[trigger] k[i]) by {
        assert(!ends_in_cr(k[i]));
        assert(k[i] == lines_of(stripped(existing, keys))[i]);
    }
    reveal_strlit("");
    reveal_strlit("[preprocessor.mdp-diagrams]");
    reveal_strlit("command = \"");
    reveal_strlit(" preprocess\"");
    reveal_strlit(" preprocess\"\n");
    reveal_strlit("\n[preprocessor.mdp-diagrams]\ncommand = \"");
    law_body_holds_no_control(exe);
    let added = seq![
        ""@,
        "[preprocessor.mdp-diagrams]"@,
        "command = \""@ + toml_body(exe) + " preprocess\""@,
    ];
    assert forall|i: int| 0 <= i < added.len() implies is_plain_line(#[trigger] added[i]) by {
        if i == 2 {
            let l = added[2];
            assert forall|j: int| 0 <= j < l.len() implies l[j] != '\n' by {
                if "command = \""@.len() <= j < "command = \""@.len() + toml_body(exe).len() {
                    assert(!is_ctrl(toml_body(exe)[j - "command = \""@.len()]));
                }
            }
        }
    }
    law_lines_read_back(added);
    law_lines_before_text(k, registration(exe));
    assert(unlines(added) == registration(exe)) by {
        reveal_with_fuel(unlines, 4);
        assert(added.drop_last().drop_last().drop_last() == Seq::<Seq<char>>::empty());
        assert(unlines(added) == ""@ + seq!['\n'] + "[preprocessor.mdp-diagrams]"@ + seq!['\n']
            + ("command = \""@ + toml_body(exe) + " preprocess\""@) + seq!['\n']);
    }
}

// ---------------------------------------------------------------------------
// Tools
// ---------------------------------------------------------------------------
/// The names for which `found` says no, in their order.
pub open spec fn missing_of(names: Seq<Seq<char>>, found: Seq<bool>) -> Seq<Seq<char>>
    decreases names.len(),
{
    if names.len() == 0 || found.len() == 0 {
        seq![]
    } else if found[0] {
        missing_of(names.skip(1), found.skip(1))
    } else {
        seq![names[0]] + missing_of(names.skip(1), found.skip(1))
    }
}

/// The names for which `found` says no, in their order.
pub fn missing(names: &[&str], found: &[bool]) -> (r: Vec<String>)
    requires
        names@.len() == found@.len(),
    ensures
        texts(r@) == missing_of(str_texts(names@), found@),
{
    let mut out: Vec<String> = Vec::new();
    let ghost all = str_texts(names@);
    let mut i: usize = 0;
    assert(all.skip(0) == all);
    assert(found@.skip(0) == found@);
    assert(texts(out@) + missing_of(all, found@) == missing_of(all, found@));
    while i < names.len()
        invariant
            0 <= i <= names@.len(),
            names@.len() == found@.len(),
            all == str_texts(names@),
            texts(out@) + missing_of(all.skip(i as int), found@.skip(i as int)) == missing_of(
                all,
                found@,
            ),
        decreases names@.len() - i,
    {
        let ghost before = texts(out@);
        let ghost rest = all.skip(i as int);
        assert(rest.skip(1) == all.skip(i + 1));
        assert(found@.skip(i as int).skip(1) == found@.skip(i + 1));
        if !found[i] {
            out.push(names[i].to_owned());
            assert(texts(out@) == before.push(rest[0]));
            let ghost more = missing_of(all.skip(i + 1), found@.skip(i + 1));
            assert(before + (seq![rest[0]] + more) == before.push(rest[0]) + more);
        }
        i += 1;
    }
    assert(all.skip(i as int).len() == 0);
    assert(texts(out@) == missing_of(all, found@));
    out
}

/// Nothing is missing exactly where every tool was found.
pub proof fn law_nothing_missing(names: Seq<Seq<char>>, found: Seq<bool>)
    requires
        names.len() == found.len(),
    ensures
        missing_of(names, found).len() == 0 <==> (forall|i: int|
            0 <= i < found.len() ==> #[trigger] found[i]),
    decreases names.len(),
{
    if names.len() > 0 {
        let rest = found.skip(1);
        law_nothing_missing(names.skip(1), rest);
        assert forall|i: int| 0 <= i < rest.len() implies #[trigger] rest[i] == found[i + 1] by {}
        if missing_of(names, found).len() == 0 {
            assert forall|i: int| 0 <= i < found.len() implies #[trigger] found[i] by {
                if i > 0 {
                    assert(rest[i - 1]);
                }
            }
        }
    }
}

/// What to tell a user who lacks the tools `names`.
pub open spec fn missing_tools_text(names: Seq<Seq<char>>) -> Seq<char> {
    "missing required tools: "@ + joined(names, ", "@) + ". run `mdp install-deps`"@
}

/// Checks that each of the tools `required` was found; `found` says of each whether it was. The
/// error tells which tools are missing and how to install them.
pub fn ensure_tools(required: &[&str], found: &[bool]) -> (r: Result<(), String>)
    requires
        required@.len() == found@.len(),
    ensures
        ({
            let names = missing_of(str_texts(required@), found@);
            if names.len() == 0 {
                r is Ok
            } else {
                r matches Err(e) && e@ == missing_tools_text(names)
            }
        }),
{
    let names = missing(required, found);
    assert(texts(names@).len() == names@.len());
    if names.len() == 0 {
        return Ok(());
    }
    let mut out = String::new();
    out.append("missing required tools: ");
    out.append(join(&names, ", ").as_str());
    out.append(". run `mdp install-deps`");
    assert(out@ == missing_tools_text(texts(names@)));
    Err(out)
}

// ---------------------------------------------------------------------------
// The watchdog
// ---------------------------------------------------------------------------
/// The limits of a watchdog over a running program, in seconds. A limit of 0 is none.
#[derive(Clone, Copy)]
pub struct Watchdog {
    /// How long the program may run.
    pub overall: u64,
    /// How long the program may run without any output.
    pub stall: u64,
}

/// The limit that a variable sets: its number, or the default where it has none that fits.
pub open spec fn limit(var: Option<&str>, default: u64) -> u64 {
    match var {
        Some(v) => match unsigned_value(v@) {
            Some(n) => if n <= u64::MAX {
                n as u64
            } else {
                default
            },
            None => default,
        },
        None => default,
    }
}

/// The limit that a variable sets.
fn limit_of(var: Option<&str>, default: u64) -> (r: u64)
    ensures
        r == limit(var, default),
{
    match var {
        Some(v) => match parse_u64(v) {
            Some(n) => n,
            None => default,
        },
        None => default,
    }
}

/// What a watchdog does at one look at the program.
pub enum Verdict {
    /// The program has ended: stop watching.
    Done,
    /// Look again later.
    Wait,
    /// Kill the program, for the given reason.
    Kill(String),
}

/// What a watchdog does, as a mathematical value.
pub enum Judgment {
    /// The program has ended.
    Done,
    /// Look again later.
    Wait,
    /// Kill the program.
    Kill(Seq<char>),
}

impl View for Verdict {
    type V = Judgment;

    open spec fn view(&self) -> Judgment {
        match *self {
            Verdict::Done => Judgment::Done,
            Verdict::Wait => Judgment::Wait,
            Verdict::Kill(reason) => Judgment::Kill(reason@),
        }
    }
}

/// Why a program that ran too long is killed.
pub open spec fn overall_reason(overall: nat) -> Seq<char> {
    "exceeded overall timeout "@ + decimal(overall) + "s"@
}

/// Why a program that was silent for too long is killed.
pub open spec fn stall_reason(idle_seconds: nat, stall: nat) -> Seq<char> {
    "no output for "@ + decimal(idle_seconds) + "s (stall limit "@ + decimal(stall)
        + "s) — likely lualatex hang"@
}

/// How many milliseconds lie between the last output and now; none where the clock went back.
pub open spec fn idle_ms(now_ms: u64, last_ms: u64) -> nat {
    if now_ms >= last_ms {
        (now_ms - last_ms) as nat
    } else {
        0
    }
}

impl Watchdog {
    /// Takes the limits from two variables: for the whole run and for a time without output.
    /// Each has a default, for a variable that is not set or not a number.
    pub fn from_env(
        overall_var: Option<&str>,
        stall_var: Option<&str>,
        overall_default: u64,
        stall_default: u64,
    ) -> (r: Watchdog)
        ensures
            r.overall == limit(overall_var, overall_default),
            r.stall == limit(stall_var, stall_default),
    {
        Watchdog {
            overall: limit_of(overall_var, overall_default),
            stall: limit_of(stall_var, stall_default),
        }
    }

    /// What is to be done with a program that has run for `elapsed_ns` nanoseconds and has been
    /// silent for `idle` milliseconds.
    pub open spec fn judgment(self, done: bool, elapsed_ns: nat, idle: nat) -> Judgment {
        if done {
            Judgment::Done
        } else if self.overall > 0 && elapsed_ns > self.overall * 1_000_000_000 {
            Judgment::Kill(overall_reason(self.overall as nat))
        } else if self.stall > 0 && idle > self.stall * 1000 {
            Judgment::Kill(stall_reason(idle / 1000, self.stall as nat))
        } else {
            Judgment::Wait
        }
    }

    /// Looks at a program that was started `elapsed_ns` nanoseconds ago and last wrote something
    /// at `last_ms`; now it is `now_ms`.
    pub fn tick(&self, done: bool, elapsed_ns: u128, now_ms: u64, last_ms: u64) -> (r: Verdict)
        ensures
            r@ == self.judgment(done, elapsed_ns as nat, idle_ms(now_ms, last_ms)),
    {
        if done {
            return Verdict::Done;
        }
        if self.overall > 0 && elapsed_ns > self.overall as u128 * 1_000_000_000u128 {
            let mut reason = String::new();
            reason.append("exceeded overall timeout ");
            reason.append(decimal_of(self.overall as u128).as_str());
            reason.append("s");
            assert(reason@ == overall_reason(self.overall as nat));
            return Verdict::Kill(reason);
        }
        let idle: u64 = if now_ms >= last_ms {
            now_ms - last_ms
        } else {
            0
        };
        if self.stall > 0 && idle as u128 > self.stall as u128 * 1000u128 {
            let mut reason = String::new();
            reason.append("no output for ");
            reason.append(decimal_of((idle / 1000) as u128).as_str());
            reason.append("s (stall limit ");
            reason.append(decimal_of(self.stall as u128).as_str());
            reason.append("s) — likely lualatex hang");
            assert(reason@ == stall_reason((idle / 1000) as nat, self.stall as nat));
            return Verdict::Kill(reason);
        }
        Verdict::Wait
    }
}

/// A limit of 0 is none. A watchdog without an overall limit does not look at how long the program
/// has run, one without a stall limit does not look at how long it has been silent, and one
/// without either never kills a program.
pub proof fn law_zero_disables(w: Watchdog, elapsed_ns: nat, idle: nat)
    ensures
        w.overall == 0 && w.stall == 0 ==> w.judgment(false, elapsed_ns, idle) == Judgment::Wait,
        w.overall == 0 ==> w.judgment(false, elapsed_ns, idle) == w.judgment(false, 0, idle),
        w.stall == 0 ==> w.judgment(false, elapsed_ns, idle) == w.judgment(false, elapsed_ns, 0),
{
}

/// A program that ends in time and is never silent for too long is not killed.
pub proof fn law_healthy_program_survives(w: Watchdog, elapsed_ns: nat, idle: nat)
    requires
        elapsed_ns <= w.overall * 1_000_000_000,
        idle <= w.stall * 1000,
    ensures
        !(w.judgment(false, elapsed_ns, idle) is Kill),
        w.judgment(true, elapsed_ns, idle) == Judgment::Done,
{
}

/// A program is killed as soon as it has run longer than the overall limit or has been silent for
/// longer than the stall limit, whatever the limits are, unless it has ended; and only then. Where
/// the clock went back, the program counts as one that has just written something.
pub proof fn law_slow_program_is_killed(
    w: Watchdog,
    done: bool,
    elapsed_ns: u128,
    now_ms: u64,
    last_ms: u64,
)
    ensures
        w.judgment(done, elapsed_ns as nat, idle_ms(now_ms, last_ms)) is Kill <==> !done && ((
        w.overall > 0 && elapsed_ns > w.overall * 1_000_000_000) || (w.stall > 0 && now_ms - last_ms
            > w.stall * 1000)),
        w.judgment(done, elapsed_ns as nat, idle_ms(now_ms, last_ms)) is Done <==> done,
{
}

/// The report on a killed program tells which limit it broke, with the numbers in decimal.
pub proof fn law_kill_tells_the_limit(w: Watchdog, elapsed_ns: u128, now_ms: u64, last_ms: u64)
    ensures
        w.overall > 0 && elapsed_ns > w.overall * 1_000_000_000 ==> w.judgment(
            false,
            elapsed_ns as nat,
            idle_ms(now_ms, last_ms),
        ) == Judgment::Kill("exceeded overall timeout "@ + decimal(w.overall as nat) + "s"@),
        (w.overall == 0 || elapsed_ns <= w.overall * 1_000_000_000) && w.stall > 0 && now_ms - last_ms > w.stall * 1000
            ==> w.judgment(false, elapsed_ns as nat, idle_ms(now_ms, last_ms)) == Judgment::Kill(
            "no output for "@ + decimal(((now_ms - last_ms) / 1000) as nat) + "s (stall limit "@
                + decimal(w.stall as nat) + "s) — likely lualatex hang"@,
        ),
{
}

/// A limit that is written in decimal is the limit that holds, with or without a plus sign, and
/// the default holds where none is set.
pub proof fn law_limit_is_read(var: &str, n: u64, default: u64)
    requires
        var@ == decimal(n as nat) || var@ == seq!['+'] + decimal(n as nat),
    ensures
        limit(Some(var), default) == n,
        limit(None, default) == default,
{
    law_decimal_reads_back(n as nat);
    assert((seq!['+'] + decimal(n as nat)).skip(1) == decimal(n as nat));
}

/// The default holds for a variable that is no number, or one too large.
pub proof fn law_default_limit_holds(var: &str, default: u64)
    requires
        unsigned_value(var@) matches Some(n) ==> n > u64::MAX,
    ensures
        limit(Some(var), default) == default,
{
}

/// Once a watchdog kills a program, it would go on doing so: waiting longer cannot save it.
pub proof fn law_kill_is_final(w: Watchdog, elapsed_ns: nat, idle: nat, more_ns: nat, more_ms: nat)
    requires
        w.judgment(false, elapsed_ns, idle) is Kill,
    ensures
        w.judgment(false, elapsed_ns + more_ns, idle + more_ms) is Kill,
{
}

// ---------------------------------------------------------------------------
// The last lines of output
// ---------------------------------------------------------------------------
/// How many lines of output are kept for a report.
pub const TAIL_LINES: usize = 64;

/// The last `TAIL_LINES` of the given lines.
pub open spec fn last_lines(all: Seq<Seq<char>>) -> Seq<Seq<char>> {
    if all.len() <= TAIL_LINES {
        all
    } else {
        all.skip(all.len() - TAIL_LINES)
    }
}

/// The last lines that a program has written.
pub struct Tail {
    /// The lines, the oldest first.
    lines: VecDeque<String>,
}

impl View for Tail {
    type V = Seq<Seq<char>>;

    closed spec fn view(&self) -> Seq<Seq<char>> {
        texts(self.lines@)
    }
}

impl Tail {
    /// No more lines are kept than are needed.
    pub open spec fn wf(&self) -> bool {
        self@.len() <= TAIL_LINES
    }

    /// No lines yet.
    pub fn new() -> (r: Tail)
        ensures
            r.wf(),
            r@ == Seq::<Seq<char>>::empty(),
    {
        let r = Tail { lines: VecDeque::with_capacity(TAIL_LINES) };
        assert(r@ == Seq::<Seq<char>>::empty());
        r
    }

    /// Adds a line, and forgets the oldest where there would be too many.
    pub fn push(&mut self, line: String)
        requires
            old(self).wf(),
        ensures
            final(self).wf(),
            final(self)@ == last_lines(old(self)@.push(line@)),
    {
        let ghost before = self.lines@;
        if self.lines.len() == TAIL_LINES {
            let _ = self.lines.pop_front();
            assert(self.lines@ == before.skip(1));
        }
        self.lines.push_back(line);
        assert(texts(self.lines@) == last_lines(texts(before).push(line@)));
    }

    /// The lines, the oldest first.
    pub fn lines(&self) -> (r: Vec<String>)
        ensures
            texts(r@) == self@,
    {
        let mut out: Vec<String> = Vec::new();
        for i in 0..self.lines.len()
            invariant
                texts(out@) == texts(self.lines@).take(i as int),
        {
            let ghost before = texts(out@);
            let line = self.lines[i].clone();
            out.push(line);
            assert(texts(out@) == before.push(self.lines@[i as int]@));
            assert(texts(out@) == texts(self.lines@).take(i + 1));
        }
        assert(texts(out@) == texts(self.lines@));
        out
    }
}

/// Adding lines one by one keeps the last lines of all that were added.
pub proof fn law_tail_keeps_last_lines(all: Seq<Seq<char>>, line: Seq<char>)
    ensures
        last_lines(last_lines(all).push(line)) == last_lines(all.push(line)),
        last_lines(all).len() <= TAIL_LINES,
{
    assert(last_lines(last_lines(all).push(line)) == last_lines(all.push(line)));
}

/// The lines that a report shows.
pub open spec fn tail_text(tail: Seq<Seq<char>>) -> Seq<char> {
    if tail.len() == 0 {
        "(no output captured)"@
    } else {
        joined(tail, "\n"@)
    }
}

/// The report on the program `label` that was killed for `reason` after it had written `tail`.
pub open spec fn abort_text(label: Seq<char>, reason: Seq<char>, tail: Seq<Seq<char>>) -> Seq<
    char,
> {
    label + " aborted by watchdog: "@ + reason + "\n--- last "@ + decimal(tail.len())
        + " output lines ---\n"@ + tail_text(tail)
        + "\n--- end ---\ntune via MDP_PDF_TIMEOUT / MDP_PDF_STALL_TIMEOUT (seconds; 0 to disable)."@
}

/// The report on a program that failed by itself.
pub open spec fn exit_text(label: Seq<char>, status: Seq<char>) -> Seq<char> {
    label + " exited with "@ + status
}

/// How a watched run of the program `label` ended. It was killed for the reason `killed`, or it
/// ended by itself, with the given status and success or not.
pub fn run_outcome(
    label: &str,
    killed: Option<&str>,
    tail: &Tail,
    success: bool,
    status: &str,
) -> (r: Result<(), String>)
    ensures
        match killed {
            Some(reason) => r matches Err(e) && e@ == abort_text(label@, reason@, tail@),
            None => if success {
                r is Ok
            } else {
                r matches Err(e) && e@ == exit_text(label@, status@)
            },
        },
{
    let mut out = String::new();
    out.append(label);
    match killed {
        Some(reason) => {
            let lines = tail.lines();
            assert(texts(lines@).len() == lines@.len());
            let body = if lines.len() == 0 {
                "(no output captured)".to_owned()
            } else {
                join(&lines, "\n")
            };
            assert(body@ == tail_text(tail@));
            out.append(" aborted by watchdog: ");
            out.append(reason);
            out.append("\n--- last ");
            out.append(decimal_of(lines.len() as u128).as_str());
            out.append(" output lines ---\n");
            out.append(body.as_str());
            out.append(
                "\n--- end ---\ntune via MDP_PDF_TIMEOUT / MDP_PDF_STALL_TIMEOUT (seconds; 0 to disable).",
            );
            assert(out@ == abort_text(label@, reason@, tail@));
            Err(out)
        },
        None => {
            if success {
                return Ok(());
            }
            out.append(" exited with ");
            out.append(status);
            assert(out@ == exit_text(label@, status@));
            Err(out)
        },
    }
}

// ---------------------------------------------------------------------------
// Laws of reports
// ---------------------------------------------------------------------------
/// Tools are looked at one by one: a tool that was not found is missing, one that was found is
/// not, and the order stays.
pub proof fn law_tools_are_missing_one_by_one(
    a: Seq<Seq<char>>,
    b: Seq<Seq<char>>,
    f: Seq<bool>,
    g: Seq<bool>,
    name: Seq<char>,
)
    requires
        a.len() == f.len(),
    ensures
        missing_of(a + b, f + g) == missing_of(a, f) + missing_of(b, g),
        missing_of(seq![name], seq![false]) == seq![name],
        missing_of(seq![name], seq![true]).len() == 0,
    decreases a.len(),
{
    assert(seq![name].skip(1).len() == 0);
    assert(missing_of(seq![name].skip(1), seq![false].skip(1)) == Seq::<Seq<char>>::empty());
    assert(missing_of(seq![name], seq![false]) == seq![name]);
    assert(missing_of(seq![name].skip(1), seq![true].skip(1)) == Seq::<Seq<char>>::empty());
    if a.len() > 0 {
        assert((a + b).skip(1) == a.skip(1) + b);
        assert((f + g).skip(1) == f.skip(1) + g);
        law_tools_are_missing_one_by_one(a.skip(1), b, f.skip(1), g, name);
        assert(missing_of(a + b, f + g) == missing_of(a, f) + missing_of(b, g));
    } else {
        assert(a + b == b);
        assert(f + g == g);
        assert(missing_of(a + b, f + g) == missing_of(a, f) + missing_of(b, g));
    }
}

/// A user who lacks tools is told all of them, and how to install them.
pub proof fn law_missing_tools_are_told(names: Seq<Seq<char>>)
    ensures
        occurs(joined(names, ", "@), missing_tools_text(names)),
        occurs("mdp install-deps"@, missing_tools_text(names)),
{
    law_part_occurs(
        "missing required tools: "@,
        joined(names, ", "@),
        ". run `mdp install-deps`"@,
    );
    reveal_strlit(". run `mdp install-deps`");
    reveal_strlit("mdp install-deps");
    reveal_strlit(". run `");
    reveal_strlit("`");
    let word = "mdp install-deps"@;
    assert(". run `mdp install-deps`"@ == ". run `"@ + word + "`"@);
    let before = "missing required tools: "@ + joined(names, ", "@) + ". run `"@;
    law_part_occurs(before, word, "`"@);
    assert(missing_tools_text(names) == before + word + "`"@);
}

/// Of the output of a program the last 64 lines are kept: all of it where there are no more, and
/// otherwise the last ones in their order.
pub proof fn law_last_lines_are_kept(all: Seq<Seq<char>>)
    ensures
        all.len() <= 64 ==> last_lines(all) == all,
        all.len() > 64 ==> last_lines(all) == all.subrange(all.len() - 64, all.len() as int),
{
}

/// The report on a killed program begins with its label and holds the reason, the number of lines
/// that are shown, and all of these lines.
pub proof fn law_report_is_complete(label: Seq<char>, reason: Seq<char>, tail: Seq<Seq<char>>)
    ensures
        label.is_prefix_of(abort_text(label, reason, tail)),
        occurs(reason, abort_text(label, reason, tail)),
        occurs("last "@ + decimal(tail.len()) + " output lines"@, abort_text(label, reason, tail)),
        tail.len() > 0 ==> occurs(joined(tail, "\n"@), abort_text(label, reason, tail)),
        tail.len() == 0 ==> occurs("(no output captured)"@, abort_text(label, reason, tail)),
{
    let t = abort_text(label, reason, tail);
    let a = " aborted by watchdog: "@;
    let b = "\n--- last "@;
    let n = decimal(tail.len());
    let c = " output lines ---\n"@;
    let shown = tail_text(tail);
    let d =
        "\n--- end ---\ntune via MDP_PDF_TIMEOUT / MDP_PDF_STALL_TIMEOUT (seconds; 0 to disable)."@;
    assert(t.take(label.len() as int) == label);
    law_part_occurs(label + a, reason, b + n + c + shown + d);
    assert(t == (label + a) + reason + (b + n + c + shown + d));
    law_part_occurs(label + a + reason + b + n + c, shown, d);
    assert(t == (label + a + reason + b + n + c) + shown + d);
    reveal_strlit("\n--- last ");
    reveal_strlit("\n--- ");
    reveal_strlit("last ");
    reveal_strlit(" output lines ---\n");
    reveal_strlit(" output lines");
    reveal_strlit(" ---\n");
    assert(b == "\n--- "@ + "last "@);
    assert(c == " output lines"@ + " ---\n"@);
    let count = "last "@ + n + " output lines"@;
    law_part_occurs(label + a + reason + "\n--- "@, count, " ---\n"@ + shown + d);
    assert(t == (label + a + reason + "\n--- "@) + count + (" ---\n"@ + shown + d));
}

/// The report on a program that failed by itself tells the program and its status.
pub proof fn law_exit_is_told(label: Seq<char>, status: Seq<char>)
    ensures
        label.is_prefix_of(exit_text(label, status)),
        status.is_suffix_of(exit_text(label, status)),
{
    let t = exit_text(label, status);
    assert(t.take(label.len() as int) == label);
    assert(t.skip(t.len() - status.len()) == status);
}

/// In an HTML book our own preprocessor takes the place of the PlantUML one, with all that belongs
/// to it, and of no other.
pub proof fn law_only_plantuml_is_replaced(inner: Seq<char>)
    ensures
        is_stripped(inner, preprocessor_keys(replaced_preprocessors())) <==> in_section(
            inner,
            "preprocessor.plantuml"@,
        ),
{
    let names = replaced_preprocessors();
    law_preprocessors_are_stripped(names, inner);
    reveal_strlit("preprocessor.");
    reveal_strlit("plantuml");
    reveal_strlit("preprocessor.plantuml");
    assert("preprocessor."@ + "plantuml"@ == "preprocessor.plantuml"@);
    assert(names[0] == "plantuml"@);
    if in_section(inner, "preprocessor.plantuml"@) {
        assert(in_section(inner, "preprocessor."@ + names[0]));
    }
}

} // verus!
