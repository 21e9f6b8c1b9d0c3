//! The configuration of a book: command line and environment, with their defaults and checks.

use vstd::prelude::*;
use vstd::utf8::{encode_utf8, is_ascii_chars, is_ascii_chars_encode_utf8};

use crate::os_path::{file_name, file_name_of};
use crate::text::{
    chars_of, is_ascii_control, is_ascii_ctrl, is_blank, is_white, law_outer_white_space_is_dropped,
    same_str, starts_with_str, string_of, trim, trimmed,
};
use crate::utf8::{lossy_string, lossy_text, opt_text};

verus! {

/// The configuration of a book.
pub struct BookConfig {
    /// The title of the book.
    pub title: String,
    /// The author of the book.
    pub author: String,
    /// The URL of the PlantUML server.
    pub plantuml_server: String,
    /// The source directory, for display.
    pub src_dir_display: String,
    /// The language of the book.
    pub language: String,
}

/// A book's configuration, as a mathematical value.
pub struct Config {
    /// The title of the book.
    pub title: Seq<char>,
    /// The author of the book.
    pub author: Seq<char>,
    /// The URL of the PlantUML server.
    pub plantuml_server: Seq<char>,
    /// The source directory, for display.
    pub src_dir_display: Seq<char>,
    /// The language of the book.
    pub language: Seq<char>,
}

impl View for BookConfig {
    type V = Config;

    open spec fn view(&self) -> Config {
        Config {
            title: self.title@,
            author: self.author@,
            plantuml_server: self.plantuml_server@,
            src_dir_display: self.src_dir_display@,
            language: self.language@,
        }
    }
}

/// The environment variables that a book's configuration depends on; `None` where a variable is
/// not set or not valid Unicode.
pub struct ConfigEnv {
    /// `MDP_AUTHOR`
    pub mdp_author: Option<String>,
    /// `USER`
    pub user: Option<String>,
    /// `USERNAME`
    pub username: Option<String>,
    /// `MDP_PLANTUML_SERVER`
    pub mdp_plantuml_server: Option<String>,
    /// `MDP_BOOK_LANG`
    pub mdp_book_lang: Option<String>,
    /// `LC_ALL`
    pub lc_all: Option<String>,
    /// `LANG`
    pub lang: Option<String>,
}

/// Why a configuration is refused.
#[derive(Debug)]
pub enum ConfigError {
    /// A value holds a control character.
    ControlCharacter {
        /// Where the value comes from.
        what: String,
        /// The first control character.
        found: char,
        /// The value.
        value: String,
    },
    /// The language is empty or longer than 12 bytes.
    LanguageLength {
        /// The value.
        value: String,
    },
    /// The language is not a language tag.
    LanguageTag {
        /// The value.
        value: String,
    },
    /// The PlantUML server is not an HTTP URL.
    PlantumlServer {
        /// The value.
        value: String,
    },
}

/// Why a configuration is refused, as a mathematical value.
pub enum Refusal {
    /// A value holds a control character.
    ControlCharacter {
        /// Where the value comes from.
        what: Seq<char>,
        /// The first control character.
        found: char,
        /// The value.
        value: Seq<char>,
    },
    /// The language is empty or too long.
    LanguageLength {
        /// The value.
        value: Seq<char>,
    },
    /// The language is not a language tag.
    LanguageTag {
        /// The value.
        value: Seq<char>,
    },
    /// The PlantUML server is not an HTTP URL.
    PlantumlServer {
        /// The value.
        value: Seq<char>,
    },
}

impl View for ConfigError {
    type V = Refusal;

    open spec fn view(&self) -> Refusal {
        match *self {
            ConfigError::ControlCharacter { what, found, value } => Refusal::ControlCharacter {
                what: what@,
                found,
                value: value@,
            },
            ConfigError::LanguageLength { value } => Refusal::LanguageLength { value: value@ },
            ConfigError::LanguageTag { value } => Refusal::LanguageTag {
                value: value@,
            },
            ConfigError::PlantumlServer { value } => Refusal::PlantumlServer { value: value@ },
        }
    }
}

/// The result `r` stands for the mathematical result `want`.
pub open spec fn agrees(
    r: Result<String, ConfigError>,
    want: Result<Seq<char>, Refusal>,
) -> bool {
    match want {
        Ok(t) => r matches Ok(s) && s@ == t,
        Err(f) => r matches Err(e) && e@ == f,
    }
}

// ---------------------------------------------------------------------------
// Control characters
// ---------------------------------------------------------------------------
/// The first ASCII control character of `s`.
pub open spec fn first_ctrl(s: Seq<char>) -> Option<char>
    decreases s.len(),
{
    if s.len() == 0 {
        None
    } else if is_ascii_ctrl(s[0]) {
        Some(s[0])
    } else {
        first_ctrl(s.skip(1))
    }
}

/// `s` itself, if it holds no ASCII control character.
pub open spec fn clean_text(s: Seq<char>, what: Seq<char>) -> Result<Seq<char>, Refusal> {
    match first_ctrl(s) {
        Some(found) => Err(Refusal::ControlCharacter { what, found, value: s }),
        None => Ok(s),
    }
}

/// Refuses a value that holds an ASCII control character, NUL to 0x1F or DEL: these break TOML
/// strings and comments. `what` says where the value comes from.
pub fn reject_control_chars(s: &str, what: &str) -> (r: Result<String, ConfigError>)
    ensures
        agrees(r, clean_text(s@, what@)),
{
    let cs = chars_of(s);
    let mut i: usize = 0;
    assert(cs@.skip(0) == s@);
    while i < cs.len()
        invariant
            0 <= i <= cs@.len(),
            cs@ == s@,
            first_ctrl(cs@.skip(i as int)) == first_ctrl(s@),
        decreases cs@.len() - i,
    {
        assert(cs@.skip(i as int).skip(1) == cs@.skip(i + 1));
        if is_ascii_control(cs[i]) {
            return Err(
                ConfigError::ControlCharacter {
                    what: what.to_owned(),
                    found: cs[i],
                    value: s.to_owned(),
                },
            );
        }
        i += 1;
    }
    assert(cs@.skip(i as int).len() == 0);
    Ok(s.to_owned())
}

// ---------------------------------------------------------------------------
// PlantUML server
// ---------------------------------------------------------------------------
/// `raw` itself, if it is an HTTP URL without control characters.
pub open spec fn server_url(raw: Seq<char>) -> Result<Seq<char>, Refusal> {
    if "http://"@.is_prefix_of(raw) || "https://"@.is_prefix_of(raw) {
        clean_text(raw, "$MDP_PLANTUML_SERVER"@)
    } else {
        Err(Refusal::PlantumlServer { value: raw })
    }
}

/// Refuses a PlantUML server that is not an `http://` or `https://` URL. A plain path would name
/// a program to run.
pub fn validate_plantuml_server(raw: &str) -> (r: Result<String, ConfigError>)
    ensures
        agrees(r, server_url(raw@)),
{
    let cs = chars_of(raw);
    if !(starts_with_str(cs.as_slice(), "http://") || starts_with_str(cs.as_slice(), "https://")) {
        return Err(ConfigError::PlantumlServer { value: raw.to_owned() });
    }
    reject_control_chars(raw, "$MDP_PLANTUML_SERVER")
}

// ---------------------------------------------------------------------------
// Language
// ---------------------------------------------------------------------------
/// The lower-case form of an ASCII letter; any other character as it is.
pub open spec fn lower(c: char) -> char {
    if 'A' <= c && c <= 'Z' {
        (c as u8 + 32) as char
    } else {
        c
    }
}

/// `s` with its ASCII letters in lower case.
pub open spec fn ascii_lower(s: Seq<char>) -> Seq<char> {
    Seq::new(s.len(), |i: int| lower(s[i]))
}

/// ASCII letters.
pub open spec fn is_letter(c: char) -> bool {
    ||| 'A' <= c && c <= 'Z'
    ||| 'a' <= c && c <= 'z'
}

/// Characters that a region may hold.
pub open spec fn is_tag_char(c: char) -> bool {
    ||| is_letter(c)
    ||| '0' <= c && c <= '9'
    ||| c == '-'
    ||| c == '_'
}

/// The first `n` characters of `t` are letters, and what follows them is nothing or a region: a
/// hyphen or an underscore with letters, digits, hyphens and underscores behind it.
pub open spec fn is_tag_with(t: Seq<char>, n: int) -> bool {
    &&& n <= t.len()
    &&& forall|i: int| 0 <= i < n ==> is_letter(#[trigger] t[i])
    &&& n == t.len() || {
        &&& t[n] == '-' || t[n] == '_'
        &&& n + 1 < t.len()
        &&& forall|i: int| n < i < t.len() ==> is_tag_char(#[trigger] t[i])
    }
}

/// The text is a language tag: two or three letters, and optionally a region.
pub open spec fn is_tag(t: Seq<char>) -> bool {
    is_tag_with(t, 2) || is_tag_with(t, 3)
}

/// The language that `raw` names: a language tag of at most 12 bytes, between optional white
/// space, in lower case.
pub open spec fn language_tag(raw: Seq<char>) -> Result<Seq<char>, Refusal> {
    let t = trimmed(raw);
    if t.len() == 0 || encode_utf8(t).len() > 12 {
        Err(Refusal::LanguageLength { value: raw })
    } else if !is_tag(t) {
        Err(Refusal::LanguageTag { value: raw })
    } else {
        Ok(ascii_lower(t))
    }
}

/// The lower-case form of an ASCII letter; any other character as it is.
fn lower_of(c: char) -> (r: char)
    ensures
        r == lower(c),
{
    if 'A' <= c && c <= 'Z' {
        (c as u8 + 32) as char
    } else {
        c
    }
}

/// `s` with its ASCII letters in lower case.
fn ascii_lower_of(s: &[char]) -> (r: String)
    ensures
        r@ == ascii_lower(s@),
{
    let mut out = String::new();
    for i in 0..s.len()
        invariant
            out@ == ascii_lower(s@).take(i as int),
    {
        out.push(lower_of(s[i]));
    }
    assert(out@ == ascii_lower(s@));
    out
}

/// Whether the first `n` characters are letters, and nothing or a region follows.
fn tag_with(t: &[char], n: usize) -> (r: bool)
    ensures
        r == is_tag_with(t@, n as int),
{
    if t.len() < n {
        return false;
    }
    for i in 0..n
        invariant
            n <= t@.len(),
            forall|j: int| 0 <= j < i ==> is_letter(#[trigger] t@[j]),
    {
        let c = t[i];
        if !(('A' <= c && c <= 'Z') || ('a' <= c && c <= 'z')) {
            assert(!is_letter(t@[i as int]));
            return false;
        }
    }
    if n == t.len() {
        return true;
    }
    if (t[n] != '-' && t[n] != '_') || n == t.len() - 1 {
        return false;
    }
    for i in n + 1..t.len()
        invariant
            n < t@.len(),
            forall|j: int| n < j < i ==> is_tag_char(#[trigger] t@[j]),
    {
        let c = t[i];
        let ok = ('A' <= c && c <= 'Z') || ('a' <= c && c <= 'z') || ('0' <= c && c <= '9') || c
            == '-' || c == '_';
        if !ok {
            assert(!is_tag_char(t@[i as int]));
            return false;
        }
    }
    true
}

/// Checks an explicit language, two or three letters and optionally a region, and brings it into
/// lower case.
pub fn validate_language(raw: &str) -> (r: Result<String, ConfigError>)
    ensures
        agrees(r, language_tag(raw@)),
{
    let cs = chars_of(raw);
    let t = trim(cs.as_slice());
    let tag = string_of(t);
    if t.len() == 0 || tag.as_str().as_bytes().len() > 12 {
        return Err(ConfigError::LanguageLength { value: raw.to_owned() });
    }
    if !(tag_with(t, 2) || tag_with(t, 3)) {
        return Err(ConfigError::LanguageTag { value: raw.to_owned() });
    }
    Ok(ascii_lower_of(t))
}

/// The text that `str::to_lowercase` makes of `s`.
pub uninterp spec fn lowercase(s: Seq<char>) -> Seq<char>;

/// `str::to_lowercase`: the lower-case form of a text. Of an ASCII text it changes the letters
/// alone; of other texts the contract says only that the result depends on nothing else.
#[verifier::external_body]
fn to_lowercase(s: &str) -> (r: String)
    ensures
        r@ == lowercase(s@),
        is_ascii_chars(s@) ==> r@ == ascii_lower(s@),
{
    s.to_lowercase()
}

/// A text in lower case. Of an ASCII text only the letters change.
pub open spec fn lowered(s: Seq<char>) -> Seq<char> {
    if is_ascii_chars(s) {
        ascii_lower(s)
    } else {
        lowercase(s)
    }
}

/// The part of a locale before its territory, encoding and modifier.
pub open spec fn locale_head(s: Seq<char>) -> Seq<char>
    decreases s.len(),
{
    if s.len() == 0 || s[0] == '_' || s[0] == '.' || s[0] == '@' {
        seq![]
    } else {
        seq![s[0]] + locale_head(s.skip(1))
    }
}

/// The language that a locale names. The locales `C` and `POSIX` name none.
pub open spec fn locale_language(locale: Seq<char>) -> Option<Seq<char>> {
    let head = locale_head(locale);
    if head.len() == 0 || ascii_lower(head) == "c"@ || ascii_lower(head) == "posix"@ {
        None
    } else {
        Some(lowered(head))
    }
}

/// The language of a book: the explicit one, or that of the locale, or English.
pub open spec fn book_language(env: ConfigEnv) -> Result<Seq<char>, Refusal> {
    match opt_text(env.mdp_book_lang) {
        Some(v) => language_tag(v),
        None => {
            let locale = if env.lc_all is Some {
                opt_text(env.lc_all)
            } else {
                opt_text(env.lang)
            };
            match locale {
                Some(l) => match locale_language(l) {
                    Some(t) => Ok(t),
                    None => Ok("en"@),
                },
                None => Ok("en"@),
            }
        },
    }
}

/// The part of a locale before its territory, encoding and modifier.
fn locale_head_of(locale: &str) -> (r: String)
    ensures
        r@ == locale_head(locale@),
{
    let cs = chars_of(locale);
    let mut out = String::new();
    let mut i: usize = 0;
    assert(cs@.skip(0) == locale@);
    while i < cs.len() && cs[i] != '_' && cs[i] != '.' && cs[i] != '@'
        invariant
            0 <= i <= cs@.len(),
            out@ + locale_head(cs@.skip(i as int)) == locale_head(locale@),
        decreases cs@.len() - i,
    {
        assert(cs@.skip(i as int).skip(1) == cs@.skip(i + 1));
        out.push(cs[i]);
        i += 1;
    }
    assert(locale_head(cs@.skip(i as int)) == Seq::<char>::empty());
    assert(out@ == locale_head(locale@));
    out
}

/// The language that a locale names.
fn locale_language_of(locale: &str) -> (r: Option<String>)
    ensures
        opt_text(r) == locale_language(locale@),
{
    let head = locale_head_of(locale);
    let low = ascii_lower_of(chars_of(head.as_str()).as_slice());
    if head.as_str().is_empty() || same_str(low.as_str(), "c") || same_str(low.as_str(), "posix") {
        None
    } else {
        Some(to_lowercase(head.as_str()))
    }
}

/// Determines the language of a book. `MDP_BOOK_LANG` comes first and must be valid; then the
/// first part of `LC_ALL`, or of `LANG` where that is not set; then English.
pub fn resolve_language(env: &ConfigEnv) -> (r: Result<String, ConfigError>)
    ensures
        agrees(r, book_language(*env)),
{
    if let Some(v) = &env.mdp_book_lang {
        return validate_language(v.as_str());
    }
    let locale = if env.lc_all.is_some() {
        &env.lc_all
    } else {
        &env.lang
    };
    match locale {
        Some(l) => match locale_language_of(l.as_str()) {
            Some(t) => Ok(t),
            None => Ok("en".to_owned()),
        },
        None => Ok("en".to_owned()),
    }
}

// ---------------------------------------------------------------------------
// The configuration
// ---------------------------------------------------------------------------
/// The name of the user.
pub open spec fn user_name(env: ConfigEnv) -> Option<Seq<char>> {
    if env.user is Some {
        opt_text(env.user)
    } else {
        opt_text(env.username)
    }
}

/// The name of the user, from `USER` or else `USERNAME`.
pub fn whoami(env: &ConfigEnv) -> (r: Option<String>)
    ensures
        opt_text(r) == user_name(*env),
{
    if env.user.is_some() {
        env.user.clone()
    } else {
        env.username.clone()
    }
}

/// The title before it is checked: the explicit one, or the name of the source directory.
pub open spec fn raw_title(src_dir: Seq<u8>, title: Option<Seq<char>>) -> Seq<char> {
    match title {
        Some(t) => t,
        None => match file_name(src_dir) {
            Some(n) => lossy_text(n),
            None => "Markdown Preview"@,
        },
    }
}

/// The author before it is checked.
pub open spec fn raw_author(env: ConfigEnv) -> Seq<char> {
    match opt_text(env.mdp_author) {
        Some(a) => a,
        None => match user_name(env) {
            Some(u) => u,
            None => "mdp"@,
        },
    }
}

/// The PlantUML server before it is checked.
pub open spec fn raw_server(env: ConfigEnv) -> Seq<char> {
    match opt_text(env.mdp_plantuml_server) {
        Some(s) => s,
        None => "https://www.plantuml.com/plantuml"@,
    }
}

/// The configuration of the book of `src_dir`, or the first refusal: of the title, the author,
/// the PlantUML server or the language.
pub open spec fn config_of(
    src_dir: Seq<u8>,
    title: Option<Seq<char>>,
    env: ConfigEnv,
) -> Result<Config, Refusal> {
    match clean_text(raw_title(src_dir, title), "--title"@) {
        Err(f) => Err(f),
        Ok(title) => match clean_text(raw_author(env), "$MDP_AUTHOR"@) {
            Err(f) => Err(f),
            Ok(author) => match server_url(raw_server(env)) {
                Err(f) => Err(f),
                Ok(plantuml_server) => match book_language(env) {
                    Err(f) => Err(f),
                    Ok(language) => Ok(
                        Config {
                            title,
                            author,
                            plantuml_server,
                            src_dir_display: lossy_text(src_dir),
                            language,
                        },
                    ),
                },
            },
        },
    }
}

impl BookConfig {
    /// Puts together the configuration of the book of `src_dir`, a canonical path.
    pub fn new(src_dir: &[u8], title_override: Option<String>, env: &ConfigEnv) -> (r: Result<
        BookConfig,
        ConfigError,
    >)
        ensures
            match config_of(src_dir@, opt_text(title_override), *env) {
                Ok(c) => r matches Ok(cfg) && cfg@ == c,
                Err(f) => r matches Err(e) && e@ == f,
            },
    {
        let title_text = match title_override {
            Some(t) => t,
            None => match file_name_of(src_dir) {
                Some(n) => lossy_string(n.as_slice()),
                None => "Markdown Preview".to_owned(),
            },
        };
        let title = match reject_control_chars(title_text.as_str(), "--title") {
            Ok(t) => t,
            Err(e) => {
                return Err(e);
            },
        };
        let author_text = match &env.mdp_author {
            Some(a) => a.clone(),
            None => match whoami(env) {
                Some(u) => u,
                None => "mdp".to_owned(),
            },
        };
        let author = match reject_control_chars(author_text.as_str(), "$MDP_AUTHOR") {
            Ok(a) => a,
            Err(e) => {
                return Err(e);
            },
        };
        let server_text = match &env.mdp_plantuml_server {
            Some(s) => s.clone(),
            None => "https://www.plantuml.com/plantuml".to_owned(),
        };
        let plantuml_server = match validate_plantuml_server(server_text.as_str()) {
            Ok(s) => s,
            Err(e) => {
                return Err(e);
            },
        };
        let language = match resolve_language(env) {
            Ok(l) => l,
            Err(e) => {
                return Err(e);
            },
        };
        Ok(
            BookConfig {
                title,
                author,
                plantuml_server,
                src_dir_display: lossy_string(src_dir),
                language,
            },
        )
    }
}

// ---------------------------------------------------------------------------
// Laws
// ---------------------------------------------------------------------------
/// A text has no first ASCII control character exactly if it holds none.
pub proof fn law_first_control(s: Seq<char>)
    ensures
        first_ctrl(s) is None <==> (forall|i: int| 0 <= i < s.len() ==> !is_ascii_ctrl(#[trigger] s[i])),
        first_ctrl(s) matches Some(c) ==> is_ascii_ctrl(c) && s.contains(c),
    decreases s.len(),
{
    if s.len() > 0 {
        let rest = s.skip(1);
        law_first_control(rest);
        if is_ascii_ctrl(s[0]) {
            assert(s.contains(s[0]));
        } else {
            assert forall|i: int| 0 <= i < rest.len() implies #[trigger] rest[i] == s[i + 1] by {}
            if first_ctrl(s) is None {
                assert forall|i: int| 0 <= i < s.len() implies !is_ascii_ctrl(#[trigger] s[i]) by {
                    if i > 0 {
                        assert(!is_ascii_ctrl(rest[i - 1]));
                    }
                }
            } else {
                let c = first_ctrl(s)->0;
                let k = choose|k: int| 0 <= k < rest.len() && rest[k] == c;
                assert(s[k + 1] == c);
            }
        }
    }
}

/// The title, the author and the PlantUML server of a configuration hold no ASCII control character,
/// and the server is an HTTP URL.
pub proof fn law_config_is_clean(src_dir: Seq<u8>, title: Option<Seq<char>>, env: ConfigEnv)
    requires
        config_of(src_dir, title, env) is Ok,
    ensures
        ({
            let c = config_of(src_dir, title, env)->Ok_0;
            &&& forall|i: int| 0 <= i < c.title.len() ==> !is_ascii_ctrl(#[trigger] c.title[i])
            &&& forall|i: int| 0 <= i < c.author.len() ==> !is_ascii_ctrl(#[trigger] c.author[i])
            &&& forall|i: int|
                0 <= i < c.plantuml_server.len() ==> !is_ascii_ctrl(#[trigger] c.plantuml_server[i])
            &&& "http://"@.is_prefix_of(c.plantuml_server) || "https://"@.is_prefix_of(
                c.plantuml_server,
            )
        }),
{
    let c = config_of(src_dir, title, env)->Ok_0;
    law_first_control(c.title);
    law_first_control(c.author);
    law_first_control(c.plantuml_server);
}

/// A language that was accepted is a language tag of at most 12 characters without upper-case
/// letters; it is accepted again as it is.
pub proof fn law_language_is_stable(raw: Seq<char>)
    requires
        language_tag(raw) is Ok,
    ensures
        ({
            let t = language_tag(raw)->Ok_0;
            &&& 2 <= t.len() <= 12
            &&& is_tag(t)
            &&& forall|i: int|
                0 <= i < t.len() ==> is_tag_char(#[trigger] t[i]) && !('A' <= t[i] && t[i] <= 'Z')
            &&& language_tag(t) == Ok::<Seq<char>, Refusal>(t)
        }),
{
    let s = trimmed(raw);
    let t = ascii_lower(s);
    let n: int = if is_tag_with(s, 2) {
        2
    } else {
        3
    };
    assert forall|i: int| 0 <= i < s.len() implies is_tag_char(#[trigger] s[i]) by {
        if i < n {
            assert(is_letter(s[i]));
        }
    }
    assert forall|i: int| 0 <= i < t.len() implies is_tag_char(#[trigger] t[i]) && !('A' <= t[i]
        && t[i] <= 'Z') by {
        assert(is_tag_char(s[i]));
    }
    assert(is_tag_with(t, n)) by {
        assert forall|i: int| 0 <= i < n implies is_letter(#[trigger] t[i]) by {
            assert(is_letter(s[i]));
        }
    }
    assert(is_ascii_chars(s));
    assert(is_ascii_chars(t));
    is_ascii_chars_encode_utf8(s);
    is_ascii_chars_encode_utf8(t);
    assert(is_tag_char(t[0]));
    assert(is_tag_char(t.last()));
    assert(trimmed(t) == t);
    assert(ascii_lower(t) == t);
}

/// The text holds no ASCII control character: none up to 0x1F, and no DEL.
pub open spec fn is_clean(s: Seq<char>) -> bool {
    forall|i: int| 0 <= i < s.len() ==> #[trigger] s[i] > '\u{1f}' && s[i] != '\u{7f}'
}

/// The control character that a refusal names is the first one of the value.
pub proof fn law_first_control_is_named(a: Seq<char>, c: char, b: Seq<char>, what: Seq<char>)
    requires
        is_clean(a),
        c <= '\u{1f}' || c == '\u{7f}',
    ensures
        clean_text(a + seq![c] + b, what) == Err::<Seq<char>, Refusal>(
            Refusal::ControlCharacter { what, found: c, value: a + seq![c] + b },
        ),
        clean_text(a, what) == Ok::<Seq<char>, Refusal>(a),
    decreases a.len(),
{
    let s = a + seq![c] + b;
    if a.len() > 0 {
        let rest = a.skip(1);
        assert(a[0] > '\u{1f}' && a[0] != '\u{7f}');
        assert forall|i: int| 0 <= i < rest.len() implies #[trigger] rest[i] > '\u{1f}'
            && rest[i] != '\u{7f}' by {
            assert(rest[i] == a[i + 1]);
        }
        law_first_control_is_named(rest, c, b, what);
        assert(s.skip(1) == rest + seq![c] + b);
        assert(s[0] == a[0]);
    } else {
        assert(s[0] == c);
    }
}

/// A clean text is one without a first control character.
proof fn lemma_clean(s: Seq<char>)
    ensures
        is_clean(s) <==> first_ctrl(s) is None,
{
    law_first_control(s);
    if first_ctrl(s) is None {
        assert forall|i: int| 0 <= i < s.len() implies #[trigger] s[i] > '\u{1f}' && s[i]
            != '\u{7f}' by {
            assert(!is_ascii_ctrl(s[i]));
        }
    }
}

/// The title that is asked for: the explicit one, or the name of the source directory.
pub open spec fn wanted_title(src_dir: Seq<u8>, title: Option<Seq<char>>) -> Seq<char> {
    if title is Some {
        title->0
    } else if file_name(src_dir) is Some {
        lossy_text(file_name(src_dir)->0)
    } else {
        "Markdown Preview"@
    }
}

/// The author that is asked for: that of `MDP_AUTHOR`, or else of `USER`, or else of `USERNAME`.
pub open spec fn wanted_author(env: ConfigEnv) -> Seq<char> {
    if env.mdp_author is Some {
        env.mdp_author->0@
    } else if env.user is Some {
        env.user->0@
    } else if env.username is Some {
        env.username->0@
    } else {
        "mdp"@
    }
}

/// The PlantUML server that is asked for: that of `MDP_PLANTUML_SERVER`, or else the public one.
pub open spec fn wanted_server(env: ConfigEnv) -> Seq<char> {
    if env.mdp_plantuml_server is Some {
        env.mdp_plantuml_server->0@
    } else {
        "https://www.plantuml.com/plantuml"@
    }
}

/// A configuration has the values that are asked for, unchanged, and is refused just where one of
/// them is not fit for it. The first value that is not fit is the one that is named.
pub proof fn law_config_has_what_is_asked_for(
    src_dir: Seq<u8>,
    title: Option<Seq<char>>,
    env: ConfigEnv,
)
    ensures
        ({
            let r = config_of(src_dir, title, env);
            let t = wanted_title(src_dir, title);
            let a = wanted_author(env);
            let s = wanted_server(env);
            let url = "http://"@.is_prefix_of(s) || "https://"@.is_prefix_of(s);
            &&& r is Ok <==> is_clean(t) && is_clean(a) && url && is_clean(s) && book_language(env)
                is Ok
            &&& r matches Ok(c) ==> c.title == t && c.author == a && c.plantuml_server == s
                && c.src_dir_display == lossy_text(src_dir) && book_language(env) == Ok::<
                Seq<char>,
                Refusal,
            >(c.language)
            &&& !is_clean(t) ==> (r matches Err(Refusal::ControlCharacter { what, found: _, value })
                && what == "--title"@ && value == t)
            &&& is_clean(t) && !is_clean(a) ==> (r matches Err(
                Refusal::ControlCharacter { what, found: _, value },
            ) && what == "$MDP_AUTHOR"@ && value == a)
            &&& is_clean(t) && is_clean(a) && !url ==> (r matches Err(
                Refusal::PlantumlServer { value },
            ) && value == s)
            &&& is_clean(t) && is_clean(a) && url && !is_clean(s) ==> (r matches Err(
                Refusal::ControlCharacter { what, found: _, value },
            ) && what == "$MDP_PLANTUML_SERVER"@ && value == s)
            &&& is_clean(t) && is_clean(a) && url && is_clean(s) ==> (book_language(env) matches Err(
                f,
            ) ==> r == Err::<Config, Refusal>(f))
        }),
{
    lemma_clean(wanted_title(src_dir, title));
    lemma_clean(wanted_author(env));
    lemma_clean(wanted_server(env));
}

/// The text `r` is `s` with small letters for its capital ASCII letters.
pub open spec fn is_lower_form(r: Seq<char>, s: Seq<char>) -> bool {
    r.len() == s.len() && forall|i: int|
        0 <= i < s.len() ==> if 'A' <= s[i] && s[i] <= 'Z' {
            #[trigger] r[i] as int == s[i] as int + 32
        } else {
            r[i] == s[i]
        }
}

/// The text is a language tag whose language has `n` letters.
pub open spec fn has_language_of(t: Seq<char>, n: int) -> bool {
    &&& n <= t.len()
    &&& forall|i: int|
        0 <= i < n ==> ('A' <= #[trigger] t[i] && t[i] <= 'Z') || ('a' <= t[i] && t[i] <= 'z')
    &&& t.len() > n ==> t.len() > n + 1 && (t[n] == '-' || t[n] == '_')
    &&& forall|i: int|
        n < i < t.len() ==> ('A' <= #[trigger] t[i] && t[i] <= 'Z') || ('a' <= t[i] && t[i] <= 'z')
            || ('0' <= t[i] && t[i] <= '9') || t[i] == '-' || t[i] == '_'
}

/// An explicit language is accepted just where it is a language of two or three letters with an
/// optional region behind a hyphen or an underscore, of at most twelve characters. White space
/// around it does not matter, and the result is in small letters.
pub proof fn law_language_tags_are_accepted(w: Seq<char>, t: Seq<char>, z: Seq<char>)
    requires
        is_blank(w),
        is_blank(z),
        t.len() == 0 || (!is_white(t[0]) && !is_white(t.last())),
    ensures
        language_tag(w + t + z) is Ok <==> t.len() <= 12 && (has_language_of(t, 2)
            || has_language_of(t, 3)),
        language_tag(w + t + z) matches Ok(r) ==> is_lower_form(r, t),
        language_tag(w + t + z) matches Err(f) ==> f == (if t.len() == 0 || encode_utf8(t).len()
            > 12 {
            Refusal::LanguageLength { value: w + t + z }
        } else {
            Refusal::LanguageTag { value: w + t + z }
        }),
{
    law_outer_white_space_is_dropped(w, t, z);
    lemma_tag_form(t, 2);
    lemma_tag_form(t, 3);
    if is_tag_with(t, 2) || is_tag_with(t, 3) {
        assert(is_ascii_chars(t)) by {
            let n: int = if is_tag_with(t, 2) {
                2
            } else {
                3
            };
            assert forall|i: int| 0 <= i < t.len() implies '\0' <= #[trigger] t[i] <= '\u{7f}' by {
                if i < n {
                    assert(is_letter(t[i]));
                } else if i > n {
                    assert(is_tag_char(t[i]));
                }
            }
        }
        is_ascii_chars_encode_utf8(t);
    }
    lemma_lower_form(t);
}

/// The two ways to say what a language tag is.
proof fn lemma_tag_form(t: Seq<char>, n: int)
    requires
        n >= 0,
    ensures
        is_tag_with(t, n) <==> has_language_of(t, n),
{
    if is_tag_with(t, n) {
        assert forall|i: int| 0 <= i < n implies ('A' <= #[trigger] t[i] && t[i] <= 'Z') || ('a'
            <= t[i] && t[i] <= 'z') by {
            assert(is_letter(t[i]));
        }
        assert forall|i: int| n < i < t.len() implies ('A' <= #[trigger] t[i] && t[i] <= 'Z') || (
        'a' <= t[i] && t[i] <= 'z') || ('0' <= t[i] && t[i] <= '9') || t[i] == '-' || t[i]
            == '_' by {
            assert(is_tag_char(t[i]));
        }
    }
}

/// Small letters for capital ones.
proof fn lemma_lower_form(s: Seq<char>)
    ensures
        is_lower_form(ascii_lower(s), s),
{
    let r = ascii_lower(s);
    assert forall|i: int| 0 <= i < s.len() implies if 'A' <= s[i] && s[i] <= 'Z' {
        #[trigger] r[i] as int == s[i] as int + 32
    } else {
        r[i] == s[i]
    } by {
        assert(r[i] == lower(s[i]));
    }
}

/// The part of a locale before the first of the characters that end it.
proof fn lemma_locale_head(head: Seq<char>, tail: Seq<char>)
    requires
        forall|i: int| 0 <= i < head.len() ==> head[i] != '_' && head[i] != '.' && head[i] != '@',
        tail.len() == 0 || tail[0] == '_' || tail[0] == '.' || tail[0] == '@',
    ensures
        locale_head(head + tail) == head,
    decreases head.len(),
{
    let s = head + tail;
    if head.len() > 0 {
        let rest = head.skip(1);
        assert forall|i: int| 0 <= i < rest.len() implies rest[i] != '_' && rest[i] != '.' && rest[i]
            != '@' by {
            assert(rest[i] == head[i + 1]);
        }
        lemma_locale_head(rest, tail);
        assert(s.skip(1) == rest + tail);
        assert(s[0] == head[0]);
        assert(seq![head[0]] + rest == head);
    } else {
        assert(s == tail);
        assert(locale_head(s) == head);
    }
}

/// The language of a locale is what stands before its territory, its encoding and its modifier,
/// in small letters. The locales `C` and `POSIX`, in capital or small letters, and one without
/// such a part have none.
pub proof fn law_locale_names_its_language(head: Seq<char>, tail: Seq<char>)
    requires
        forall|i: int| 0 <= i < head.len() ==> head[i] != '_' && head[i] != '.' && head[i] != '@',
        tail.len() == 0 || tail[0] == '_' || tail[0] == '.' || tail[0] == '@',
        is_ascii_chars(head),
    ensures
        head.len() == 0 ==> locale_language(head + tail) is None,
        is_lower_form("c"@, head) || is_lower_form("posix"@, head) ==> locale_language(head + tail)
            is None,
        head.len() > 0 && !is_lower_form("c"@, head) && !is_lower_form("posix"@, head) ==> (
        locale_language(head + tail) matches Some(r) && is_lower_form(r, head)),
{
    lemma_locale_head(head, tail);
    lemma_lower_form(head);
    lemma_lower_form_is_unique("c"@, ascii_lower(head), head);
    lemma_lower_form_is_unique("posix"@, ascii_lower(head), head);
}

/// There is one text in small letters.
proof fn lemma_lower_form_is_unique(a: Seq<char>, b: Seq<char>, s: Seq<char>)
    requires
        is_lower_form(b, s),
    ensures
        is_lower_form(a, s) <==> a == b,
{
    if is_lower_form(a, s) {
        assert forall|i: int| 0 <= i < s.len() implies a[i] == b[i] by {
            assert(a[i] as int == b[i] as int);
        }
        assert(a == b);
    }
}

/// The language of a book is the explicit one where there is one, be it fit or not. Otherwise it
/// is that of the locale `LC_ALL`, or of `LANG` where that is not set. A locale that names no
/// language means English, and so does none.
pub proof fn law_explicit_language_comes_first(env: ConfigEnv)
    ensures
        env.mdp_book_lang matches Some(v) ==> book_language(env) == language_tag(v@),
        env.mdp_book_lang is None ==> book_language(env) is Ok,
        env.mdp_book_lang is None && env.lc_all is Some ==> (locale_language(env.lc_all->0@)
            matches Some(t) ==> book_language(env) == Ok::<Seq<char>, Refusal>(t)),
        env.mdp_book_lang is None && env.lc_all is Some && locale_language(env.lc_all->0@) is None
            ==> book_language(env) == Ok::<Seq<char>, Refusal>("en"@),
        env.mdp_book_lang is None && env.lc_all is None && env.lang is Some ==> (locale_language(
            env.lang->0@,
        ) matches Some(t) ==> book_language(env) == Ok::<Seq<char>, Refusal>(t)),
        env.mdp_book_lang is None && env.lc_all is None && (env.lang is None || locale_language(
            env.lang->0@,
        ) is None) ==> book_language(env) == Ok::<Seq<char>, Refusal>("en"@),
{
}

} // verus!
