use mdp::config::{
    reject_control_chars, resolve_language, validate_language, validate_plantuml_server, whoami,
    BookConfig, ConfigEnv, ConfigError,
};

fn no_env() -> ConfigEnv {
    ConfigEnv {
        mdp_author: None,
        user: None,
        username: None,
        mdp_plantuml_server: None,
        mdp_book_lang: None,
        lc_all: None,
        lang: None,
    }
}

fn some(s: &str) -> Option<String> {
    Some(s.to_string())
}

#[test]
fn rejects_newline_in_title() {
    let r = reject_control_chars("a\nb", "--title");
    assert!(r.is_err());
}

#[test]
fn accepts_plain_title() {
    let r = reject_control_chars("My Notes", "--title").unwrap();
    assert_eq!(r, "My Notes");
}

#[test]
fn accepts_korean_title() {
    let r = reject_control_chars("안녕 markdown", "--title").unwrap();
    assert_eq!(r, "안녕 markdown");
}

#[test]
fn plantuml_requires_http() {
    assert!(validate_plantuml_server("/usr/bin/evil").is_err());
    assert!(validate_plantuml_server("evil").is_err());
    assert!(validate_plantuml_server("ftp://x").is_err());
    assert!(validate_plantuml_server("http://example.com").is_ok());
    assert!(validate_plantuml_server("https://www.plantuml.com/plantuml").is_ok());
}

#[test]
fn plantuml_rejects_control_chars_even_with_http_prefix() {
    assert!(validate_plantuml_server("https://ok\nmalicious").is_err());
    assert!(validate_plantuml_server("http://ok\tevil").is_err());
}

#[test]
fn reject_control_chars_catches_all_below_0x20() {
    for c in 0u32..=0x1f {
        let s = String::from(char::from_u32(c).unwrap());
        if c == 0x00 && s == " " {
            continue;
        }
        assert!(
            reject_control_chars(&s, "x").is_err(),
            "{c:#x} should have been rejected"
        );
    }
    assert!(reject_control_chars(" ", "x").is_ok());
    assert!(reject_control_chars("a b c", "x").is_ok());
    assert!(reject_control_chars("한글", "x").is_ok());
}

#[test]
fn reject_control_chars_catches_embedded_control_in_long_string() {
    let s = format!("{}{}{}", "a".repeat(50), '\u{7}', "b".repeat(50));
    assert!(reject_control_chars(&s, "x").is_err());
}

#[test]
fn plantuml_rejects_empty_and_unicode_only() {
    assert!(validate_plantuml_server("").is_err());
    assert!(validate_plantuml_server("한글://server").is_err());
}

#[test]
fn validate_language_accepts_common_codes() {
    assert_eq!(validate_language("en").unwrap(), "en");
    assert_eq!(validate_language("EN").unwrap(), "en");
    assert_eq!(validate_language("ko").unwrap(), "ko");
    assert_eq!(validate_language("en-US").unwrap(), "en-us");
    assert_eq!(validate_language("zh_CN").unwrap(), "zh_cn");
}

#[test]
fn validate_language_rejects_garbage() {
    assert!(validate_language("").is_err());
    assert!(validate_language(" ").is_err());
    assert!(validate_language("한글").is_err());
    assert!(validate_language("en;evil").is_err());
    assert!(validate_language("en\";injection=x").is_err());
    assert!(validate_language(&"a".repeat(20)).is_err());
}

#[test]
fn language_is_trimmed_and_bounded_by_bytes() {
    assert_eq!(validate_language("  Pt-BR\n").unwrap(), "pt-br");
    assert_eq!(validate_language("de-CH-1901_x").unwrap(), "de-ch-1901_x");
    assert!(matches!(
        validate_language("abcdefghijklm"),
        Err(ConfigError::LanguageLength { value }) if value == "abcdefghijklm"
    ));
    // Five characters, but fifteen bytes.
    assert!(matches!(validate_language("가나다라마"), Err(ConfigError::LanguageLength { .. })));
    assert!(matches!(
        validate_language("e n"),
        Err(ConfigError::LanguageTag { value }) if value == "e n"
    ));
    assert_eq!(validate_language(&validate_language(" EN_us ").unwrap()).unwrap(), "en_us");
}

#[test]
fn language_is_two_or_three_letters_and_a_region() {
    for ok in ["en", "kok", "en-US", "kok_IN", "zh-Hant-TW", "es-419", "en--"] {
        assert_eq!(validate_language(ok).unwrap(), ok.to_lowercase(), "{ok}");
    }
    for bad in ["1", "e", "e1", "12", "engl", "abcdefghijkl", "en-", "en_", "-US", "e-US", "engl-US", "en.US", "en1"] {
        assert!(
            matches!(validate_language(bad), Err(ConfigError::LanguageTag { value }) if value == bad),
            "{bad}"
        );
    }
}

#[test]
fn only_ascii_control_characters_are_refused() {
    assert_eq!(reject_control_chars("a\u{85}b\u{9f}", "--title").unwrap(), "a\u{85}b\u{9f}");
    assert!(reject_control_chars("a\u{7f}b", "--title").is_err());
    assert!(validate_plantuml_server("http://a\u{80}").is_ok());
}

#[test]
fn errors_tell_what_was_found_where() {
    match reject_control_chars("x\u{7}y\n", "--title") {
        Err(ConfigError::ControlCharacter { what, found, value }) => {
            assert_eq!(what, "--title");
            assert_eq!(found, '\u{7}');
            assert_eq!(value, "x\u{7}y\n");
        }
        _ => panic!("not refused"),
    }
    assert!(matches!(
        validate_plantuml_server("plantuml.jar"),
        Err(ConfigError::PlantumlServer { value }) if value == "plantuml.jar"
    ));
    assert!(matches!(
        validate_plantuml_server("http://a\nb"),
        Err(ConfigError::ControlCharacter { what, .. }) if what == "$MDP_PLANTUML_SERVER"
    ));
}

#[test]
fn language_comes_from_the_explicit_variable_first() {
    let mut env = no_env();
    assert_eq!(resolve_language(&env).unwrap(), "en");
    env.lang = some("ko_KR.UTF-8");
    assert_eq!(resolve_language(&env).unwrap(), "ko");
    env.lc_all = some("DE@euro");
    assert_eq!(resolve_language(&env).unwrap(), "de");
    env.mdp_book_lang = some("ja-JP");
    assert_eq!(resolve_language(&env).unwrap(), "ja-jp");
    env.mdp_book_lang = some("");
    assert!(resolve_language(&env).is_err());
}

#[test]
fn locales_without_a_language_mean_english() {
    for locale in ["C", "c.UTF-8", "POSIX", "posix", "", "_KR", ".UTF-8", "@euro"] {
        let mut env = no_env();
        env.lang = some("fr_FR");
        env.lc_all = some(locale);
        assert_eq!(resolve_language(&env).unwrap(), "en", "{locale:?}");
    }
}

#[test]
fn locale_is_lowered_beyond_ascii() {
    let mut env = no_env();
    env.lang = some("ÄÖ_X");
    assert_eq!(resolve_language(&env).unwrap(), "äö");
}

#[test]
fn configuration_has_defaults() {
    let cfg = BookConfig::new(b"/home/me/notes", None, &no_env()).unwrap();
    assert_eq!(cfg.title, "notes");
    assert_eq!(cfg.author, "mdp");
    assert_eq!(cfg.plantuml_server, "https://www.plantuml.com/plantuml");
    assert_eq!(cfg.src_dir_display, "/home/me/notes");
    assert_eq!(cfg.language, "en");
    assert_eq!(BookConfig::new(b"/", None, &no_env()).unwrap().title, "Markdown Preview");
}

#[test]
fn configuration_takes_the_environment() {
    let mut env = no_env();
    env.username = some("win");
    assert_eq!(whoami(&env).unwrap(), "win");
    env.user = some("me");
    assert_eq!(whoami(&env).unwrap(), "me");
    env.mdp_plantuml_server = some("http://localhost:8080");
    let cfg = BookConfig::new(b"/n", some("T"), &env).unwrap();
    assert_eq!(cfg.title, "T");
    assert_eq!(cfg.author, "me");
    assert_eq!(cfg.plantuml_server, "http://localhost:8080");
    env.mdp_author = some("Author");
    assert_eq!(BookConfig::new(b"/n", None, &env).unwrap().author, "Author");
}

#[test]
fn configuration_shows_undecodable_paths() {
    let cfg = BookConfig::new(b"/a/b\xffc", None, &no_env()).unwrap();
    assert_eq!(cfg.title, "b\u{fffd}c");
    assert_eq!(cfg.src_dir_display, "/a/b\u{fffd}c");
}

#[test]
fn configuration_reports_the_first_refusal() {
    let mut env = no_env();
    env.mdp_author = some("a\nb");
    env.mdp_plantuml_server = some("x");
    env.mdp_book_lang = some("!");
    assert!(matches!(
        BookConfig::new(b"/n", some("a\tb"), &env),
        Err(ConfigError::ControlCharacter { what, .. }) if what == "--title"
    ));
    assert!(matches!(
        BookConfig::new(b"/n", None, &env),
        Err(ConfigError::ControlCharacter { what, .. }) if what == "$MDP_AUTHOR"
    ));
    env.mdp_author = None;
    assert!(matches!(
        BookConfig::new(b"/n", None, &env),
        Err(ConfigError::PlantumlServer { .. })
    ));
    env.mdp_plantuml_server = None;
    assert!(matches!(
        BookConfig::new(b"/n", None, &env),
        Err(ConfigError::LanguageTag { .. })
    ));
}
