use kelp::config::{glob_to_regex, Config, ConfigError};

const SAMPLE: &str = ".text:\n  - .text\n  - .text.*\n.data:\n  - .data*\n";

#[test]
fn glob_to_regex_escapes_dots_and_stars() {
    assert_eq!(glob_to_regex(".text.*"), "^\\.text\\.[^.]*$");
    assert_eq!(glob_to_regex("abc"), "^abc$");
    assert_eq!(glob_to_regex(""), "^$");
    assert_eq!(glob_to_regex("*"), "^[^.]*$");
}

#[test]
fn parse_maps_sections_to_outputs() {
    let cfg = Config::parse(SAMPLE.as_bytes());
    assert_eq!(cfg.output_section(b".text"), Some(".text"));
    assert_eq!(cfg.output_section(b".text.startup"), Some(".text"));
    assert_eq!(cfg.output_section(b".data"), Some(".data"));
    assert_eq!(cfg.output_section(b".data1"), Some(".data"));
    assert_eq!(cfg.output_section(b".bss"), None);
    // `*` does not match across a dot.
    assert_eq!(cfg.output_section(b".text.a.b"), None);
    // Patterns are anchored at both ends.
    assert_eq!(cfg.output_section(b"x.text"), None);
}

#[test]
fn output_match_gives_first_matching_pattern() {
    let cfg = Config::parse(SAMPLE.as_bytes());
    assert_eq!(cfg.output_match(b".text"), Some((0, ".text")));
    assert_eq!(cfg.output_match(b".text.hot"), Some((1, ".text")));
    assert_eq!(cfg.output_match(b".data1"), Some((2, ".data")));
    assert_eq!(cfg.output_match(b".data.rel"), None);
    assert_eq!(cfg.output_match(b".rodata"), None);
}

#[test]
fn first_pattern_wins_when_several_match() {
    let cfg = Config::parse(b"a:\n  - .x*\nb:\n  - .x\n");
    assert_eq!(cfg.output_match(b".x"), Some((0, "a")));
}

#[test]
fn from_lists_matches_parse() {
    let cfg = Config::from_lists(vec![
        (".text".to_string(), vec![".text".to_string(), ".text.*".to_string()]),
        (".data".to_string(), vec![".data*".to_string()]),
    ])
    .unwrap();
    assert_eq!(cfg.output_match(b".text.hot"), Some((1, ".text")));
    assert_eq!(cfg.output_match(b".data"), Some((2, ".data")));
}

#[test]
fn empty_configuration_matches_nothing() {
    let cfg = Config::from_lists(vec![]).unwrap();
    assert_eq!(cfg.output_section(b".text"), None);
}

#[test]
fn not_a_map_is_a_syntax_error() {
    assert_eq!(Config::try_parse(b"- a\n- b\n").err(), Some(ConfigError::Syntax));
    assert_eq!(Config::try_parse(b"a: [b\n").err(), Some(ConfigError::Syntax));
    assert_eq!(Config::try_parse(b"a: 3\n").err(), Some(ConfigError::Syntax));
}

#[test]
fn pattern_without_name_characters_is_rejected() {
    assert_eq!(Config::try_parse(b"a:\n  - \"@@\"\n").err(), Some(ConfigError::InvalidPattern));
}

#[test]
fn pattern_that_is_no_regex_is_rejected() {
    assert_eq!(Config::try_parse(b"a:\n  - \"x(\"\n").err(), Some(ConfigError::InvalidConfiguration));
}

#[test]
fn try_parse_agrees_with_parse() {
    let a = Config::try_parse(SAMPLE.as_bytes()).unwrap();
    let b = Config::parse(SAMPLE.as_bytes());
    for name in [&b".text"[..], b".text.x", b".data2", b".bss"] {
        assert_eq!(a.output_match(name), b.output_match(name));
    }
}
