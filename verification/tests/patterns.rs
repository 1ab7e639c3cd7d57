use aw_combined::exclude::RuleError;
use aw_combined::pattern::is_sound;
use aw_combined::{Data, NotCountedRule};

fn hits(pattern: &str, text: &str) -> bool {
    let data = Data::parse(&format!(r#"{{"app":"{text}"}}"#)).unwrap();
    NotCountedRule::new(pattern, false, None).unwrap().matches(&data)
}

#[test]
fn ordinary_patterns_are_sound() {
    for pattern in [
        "",
        "YouTube",
        "(?i)youtube|netflix",
        r"^\d{4}-\d{2}-\d{2}T\d{2}:\d{2}:\d{2}\.\d{3,6}$",
        r"[^]a-z(\]{99999999999}]+",
        r"(\w+) \1",
        r"(?<word>\w+) \k<word>",
        r"(?P<word>\w+) (?P=word)",
        r"(a)(b)\k<-2>\k<1>",
        r"(a)?(?(1)b|c)",
        r"(?<=a)b(?!c)(?>d)(?:e)",
        r"\p{Greek}\x{1F600}\u{21D2}",
        "(?x) a b # ( and so on",
        "a(?# one ( two )b",
        "(?x) ( a ) # and (\n \\1",
        "(?x: (a) # )\n )\\1",
        r"(a)(?# \) ( )\1",
    ] {
        assert!(is_sound(pattern), "{pattern}");
    }
}

#[test]
fn a_reference_from_inside_its_own_group_is_not_sound() {
    for pattern in [
        r"(?:x(a\1?))+",
        r"((b)\1)",
        r"(?<n>a\k<n>)",
        r"(?<n>a\k'n')",
        r"(?P<n>a(?P=n))",
        r"(a\k<1>)",
        r"(a\k<-1>)",
        r"([)]\1)",
        r"(\)\1)",
        r"(?x)(a # )
            \1)",
        r"(a(?#)\1)",
        r"(a(?# \) )\1)",
        "(?i-sx:b) (?ix) (a # )\n \\1)",
        "(?x) ( ?<n> a \\k<n>)",
    ] {
        assert!(!is_sound(pattern), "{pattern}");
    }
    assert!(is_sound(r"(a)\1"), "behind its group a reference is in order");
    assert!(is_sound(r"((a)\2)"));
}

#[test]
fn a_reference_by_a_number_that_no_group_has_is_not_sound() {
    assert!(!is_sound(r"(a)\k<9223372036854775807>"));
    assert!(!is_sound(r"(a)\k<2>"));
    assert!(is_sound(r"(a)\k<1>"));
}

#[test]
fn a_repeat_beyond_counting_is_not_sound() {
    assert!(!is_sound("(?:aa){18446744073709551615}"));
    assert!(!is_sound("((?=a)){9999999999999}"));
    assert!(!is_sound("(?:(?:a{10000}){10000}){10000}"));
    assert!(!is_sound("(?x) a { 9999999999 }"));
    assert!(!is_sound("(?x) a # {\n { # }\n 9999999999 }"));
    assert!(is_sound("(?x) a # {9999999999}"), "a remark asks for nothing");
    assert!(!is_sound("a # {9999999999}"), "outside a spaced pattern it is none");
    assert!(is_sound("(?:a{900}){900}"));
    assert!(is_sound("a{1000}b{1000}c{1000}d{1000}"), "side by side they add up");
}

#[test]
fn an_unsound_pattern_makes_no_rule() {
    assert!(matches!(
        NotCountedRule::new(r"(?:x(a\1?))+", false, None),
        Err(RuleError::Unsound)
    ));
    assert!(matches!(
        NotCountedRule::new("(?:aa){18446744073709551615}", true, None),
        Err(RuleError::Unsound)
    ));
    let by_hand =
        NotCountedRule { pattern: r"(?:x(a\1?))+".to_string(), select_keys: None };
    assert!(!by_hand.matches(&Data::parse(r#"{"app":"xaxa"}"#).unwrap()));
}

#[test]
fn a_sound_pattern_is_searched_for_as_written() {
    assert!(hits(r"(\w+) \1", "mirror mirror"));
    assert!(!hits(r"(\w)x\1", "axb"));
    assert!(hits(r"(?<w>\w)x\k<w>", "axa"));
    assert!(hits(r"(a)?(?(1)b|c)", "ab"));
    assert!(hits("(?x) ( a ) # and (\n \\1", "xaa"));
    assert!(!hits("(?x) ( a ) # and (\n \\1", "xab"));
    assert!(hits(r"(?<!un)known", "known"));
    assert!(!hits(r"(?<!un)known", "unknown"));
}
