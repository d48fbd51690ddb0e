use grex::config::RegExpConfig;
use grex::expression::{Expression, Quantifier};
use grex::grapheme::Grapheme;
use grex::unicode::get_codepoint_position;

fn literal(text: &str, config: &RegExpConfig) -> Expression {
    Expression::Literal(vec![Grapheme::from(text, config)], *config)
}

#[test]
fn test_quantifier_fixed_count_single_char() {
    let config = RegExpConfig::new();
    let grapheme = Grapheme::new(vec![String::from("a")], 3, 3, &config);
    assert_eq!(grapheme.to_regexp_string(), "a{3}");
}

#[test]
fn test_quantifier_range_single_char() {
    let config = RegExpConfig::new();
    let grapheme = Grapheme::new(vec![String::from("a")], 2, 5, &config);
    assert_eq!(grapheme.to_regexp_string(), "a{2,5}");
}

#[test]
fn test_quantifier_fixed_count_multiple_chars() {
    let config = RegExpConfig::new();
    let grapheme = Grapheme::new(vec![String::from("ab")], 4, 4, &config);
    assert_eq!(grapheme.to_regexp_string(), "(?:ab){4}");
}

#[test]
fn test_quantifier_absent_for_single_occurrence() {
    let config = RegExpConfig::new();
    let grapheme = Grapheme::new(vec![String::from("a")], 1, 1, &config);
    assert_eq!(grapheme.to_regexp_string(), "a");
}

#[test]
fn test_quantifier_capturing_group() {
    let mut config = RegExpConfig::new();
    config.is_capturing_group_enabled = true;
    let grapheme = Grapheme::new(vec![String::from("ab")], 4, 4, &config);
    assert_eq!(grapheme.to_regexp_string(), "(ab){4}");
}

#[test]
fn test_escaped_backslash_pair_is_single_char() {
    let config = RegExpConfig::new();
    let grapheme = Grapheme::new(vec![String::from("\\n")], 2, 2, &config);
    assert_eq!(grapheme.to_regexp_string(), "\\n{2}");
}

#[test]
fn test_character_class_range_compression() {
    let config = RegExpConfig::new();
    let class = Expression::CharacterClass(vec!['a', 'b', 'c', 'x', 'z'], config);
    assert_eq!(class.to_regexp_string(), "[a-cxz]");
}

#[test]
fn test_character_class_pair_stays_individual() {
    let config = RegExpConfig::new();
    let class = Expression::CharacterClass(vec!['a', 'b'], config);
    assert_eq!(class.to_regexp_string(), "[ab]");
}

#[test]
fn test_character_class_escapes_metacharacters() {
    let config = RegExpConfig::new();
    let class = Expression::CharacterClass(vec!['-', ']', '^'], config);
    assert_eq!(class.to_regexp_string(), "[\\-\\]\\^]");
}

#[test]
fn test_character_class_run_across_surrogate_gap() {
    let config = RegExpConfig::new();
    let class = Expression::CharacterClass(vec!['\u{d7fe}', '\u{d7ff}', '\u{e000}'], config);
    assert_eq!(class.to_regexp_string(), "[\u{d7fe}-\u{e000}]");
}

#[test]
fn test_codepoint_position_skips_surrogate_range() {
    assert_eq!(get_codepoint_position('a'), 0x61);
    assert_eq!(get_codepoint_position('\u{d7ff}'), 0xd7ff);
    assert_eq!(get_codepoint_position('\u{e000}'), 0xd800);
    assert_eq!(get_codepoint_position('\u{10ffff}'), 0x10ffff - 0x800);
}

#[test]
fn test_alternation_of_literals() {
    let config = RegExpConfig::new();
    let alternation = Expression::Alternation(
        vec![
            literal("a", &config),
            literal("aa", &config),
            literal("aaa", &config),
        ],
        config,
    );
    assert_eq!(alternation.to_regexp_string(), "a|aa|aaa");
}

#[test]
fn test_merged_literal_renders_range_quantifier() {
    let config = RegExpConfig::new();
    let merged = Expression::Literal(
        vec![Grapheme::new(vec![String::from("a")], 1, 3, &config)],
        config,
    );
    assert_eq!(merged.to_regexp_string(), "a{1,3}");
}

#[test]
fn test_alternation_inside_concatenation_is_grouped() {
    let config = RegExpConfig::new();
    let alternation = Expression::Alternation(
        vec![literal("a", &config), literal("b", &config)],
        config,
    );
    let concatenation = Expression::Concatenation(
        Box::new(alternation),
        Box::new(literal("c", &config)),
        config,
    );
    assert_eq!(concatenation.to_regexp_string(), "(?:a|b)c");
}

#[test]
fn test_concatenation_of_literals_needs_no_group() {
    let config = RegExpConfig::new();
    let concatenation = Expression::Concatenation(
        Box::new(literal("ab", &config)),
        Box::new(literal("cd", &config)),
        config,
    );
    assert_eq!(concatenation.to_regexp_string(), "abcd");
}

#[test]
fn test_repetition_of_character_class() {
    let config = RegExpConfig::new();
    let class = Expression::CharacterClass(vec!['a', 'b'], config);
    let repetition = Expression::Repetition(Box::new(class), Quantifier::Plus, config);
    assert_eq!(repetition.to_regexp_string(), "[ab]+");
}

#[test]
fn test_repetition_of_alternation_is_grouped() {
    let config = RegExpConfig::new();
    let alternation = Expression::Alternation(
        vec![literal("a", &config), literal("b", &config)],
        config,
    );
    let repetition = Expression::Repetition(Box::new(alternation), Quantifier::Asterisk, config);
    assert_eq!(repetition.to_regexp_string(), "(?:a|b)*");
}

#[test]
fn test_counted_quantifiers() {
    let config = RegExpConfig::new();
    let class = Expression::CharacterClass(vec!['a', 'b'], config);
    let exact = Expression::Repetition(Box::new(class), Quantifier::Exactly(12), config);
    assert_eq!(exact.to_regexp_string(), "[ab]{12}");
    let class = Expression::CharacterClass(vec!['a', 'b'], config);
    let between = Expression::Repetition(Box::new(class), Quantifier::Between(0, 30), config);
    assert_eq!(between.to_regexp_string(), "[ab]{0,30}");
}

#[test]
fn test_repetition_of_single_char_literal() {
    let config = RegExpConfig::new();
    let repetition = Expression::Repetition(
        Box::new(literal("a", &config)),
        Quantifier::QuestionMark,
        config,
    );
    assert_eq!(repetition.to_regexp_string(), "a?");
}

#[test]
fn test_literal_escapes_metacharacters() {
    let config = RegExpConfig::new();
    assert_eq!(literal("a.b", &config).to_regexp_string(), "a\\.b");
    assert_eq!(literal("(x)+", &config).to_regexp_string(), "\\(x\\)\\+");
}

#[test]
fn test_literal_escapes_lone_backslash() {
    let config = RegExpConfig::new();
    assert_eq!(literal("\\", &config).to_regexp_string(), "\\\\");
}

#[test]
fn test_literal_escapes_control_characters() {
    let config = RegExpConfig::new();
    assert_eq!(literal("a\nb\tc", &config).to_regexp_string(), "a\\nb\\tc");
}

#[test]
fn test_literal_without_metacharacters_is_unchanged() {
    let config = RegExpConfig::new();
    assert_eq!(literal("abc", &config).to_regexp_string(), "abc");
}

#[test]
fn test_surrogate_escaping_of_astral_literal() {
    let mut config = RegExpConfig::new();
    config.is_non_ascii_char_escaped = true;
    config.is_astral_code_point_converted_to_surrogate = true;
    assert_eq!(
        literal("\u{1f600}", &config).to_regexp_string(),
        "\\u{d83d}\\u{de00}"
    );
}

#[test]
fn test_surrogate_escaping_of_largest_scalar() {
    let mut config = RegExpConfig::new();
    config.is_non_ascii_char_escaped = true;
    config.is_astral_code_point_converted_to_surrogate = true;
    assert_eq!(
        literal("\u{10ffff}", &config).to_regexp_string(),
        "\\u{dbff}\\u{dfff}"
    );
}

#[test]
fn test_single_escape_of_astral_literal() {
    let mut config = RegExpConfig::new();
    config.is_non_ascii_char_escaped = true;
    assert_eq!(literal("\u{1f600}", &config).to_regexp_string(), "\\u{1f600}");
}

#[test]
fn test_single_escape_of_basic_plane_literal() {
    let mut config = RegExpConfig::new();
    config.is_non_ascii_char_escaped = true;
    assert_eq!(literal("\u{e9}", &config).to_regexp_string(), "\\u{e9}");
}

#[test]
fn test_escaping_leaves_original_grapheme_untouched() {
    let config = RegExpConfig::new();
    let cluster = vec![Grapheme::from("a.b", &config)];
    let expression = Expression::Literal(cluster.clone(), config);
    assert_eq!(expression.to_regexp_string(), "a\\.b");
    if let Expression::Literal(after, _) = expression {
        assert_eq!(after, cluster);
    } else {
        unreachable!();
    }
}

#[test]
fn test_colorized_alternation() {
    let mut config = RegExpConfig::new();
    config.is_output_colorized = true;
    let alternation = Expression::Alternation(
        vec![literal("a", &config), literal("b", &config)],
        config,
    );
    assert_eq!(
        alternation.to_regexp_string(),
        "\u{1b}[1;33ma\u{1b}[0m\u{1b}[1;31m|\u{1b}[0m\u{1b}[1;33mb\u{1b}[0m"
    );
}

#[test]
fn test_colorized_grapheme_quantifier() {
    let mut config = RegExpConfig::new();
    config.is_output_colorized = true;
    let grapheme = Grapheme::new(vec![String::from("a")], 3, 3, &config);
    assert_eq!(
        grapheme.to_regexp_string(),
        "\u{1b}[1;33ma\u{1b}[0m\u{1b}[1;35m{\u{1b}[0m\u{1b}[1;36m3\u{1b}[0m\u{1b}[1;35m}\u{1b}[0m"
    );
}

#[test]
fn test_composite_grapheme_renders_sub_runs() {
    let config = RegExpConfig::new();
    let mut composite = Grapheme::new(vec![String::from("xy")], 1, 1, &config);
    *composite.repetitions_mut() = vec![
        Grapheme::new(vec![String::from("a")], 2, 2, &config),
        Grapheme::new(vec![String::from("b")], 1, 1, &config),
    ];
    assert_eq!(composite.to_regexp_string(), "a{2}b");
}

#[test]
fn test_value_joins_fragments() {
    let config = RegExpConfig::new();
    let grapheme = Grapheme::new(
        vec![String::from("ab"), String::from("cd")],
        1,
        1,
        &config,
    );
    assert_eq!(grapheme.value(), "abcd");
    assert_eq!(grapheme.char_count(false), 4);
}

#[test]
fn test_char_count_with_escaping() {
    let config = RegExpConfig::new();
    let grapheme = Grapheme::new(vec![String::from("\u{e9}")], 1, 1, &config);
    assert_eq!(grapheme.char_count(false), 1);
    assert_eq!(grapheme.char_count(true), 6);
}

#[test]
fn test_escape_regexp_symbols_rewrites_fragments() {
    let config = RegExpConfig::new();
    let mut grapheme = Grapheme::new(
        vec![String::from("a.b"), String::from("\u{e9}")],
        1,
        1,
        &config,
    );
    grapheme.escape_regexp_symbols(true, false);
    assert_eq!(
        grapheme.chars(),
        &vec![String::from("a\\.b"), String::from("\\u{e9}")]
    );
}

#[test]
fn test_empty_character_class() {
    let config = RegExpConfig::new();
    let class = Expression::CharacterClass(vec![], config);
    assert_eq!(class.to_regexp_string(), "[]");
}
