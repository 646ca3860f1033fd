use interval_mapping::parse::{parse_mapping_rules, MalformedRuleError};
use interval_mapping::text::{chars_of, is_whitespace_char, parse_number, split_words};
use interval_mapping::MappingRule;

fn lines(text: &[&str]) -> Vec<String> {
    text.iter().map(|l| l.to_string()).collect()
}

fn chars(text: &str) -> Vec<char> {
    text.chars().collect()
}

#[test]
fn rule_is_read_from_three_numbers() {
    let rule = MappingRule::parse("50 98 2").unwrap();
    assert_eq!(rule.dest_start(), 50);
    assert_eq!(rule.source_start(), 98);
    assert_eq!(rule.source_end(), 100);
    assert_eq!(MappingRule::parse("50 98 2"), Ok(MappingRule::new(50, 98, 2).unwrap()));
}

#[test]
fn rule_is_read_through_from_str() {
    let rule: MappingRule = "52 50 48".parse().unwrap();
    assert_eq!(rule, MappingRule::new(52, 50, 48).unwrap());
    assert_eq!("52 50".parse::<MappingRule>(), Err(MalformedRuleError::FieldCount));
}

#[test]
fn white_space_around_the_fields_is_dropped() {
    let expected = Ok(MappingRule::new(50, 98, 2).unwrap());
    assert_eq!(MappingRule::parse("  50   98 2  "), expected);
    assert_eq!(MappingRule::parse("\t50\t98\t2\r\n"), expected);
    assert_eq!(MappingRule::parse("50\u{3000}98\u{a0}2\u{2003}"), expected);
}

#[test]
fn plus_sign_and_leading_zeros_are_accepted() {
    assert_eq!(MappingRule::parse("+50 0098 +02"), Ok(MappingRule::new(50, 98, 2).unwrap()));
}

#[test]
fn rule_needs_exactly_three_fields() {
    assert_eq!(MappingRule::parse(""), Err(MalformedRuleError::FieldCount));
    assert_eq!(MappingRule::parse("   "), Err(MalformedRuleError::FieldCount));
    assert_eq!(MappingRule::parse("50"), Err(MalformedRuleError::FieldCount));
    assert_eq!(MappingRule::parse("50 98"), Err(MalformedRuleError::FieldCount));
    assert_eq!(MappingRule::parse("50 98 2 7"), Err(MalformedRuleError::FieldCount));
    assert_eq!(MappingRule::parse("a b"), Err(MalformedRuleError::FieldCount));
}

#[test]
fn rule_needs_unsigned_numbers() {
    assert_eq!(MappingRule::parse("a 98 2"), Err(MalformedRuleError::InvalidNumber));
    assert_eq!(MappingRule::parse("50 -98 2"), Err(MalformedRuleError::InvalidNumber));
    assert_eq!(MappingRule::parse("50 98 2.5"), Err(MalformedRuleError::InvalidNumber));
    assert_eq!(MappingRule::parse("50 98 0x2"), Err(MalformedRuleError::InvalidNumber));
    assert_eq!(MappingRule::parse("50 98 +"), Err(MalformedRuleError::InvalidNumber));
    assert_eq!(MappingRule::parse("50 9_8 2"), Err(MalformedRuleError::InvalidNumber));
    assert_eq!(MappingRule::parse("50 98 ++2"), Err(MalformedRuleError::InvalidNumber));
    assert_eq!(MappingRule::parse("50 98 \u{661}"), Err(MalformedRuleError::InvalidNumber));
}

#[test]
fn number_that_does_not_fit_is_no_number() {
    assert_eq!(
        MappingRule::parse("50 98 99999999999999999999999999999999999999999"),
        Err(MalformedRuleError::InvalidNumber)
    );
    let past = format!("0 0 {}0", usize::MAX);
    assert_eq!(MappingRule::parse(&past), Err(MalformedRuleError::InvalidNumber));
}

#[test]
fn rule_with_zero_length_is_malformed() {
    assert_eq!(MappingRule::parse("50 98 0"), Err(MalformedRuleError::EmptyRange));
}

#[test]
fn rule_that_reaches_past_the_largest_value_is_malformed() {
    let source = format!("0 {} 1", usize::MAX);
    assert_eq!(MappingRule::parse(&source), Err(MalformedRuleError::OutOfRange));
    let image = format!("{} 0 1", usize::MAX);
    assert_eq!(MappingRule::parse(&image), Err(MalformedRuleError::OutOfRange));
    let fits = format!("{} {} 1", usize::MAX - 1, usize::MAX - 1);
    assert_eq!(
        MappingRule::parse(&fits),
        Ok(MappingRule::new(usize::MAX - 1, usize::MAX - 1, 1).unwrap())
    );
}

#[test]
fn field_count_is_checked_before_the_numbers() {
    assert_eq!(MappingRule::parse("a b c d"), Err(MalformedRuleError::FieldCount));
    assert_eq!(MappingRule::parse("x 98 0"), Err(MalformedRuleError::InvalidNumber));
}

#[test]
fn stage_is_read_line_by_line() {
    let stage = parse_mapping_rules(&lines(&["50 98 2", "52 50 48"])).unwrap();
    assert_eq!(stage.len(), 2);
    assert_eq!(stage.resolve(98), 50);
    assert_eq!(stage.resolve(99), 51);
    assert_eq!(stage.resolve(53), 55);
    assert_eq!(stage.resolve(10), 10);
    assert_eq!(
        stage.rules(),
        vec![MappingRule::new(52, 50, 48).unwrap(), MappingRule::new(50, 98, 2).unwrap()]
    );
}

#[test]
fn stage_of_no_lines_is_the_identity() {
    let stage = parse_mapping_rules(&[]).unwrap();
    assert!(stage.is_empty());
    assert_eq!(stage.resolve(42), 42);
}

#[test]
fn first_malformed_line_decides_the_error() {
    assert_eq!(
        parse_mapping_rules(&lines(&["50 98 2", "52 50", "x y z"])),
        Err(MalformedRuleError::FieldCount)
    );
    assert_eq!(
        parse_mapping_rules(&lines(&["50 98 2", "x y z", "52 50"])),
        Err(MalformedRuleError::InvalidNumber)
    );
    assert_eq!(
        parse_mapping_rules(&lines(&["50 98 2", ""])),
        Err(MalformedRuleError::FieldCount)
    );
    assert_eq!(
        parse_mapping_rules(&lines(&["1 2 0", "x y z"])),
        Err(MalformedRuleError::EmptyRange)
    );
}

#[test]
fn later_line_decides_where_lines_overlap() {
    let stage = parse_mapping_rules(&lines(&["100 0 10", "500 3 2"])).unwrap();
    assert_eq!(stage.len(), 3);
    assert_eq!(stage.resolve(2), 102);
    assert_eq!(stage.resolve(3), 500);
    assert_eq!(stage.resolve(4), 501);
    assert_eq!(stage.resolve(5), 105);
}

#[test]
fn words_are_runs_without_white_space() {
    assert_eq!(split_words("seeds: 79 14"), vec![chars("seeds:"), chars("79"), chars("14")]);
    assert_eq!(split_words("  a\t\tb \n"), vec![chars("a"), chars("b")]);
    assert_eq!(split_words(""), Vec::<Vec<char>>::new());
    assert_eq!(split_words(" \u{2028} "), Vec::<Vec<char>>::new());
    assert_eq!(split_words("one"), vec![chars("one")]);
    assert_eq!(split_words("é\u{85}ü"), vec![chars("é"), chars("ü")]);
}

#[test]
fn words_agree_with_the_standard_library() {
    let texts = [
        "50 98 2",
        " a  b ",
        "\u{1680}x\u{200a}y\u{205f}z\u{202f}",
        "\u{200b}a b",
        "a\u{b}b\u{c}c",
    ];
    for text in texts {
        let expected: Vec<Vec<char>> =
            text.split_whitespace().map(|w| w.chars().collect()).collect();
        assert_eq!(split_words(text), expected);
    }
}

#[test]
fn white_space_is_what_unicode_says() {
    for code in 0..0x11_0000u32 {
        if let Some(c) = char::from_u32(code) {
            assert_eq!(is_whitespace_char(c), c.is_whitespace(), "U+{code:04X}");
        }
    }
}

#[test]
fn characters_come_in_order() {
    assert_eq!(chars_of("a é\u{3000}z"), vec!['a', ' ', 'é', '\u{3000}', 'z']);
    assert_eq!(chars_of(""), Vec::<char>::new());
}

#[test]
fn numbers_are_read_in_decimal() {
    assert_eq!(parse_number(&chars("0")), Some(0));
    assert_eq!(parse_number(&chars("7")), Some(7));
    assert_eq!(parse_number(&chars("1234567890")), Some(1234567890));
    assert_eq!(parse_number(&chars("+15")), Some(15));
    assert_eq!(parse_number(&chars("000")), Some(0));
    assert_eq!(parse_number(&chars("00000000000000000000000000000000042")), Some(42));
}

#[test]
fn largest_number_is_read_and_the_next_is_not() {
    let largest = usize::MAX.to_string();
    assert_eq!(parse_number(&chars(&largest)), Some(usize::MAX));
    let mut digits: Vec<char> = largest.chars().collect();
    let last = digits.len() - 1;
    digits[last] = char::from_digit(digits[last].to_digit(10).unwrap() + 1, 10).unwrap();
    assert_eq!(parse_number(&digits), None);
}

#[test]
fn numbers_agree_with_the_standard_library() {
    let texts = [
        "",
        "+",
        "-",
        "-0",
        "+0",
        "-5",
        "+5",
        "5+",
        "5 ",
        " 5",
        "1e3",
        "١٢",
        "12a",
        "a12",
        "1_000",
        "0x10",
        "18446744073709551615",
        "18446744073709551616",
        "4294967295",
        "4294967296",
        "99999999999999999999",
    ];
    for text in texts {
        assert_eq!(parse_number(&chars(text)), text.parse::<usize>().ok(), "{text:?}");
    }
}
