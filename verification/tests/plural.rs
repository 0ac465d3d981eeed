use patois::plural::PluralRule;

#[test]
fn english_style_rule() {
    let rule = PluralRule::parse_from_header("Plural-Forms: nplurals=2; plural=(n != 1);\n").unwrap();
    assert_eq!(rule.index_for(0), 1);
    assert_eq!(rule.index_for(1), 0);
    assert_eq!(rule.index_for(2), 1);
}

#[test]
fn russian_style_three_form_rule() {
    let header = "Plural-Forms: nplurals=3; plural=(n%10==1 && n%100!=11 ? 0 : n%10>=2 && n%10<=4 && (n%100<10 || n%100>=20) ? 1 : 2);\n";
    let rule = PluralRule::parse_from_header(header).unwrap();
    assert_eq!(rule.index_for(1), 0);
    assert_eq!(rule.index_for(21), 0);
    assert_eq!(rule.index_for(2), 1);
    assert_eq!(rule.index_for(22), 1);
    assert_eq!(rule.index_for(5), 2);
    assert_eq!(rule.index_for(11), 2);
    assert_eq!(rule.index_for(25), 2);
}

#[test]
fn arabic_style_six_form_rule() {
    let header = "Plural-Forms: nplurals=6; plural=(n==0 ? 0 : n==1 ? 1 : n==2 ? 2 : n%100>=3 && n%100<=10 ? 3 : n%100>=11 ? 4 : 5);\n";
    let rule = PluralRule::parse_from_header(header).unwrap();
    assert_eq!(rule.index_for(0), 0);
    assert_eq!(rule.index_for(1), 1);
    assert_eq!(rule.index_for(2), 2);
    assert_eq!(rule.index_for(3), 3);
    assert_eq!(rule.index_for(11), 4);
    assert_eq!(rule.index_for(100), 5);
    assert_eq!(rule.index_for(203), 3);
}

#[test]
fn missing_header_returns_none() {
    assert!(PluralRule::parse_from_header("Language: de\n").is_none());
}

#[test]
fn malformed_expression_returns_none() {
    assert!(PluralRule::parse_from_header("Plural-Forms: nplurals=2; plural=(n @ 1);\n").is_none());
}

#[test]
fn index_is_clamped_to_nplurals() {
    let rule = PluralRule::parse_from_header("Plural-Forms: nplurals=2; plural=5;\n").unwrap();
    assert_eq!(rule.index_for(0), 1);
}

#[test]
fn arithmetic_and_unary_operators_follow_c() {
    let rule = PluralRule::parse_from_header("Plural-Forms: nplurals=9; plural=-(n - 10) / 2 + !n * 3 - n % 0;\n").unwrap();
    assert_eq!(rule.index_for(0), 8);
    assert_eq!(rule.index_for(4), 3);
    assert_eq!(rule.index_for(20), 0);
}

#[test]
fn a_zero_count_of_forms_is_refused() {
    assert!(PluralRule::parse_from_header("Plural-Forms: nplurals=0; plural=0;\n").is_none());
    assert!(PluralRule::parse_from_header("Plural-Forms: plural=0;\n").is_none());
}

#[test]
fn trailing_tokens_make_the_expression_malformed() {
    assert!(PluralRule::parse_from_header("Plural-Forms: nplurals=2; plural=n 1;\n").is_none());
    assert!(PluralRule::parse_from_header("Plural-Forms: nplurals=2; plural=(n;\n").is_none());
}

#[test]
fn an_overflowing_rule_has_no_checked_index() {
    let rule = PluralRule::parse_from_header("Plural-Forms: nplurals=2; plural=n*9223372036854775807;\n").unwrap();
    assert_eq!(rule.checked_index_for(1), Some(1));
    assert_eq!(rule.checked_index_for(2), None);
    let rule = PluralRule::parse_from_header("Plural-Forms: nplurals=2; plural=(n != 1);\n").unwrap();
    assert_eq!(rule.checked_index_for(5), Some(1));
}
