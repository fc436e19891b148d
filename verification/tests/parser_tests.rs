use mini_regex::parser::{parse, parse_group, parse_seq, to_chars, ParseError, Quantifier, RE};

fn lit(c: char) -> RE {
    RE::Literal(c)
}

fn seq(elements: Vec<RE>) -> RE {
    RE::Sequence(elements)
}

fn group(index: usize, inner: RE) -> RE {
    RE::Group(index, Box::new(inner))
}

fn repeat(inner: RE, q: Quantifier) -> RE {
    RE::Repeat(Box::new(inner), q)
}

#[test]
fn star_wraps_the_literal_before_it() {
    assert_eq!(parse("a*"), Ok(seq(vec![repeat(lit('a'), Quantifier::ZeroOrMore)])));
}

#[test]
fn each_quantifier_has_its_own_kind() {
    assert_eq!(
        parse("a*b+c?"),
        Ok(seq(vec![
            repeat(lit('a'), Quantifier::ZeroOrMore),
            repeat(lit('b'), Quantifier::OneOrMore),
            repeat(lit('c'), Quantifier::ZeroOrOne),
        ]))
    );
}

#[test]
fn quantifier_wraps_only_the_last_element() {
    assert_eq!(parse("ab+"), Ok(seq(vec![lit('a'), repeat(lit('b'), Quantifier::OneOrMore)])));
}

#[test]
fn quantifier_behind_a_quantifier_wraps_the_repeat() {
    assert_eq!(
        parse("a*+"),
        Ok(seq(vec![repeat(repeat(lit('a'), Quantifier::ZeroOrMore), Quantifier::OneOrMore)]))
    );
}

#[test]
fn leading_star_is_dangling() {
    assert_eq!(parse("*"), Err(ParseError::DanglingQuantifier('*', 0)));
}

#[test]
fn leading_plus_and_question_mark_are_dangling() {
    assert_eq!(parse("+a"), Err(ParseError::DanglingQuantifier('+', 0)));
    assert_eq!(parse("?"), Err(ParseError::DanglingQuantifier('?', 0)));
}

#[test]
fn quantifier_at_the_start_of_a_group_is_dangling() {
    assert_eq!(parse("ab(*)"), Err(ParseError::DanglingQuantifier('*', 3)));
    assert_eq!(parse("(a|+)"), Err(ParseError::DanglingQuantifier('+', 3)));
}

#[test]
fn lone_backslash_lacks_its_escape() {
    assert_eq!(parse("\\"), Err(ParseError::LackEscape(0)));
    assert_eq!(parse("ab\\"), Err(ParseError::LackEscape(2)));
}

#[test]
fn unknown_escape_is_reported_at_the_escaped_character() {
    assert_eq!(parse("\\z"), Err(ParseError::InvalidEscape(1)));
    assert_eq!(parse("ab\\0"), Err(ParseError::InvalidEscape(3)));
    assert_eq!(parse("\\\\"), Err(ParseError::InvalidEscape(1)));
}

#[test]
fn escapes_give_classes_and_back_references() {
    assert_eq!(parse("\\d\\w"), Ok(seq(vec![RE::Digit, RE::Word])));
    assert_eq!(parse("\\1"), Ok(seq(vec![RE::BackRef(1)])));
    assert_eq!(parse("\\5\\9"), Ok(seq(vec![RE::BackRef(5), RE::BackRef(9)])));
}

#[test]
fn back_reference_needs_no_group() {
    assert_eq!(parse("a\\3"), Ok(seq(vec![lit('a'), RE::BackRef(3)])));
}

#[test]
fn open_class_is_unterminated() {
    assert_eq!(parse("[abc"), Err(ParseError::UnterminatedCharClass(0)));
    assert_eq!(parse("x["), Err(ParseError::UnterminatedCharClass(1)));
    assert_eq!(parse("xy[^"), Err(ParseError::UnterminatedCharClass(2)));
}

#[test]
fn class_members_are_taken_as_they_stand() {
    assert_eq!(parse("[abc]"), Ok(seq(vec![RE::CharClass(vec!['a', 'b', 'c'])])));
    assert_eq!(parse("[a-c]"), Ok(seq(vec![RE::CharClass(vec!['a', '-', 'c'])])));
    assert_eq!(parse("[\\d(*]"), Ok(seq(vec![RE::CharClass(vec!['\\', 'd', '(', '*'])])));
}

#[test]
fn caret_negates_only_at_the_front_of_a_class() {
    assert_eq!(parse("[^ab]"), Ok(seq(vec![RE::NegClass(vec!['a', 'b'])])));
    assert_eq!(parse("[a^b]"), Ok(seq(vec![RE::CharClass(vec!['a', '^', 'b'])])));
    assert_eq!(parse("[^^]"), Ok(seq(vec![RE::NegClass(vec!['^'])])));
}

#[test]
fn first_closing_bracket_ends_the_class() {
    assert_eq!(parse("[]"), Ok(seq(vec![RE::CharClass(vec![])])));
    assert_eq!(parse("[^]"), Ok(seq(vec![RE::NegClass(vec![])])));
    assert_eq!(parse("[]a]"), Ok(seq(vec![RE::CharClass(vec![]), lit('a'), lit(']')])));
}

#[test]
fn open_group_is_unterminated_at_its_parenthesis() {
    assert_eq!(parse("(ab"), Err(ParseError::UnterminatedGroup(0)));
    assert_eq!(parse("ab(cd"), Err(ParseError::UnterminatedGroup(2)));
    assert_eq!(parse("(a|"), Err(ParseError::UnterminatedGroup(0)));
}

#[test]
fn innermost_open_group_is_reported() {
    assert_eq!(parse("a(b(c"), Err(ParseError::UnterminatedGroup(3)));
    assert_eq!(parse("((a)"), Err(ParseError::UnterminatedGroup(0)));
}

#[test]
fn single_alternative_is_the_bare_sequence() {
    assert_eq!(parse("(ab)"), Ok(seq(vec![group(1, seq(vec![lit('a'), lit('b')]))])));
    assert_eq!(parse("()"), Ok(seq(vec![group(1, seq(vec![]))])));
}

#[test]
fn several_alternatives_are_an_alternation() {
    assert_eq!(
        parse("(a|bc|)"),
        Ok(seq(vec![group(
            1,
            RE::Alt(vec![seq(vec![lit('a')]), seq(vec![lit('b'), lit('c')]), seq(vec![])]),
        )]))
    );
}

#[test]
fn groups_are_numbered_as_they_open() {
    assert_eq!(
        parse("(a)(b(c))(d)"),
        Ok(seq(vec![
            group(1, seq(vec![lit('a')])),
            group(2, seq(vec![lit('b'), group(3, seq(vec![lit('c')]))])),
            group(4, seq(vec![lit('d')])),
        ]))
    );
}

#[test]
fn groups_in_alternatives_share_one_counter() {
    assert_eq!(
        parse("((a)|(b))"),
        Ok(seq(vec![group(
            1,
            RE::Alt(vec![
                seq(vec![group(2, seq(vec![lit('a')]))]),
                seq(vec![group(3, seq(vec![lit('b')]))]),
            ]),
        )]))
    );
}

#[test]
fn quantifier_wraps_a_whole_group() {
    assert_eq!(
        parse("(ab)+"),
        Ok(seq(vec![repeat(group(1, seq(vec![lit('a'), lit('b')])), Quantifier::OneOrMore)]))
    );
}

#[test]
fn anchors_may_stand_anywhere() {
    assert_eq!(
        parse("a^$b"),
        Ok(seq(vec![lit('a'), RE::AnchorStart, RE::AnchorEnd, lit('b')]))
    );
    assert_eq!(parse("^*"), Ok(seq(vec![repeat(RE::AnchorStart, Quantifier::ZeroOrMore)])));
}

#[test]
fn dot_is_any_character() {
    assert_eq!(parse("a.c"), Ok(seq(vec![lit('a'), RE::Dot, lit('c')])));
}

#[test]
fn empty_pattern_is_the_empty_sequence() {
    assert_eq!(parse(""), Ok(seq(vec![])));
}

#[test]
fn top_level_stops_at_a_closing_parenthesis_or_a_bar() {
    assert_eq!(parse("a)b"), Ok(seq(vec![lit('a')])));
    assert_eq!(parse("a|b"), Ok(seq(vec![lit('a')])));
    assert_eq!(parse("|*"), Ok(seq(vec![])));
}

#[test]
fn offsets_count_characters() {
    assert_eq!(parse("éü\\"), Err(ParseError::LackEscape(2)));
    assert_eq!(parse("日本(語"), Err(ParseError::UnterminatedGroup(2)));
    assert_eq!(parse("é*"), Ok(seq(vec![repeat(lit('é'), Quantifier::ZeroOrMore)])));
}

#[test]
fn first_fault_wins() {
    assert_eq!(parse("\\z[abc"), Err(ParseError::InvalidEscape(1)));
    assert_eq!(parse("(a\\"), Err(ParseError::LackEscape(2)));
    assert_eq!(parse("(a[b)"), Err(ParseError::UnterminatedCharClass(2)));
}

#[test]
fn parsing_twice_gives_the_same_tree() {
    let pattern = "(a|b)+\\1[^xyz](c(d))?$";
    let first = parse(pattern);
    let second = parse(pattern);
    assert!(first.is_ok());
    assert_eq!(first, second);
    assert_eq!(parse("(a)(b)"), parse("(a)(b)"));
    assert_eq!(parse("(a"), parse("(a"));
}

#[test]
fn to_chars_lists_the_characters() {
    assert_eq!(to_chars("aé$"), vec!['a', 'é', '$']);
    assert_eq!(to_chars(""), Vec::<char>::new());
}

#[test]
fn parse_seq_returns_where_it_stopped_and_the_groups_opened() {
    let chars = to_chars("x(a)(b)|c");
    assert_eq!(
        parse_seq(&chars, 1, 0),
        Ok((seq(vec![group(1, seq(vec![lit('a')])), group(2, seq(vec![lit('b')]))]), 7, 2))
    );
    assert_eq!(parse_seq(&chars, 7, 5), Ok((seq(vec![]), 7, 5)));
    assert_eq!(parse_seq(&chars, 9, 0), Ok((seq(vec![]), 9, 0)));
}

#[test]
fn parse_group_takes_the_next_index() {
    let chars = to_chars("z(a(b))y");
    assert_eq!(
        parse_group(&chars, 1, 4),
        Ok((group(5, seq(vec![lit('a'), group(6, seq(vec![lit('b')]))])), 7, 6))
    );
    assert_eq!(parse_group(&chars, 3, 0), Ok((group(1, seq(vec![lit('b')])), 6, 1)));
    assert_eq!(parse_group(&chars, 7, 0), Err(ParseError::UnterminatedGroup(7)));
}
