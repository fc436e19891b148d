use mini_regex::matcher::{
    contains_char, copy_spans, match_backref, match_re, match_repeat, match_view, record_captures,
    span_stands_at, takes_char, Cursor, Span,
};
use mini_regex::parser::{parse, to_chars, RE};

fn compiled(pattern: &str) -> RE {
    parse(pattern).unwrap()
}

fn found(text: &str, pattern: &str) -> bool {
    mini_regex::matcher::matches(text, &compiled(pattern))
}

fn positions(cursors: &Vec<Cursor>) -> Vec<usize> {
    cursors.iter().map(|c| c.pos).collect()
}

fn run(text: &str, pattern: &str, start: usize) -> Vec<Cursor> {
    match_view(&to_chars(text), &Cursor::new(start), &compiled(pattern))
}

#[test]
fn search_is_unanchored() {
    assert!(found("abc", "b"));
    assert!(found("abc", "c"));
    assert!(!found("abc", "d"));
}

#[test]
fn start_anchor_ties_to_the_start_of_the_text() {
    assert!(found("abc", "^a"));
    assert!(!found("abc", "^b"));
    assert!(!found("abc", "a^b"));
}

#[test]
fn end_anchor_ties_to_the_end_of_the_text() {
    assert!(found("abc", "c$"));
    assert!(!found("abc", "b$"));
    assert!(found("abc", "^abc$"));
    assert!(!found("abc", "^ab$"));
}

#[test]
fn back_reference_repeats_the_capture() {
    assert!(found("cat and cat", "(cat) and \\1"));
    assert!(!found("cat and dog", "(cat) and \\1"));
}

#[test]
fn back_reference_follows_the_alternative_taken() {
    assert!(found("dog and dog", "(cat|dog) and \\1"));
    assert!(!found("dog and cat", "(cat|dog) and \\1"));
    assert!(found("abab", "^(a|b)(a|b)\\1\\2$"));
    assert!(!found("abba", "^(a|b)(a|b)\\1\\2$"));
}

#[test]
fn back_reference_without_a_capture_fails() {
    assert!(!found("aaa", "\\1"));
    assert!(!found("aa", "(b)?\\1a"));
    assert!(!found("", "\\1"));
}

#[test]
fn nested_groups_capture_separately() {
    assert!(found("abcabcb", "^((a)(b)c)\\1\\3$"));
    assert!(!found("abcabca", "^((a)(b)c)\\1\\3$"));
}

#[test]
fn one_or_more_needs_one() {
    assert!(found("aaa", "a+"));
    assert!(found("aaa", "^a+$"));
    assert!(!found("bbb", "a+"));
    assert!(!found("", "a+"));
}

#[test]
fn zero_or_more_matches_the_empty_text() {
    assert!(found("", "a*"));
    assert!(found("", ""));
    assert!(found("", "^$"));
    assert!(!found("", "a"));
    assert!(!found("", "."));
}

#[test]
fn zero_or_more_takes_any_number() {
    assert!(found("b", "^a*b$"));
    assert!(found("ab", "^a*b$"));
    assert!(found("aab", "^a*b$"));
    assert!(found("aaaab", "^a*b$"));
    assert!(!found("aacb", "^a*b$"));
}

#[test]
fn zero_or_one_takes_at_most_one() {
    assert!(found("ac", "^ab?c$"));
    assert!(found("abc", "^ab?c$"));
    assert!(!found("abbc", "^ab?c$"));
}

#[test]
fn repeat_gives_back_what_the_rest_needs() {
    assert!(found("aaa", "^a+a$"));
    assert!(found("aaa", "^a*aaa$"));
    assert!(!found("aaa", "^a+aaa$"));
    assert!(found("xaby", "x.+y"));
}

#[test]
fn repeat_of_something_empty_ends() {
    assert!(found("aab", "^(a?)*b$"));
    assert!(found("a", "(^)*a"));
    assert!(found("b", "^(a*)+b$"));
    assert!(!found("c", "^(a*)+b$"));
    assert!(found("", "(a*)*"));
}

#[test]
fn group_that_consumed_nothing_still_passes() {
    assert!(found("b", "^(a*)b$"));
    assert!(found("b", "^()b$"));
    assert!(!found("b", "^(a*)\\1b$"));
}

#[test]
fn digit_class_takes_ascii_digits() {
    assert!(found("a7", "\\d"));
    assert!(found("0", "^\\d$"));
    assert!(found("9", "^\\d$"));
    assert!(!found("abc", "\\d"));
    assert!(!found("/:", "\\d"));
    assert!(!found("٣", "\\d"));
}

#[test]
fn word_class_takes_letters_digits_and_underscore() {
    assert!(found("_", "^\\w$"));
    assert!(found("aZ09_", "^\\w\\w\\w\\w\\w$"));
    assert!(!found("-", "\\w"));
    assert!(!found("@[`{", "\\w"));
    assert!(!found("é", "\\w"));
}

#[test]
fn class_takes_its_members() {
    assert!(found("b", "^[abc]$"));
    assert!(!found("d", "[abc]"));
    assert!(!found("", "[abc]"));
    assert!(!found("a", "[]"));
    assert!(found("-", "[a-c]"));
    assert!(!found("b", "[a-c]"));
}

#[test]
fn negated_class_takes_everything_else() {
    assert!(found("d", "^[^abc]$"));
    assert!(!found("abc", "[^abc]"));
    assert!(!found("", "[^abc]"));
    assert!(found("a", "[^]"));
}

#[test]
fn dot_takes_one_character_of_any_kind() {
    assert!(found("é", "^.$"));
    assert!(found("a\n", "a.$"));
    assert!(!found("ab", "^.$"));
}

#[test]
fn alternatives_are_all_tried() {
    assert!(found("ad", "^(ab|a)d$"));
    assert!(found("abd", "^(ab|a)d$"));
    assert!(found("abcd", "^(a|ab)(c|bcd)$"));
    assert!(!found("ac", "^(ab|b)c$"));
}

#[test]
fn attempts_start_at_each_character() {
    assert!(found("xxab", "ab$"));
    assert!(found("abc", "c$"));
    assert!(!found("abc", "^$"));
    assert!(!found("abc", "$"));
    assert!(found("", "$"));
}

#[test]
fn text_is_read_by_characters() {
    assert!(found("日本語", "^日.語$"));
    assert!(found("éé", "^(é)\\1$"));
    assert!(!found("é", "^..$"));
}

#[test]
fn match_view_lists_what_is_reached_in_order() {
    assert_eq!(positions(&run("aaa", "a+", 0)), vec![1, 2, 3]);
    assert_eq!(positions(&run("aaa", "a*", 0)), vec![0, 1, 2, 3]);
    assert_eq!(positions(&run("aaa", "a?", 1)), vec![1, 2]);
    assert_eq!(positions(&run("abab", "(ab|a)", 0)), vec![2, 1]);
    assert_eq!(positions(&run("aaa", "b", 0)), Vec::<usize>::new());
    assert_eq!(positions(&run("aaa", "", 3)), vec![3]);
    assert_eq!(positions(&run("aaa", "a", 3)), Vec::<usize>::new());
}

#[test]
fn match_view_keeps_equal_positions_apart() {
    assert_eq!(positions(&run("ab", "(a|a)b", 0)), vec![2, 2]);
    assert_eq!(positions(&run("aa", "(a|a)*", 0)), vec![0, 1, 1, 2, 2, 2, 2]);
}

#[test]
fn group_records_what_it_consumed() {
    let reached = run("xab", "(a(b))", 1);
    assert_eq!(
        reached,
        vec![Cursor {
            pos: 3,
            captures: vec![Span { group: 2, start: 2, end: 3 }, Span { group: 1, start: 1, end: 3 }],
        }]
    );
}

#[test]
fn group_records_once_for_each_pass() {
    let reached = run("aa", "(a)+", 0);
    assert_eq!(
        reached,
        vec![
            Cursor { pos: 1, captures: vec![Span { group: 1, start: 0, end: 1 }] },
            Cursor {
                pos: 2,
                captures: vec![Span { group: 1, start: 0, end: 1 }, Span { group: 1, start: 1, end: 2 }],
            },
        ]
    );
}

#[test]
fn empty_capture_is_not_recorded() {
    let reached = run("b", "(a*)", 0);
    assert_eq!(reached, vec![Cursor { pos: 0, captures: vec![] }]);
}

#[test]
fn pattern_without_a_group_captures_nothing() {
    for pattern in ["a+b*", "^.\\w\\d?[ab][^c]$", "a*\\1", ".*", "\\w+$"] {
        for start in 0..=4 {
            for cursor in run("ab1a", pattern, start) {
                assert!(cursor.captures.is_empty());
            }
        }
    }
}

#[test]
fn captures_of_the_input_are_kept() {
    let text = to_chars("abab");
    let kept = Span { group: 7, start: 0, end: 2 };
    let input = Cursor { pos: 2, captures: vec![kept] };
    let reached = match_view(&text, &input, &compiled("a.?"));
    assert_eq!(
        reached,
        vec![Cursor { pos: 3, captures: vec![kept] }, Cursor { pos: 4, captures: vec![kept] }]
    );
}

#[test]
fn match_re_goes_through_the_inputs_in_turn() {
    let text = to_chars("abcabd");
    let inputs = vec![Cursor::new(3), Cursor::new(1), Cursor::new(0)];
    let reached = match_re(&text, &inputs, &compiled("ab?"));
    assert_eq!(positions(&reached), vec![4, 5, 1, 2]);
    assert_eq!(positions(&match_re(&text, &Vec::new(), &compiled("a"))), Vec::<usize>::new());
    assert_eq!(positions(&match_re(&text, &inputs, &compiled("c"))), Vec::<usize>::new());
}

#[test]
fn match_repeat_needs_one_occurrence() {
    let text = to_chars("aab");
    let a = RE::Literal('a');
    assert_eq!(positions(&match_repeat(&text, &Cursor::new(0), &a)), vec![1, 2]);
    assert_eq!(positions(&match_repeat(&text, &Cursor::new(2), &a)), Vec::<usize>::new());
    let empty = RE::Sequence(vec![]);
    assert_eq!(positions(&match_repeat(&text, &Cursor::new(1), &empty)), vec![1]);
}

#[test]
fn match_backref_tries_every_capture_of_the_group() {
    let text = to_chars("abaab");
    let captures = vec![
        Span { group: 1, start: 0, end: 1 },
        Span { group: 2, start: 2, end: 4 },
        Span { group: 1, start: 0, end: 2 },
        Span { group: 1, start: 1, end: 2 },
    ];
    let input = Cursor { pos: 3, captures: captures.clone() };
    let reached = match_backref(&text, &input, 1);
    assert_eq!(
        reached,
        vec![
            Cursor { pos: 4, captures: captures.clone() },
            Cursor { pos: 5, captures: captures.clone() },
        ]
    );
    assert_eq!(match_backref(&text, &input, 3), vec![]);
    let at_end = Cursor { pos: 5, captures };
    assert_eq!(match_backref(&text, &at_end, 1), vec![]);
}

#[test]
fn record_captures_skips_what_did_not_move() {
    let text = to_chars("abc");
    let reached = vec![Cursor::new(1), Cursor::new(3)];
    assert_eq!(
        record_captures(&text, &reached, 4, 1),
        vec![
            Cursor { pos: 1, captures: vec![] },
            Cursor { pos: 3, captures: vec![Span { group: 4, start: 1, end: 3 }] },
        ]
    );
}

#[test]
fn span_stands_at_compares_the_text() {
    let text = to_chars("abcab");
    let ab = Span { group: 1, start: 0, end: 2 };
    assert!(span_stands_at(&text, 3, ab));
    assert!(span_stands_at(&text, 0, ab));
    assert!(!span_stands_at(&text, 1, ab));
    assert!(!span_stands_at(&text, 4, ab));
    assert!(span_stands_at(&text, 5, Span { group: 1, start: 2, end: 2 }));
}

#[test]
fn takes_char_follows_the_kind_of_the_pattern() {
    assert!(takes_char(&RE::Literal('a'), 'a'));
    assert!(!takes_char(&RE::Literal('a'), 'b'));
    assert!(takes_char(&RE::Dot, '\n'));
    assert!(takes_char(&RE::Digit, '5'));
    assert!(!takes_char(&RE::Digit, 'a'));
    assert!(takes_char(&RE::Word, '_'));
    assert!(!takes_char(&RE::Word, ' '));
    assert!(takes_char(&RE::CharClass(vec!['x', 'y']), 'y'));
    assert!(!takes_char(&RE::NegClass(vec!['x', 'y']), 'y'));
    assert!(!takes_char(&RE::AnchorStart, 'a'));
    assert!(!takes_char(&RE::BackRef(1), 'a'));
}

#[test]
fn contains_char_looks_through_the_whole_list() {
    assert!(contains_char(&vec!['a', 'b', 'c'], 'c'));
    assert!(!contains_char(&vec!['a', 'b', 'c'], 'd'));
    assert!(!contains_char(&vec![], 'a'));
}

#[test]
fn copies_are_equal() {
    let spans = vec![Span { group: 1, start: 0, end: 2 }, Span { group: 2, start: 1, end: 1 }];
    assert_eq!(copy_spans(&spans), spans);
    let cursor = Cursor { pos: 2, captures: spans };
    assert_eq!(cursor.duplicate(), cursor);
    assert_eq!(Cursor::new(5), Cursor { pos: 5, captures: vec![] });
}
