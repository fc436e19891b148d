//! The pattern parser.
//!
//! [`parse`] reads a pattern in one pass from left to right, without going
//! back, and stops at the first fault. What it returns is stated against the
//! grammar of [`crate::syntax`].

use vstd::prelude::*;
use crate::syntax::{
    class_close, group_body, quantifier_of, spec_parse, spec_parse_alts, spec_parse_atom,
    spec_parse_class, spec_parse_escape, spec_parse_group, spec_parse_seq, Pattern, Run, Step,
};

verus! {

/// Why a pattern was rejected, with the character offset at which it went wrong.
#[derive(Debug, PartialEq, Eq)]
pub enum ParseError {
    /// The quantifier at this offset has nothing before it to repeat.
    DanglingQuantifier(char, usize),
    /// The character at this offset, behind a backslash, names no escape.
    InvalidEscape(usize),
    /// The backslash at this offset is the last character of the pattern.
    LackEscape(usize),
    /// The `[` at this offset has no `]` behind it.
    UnterminatedCharClass(usize),
    /// The `(` at this offset has no `)` that closes it.
    UnterminatedGroup(usize),
}

/// How often a repeated sub-pattern may occur.
#[derive(Debug, Clone, Copy, PartialEq, Eq)]
pub enum Quantifier {
    ZeroOrOne,
    OneOrMore,
    ZeroOrMore,
}

/// A compiled pattern.
#[derive(Debug, PartialEq, Eq)]
pub enum RE {
    /// Exactly this character.
    Literal(char),
    /// Any single character.
    Dot,
    /// An ASCII digit.
    Digit,
    /// An ASCII letter, an ASCII digit or `_`.
    Word,
    /// Any one of the listed characters.
    CharClass(Vec<char>),
    /// Any one character that is not listed.
    NegClass(Vec<char>),
    /// The inner pattern, as often as the quantifier allows.
    Repeat(Box<RE>, Quantifier),
    /// One of the branches.
    Alt(Vec<RE>),
    /// The inner pattern; what it consumed is captured under the index.
    Group(usize, Box<RE>),
    /// Text captured earlier under the index.
    BackRef(usize),
    /// The very start of the text.
    AnchorStart,
    /// The very end of the text.
    AnchorEnd,
    /// The elements, one after the other.
    Sequence(Vec<RE>),
}

impl RE {
    /// The pattern that this tree denotes.
    pub open spec fn model(&self) -> Pattern
        decreases self,
    {
        match self {
            RE::Literal(c) => Pattern::Literal(*c),
            RE::Dot => Pattern::Dot,
            RE::Digit => Pattern::Digit,
            RE::Word => Pattern::Word,
            RE::CharClass(set) => Pattern::CharClass(set@),
            RE::NegClass(set) => Pattern::NegClass(set@),
            RE::Repeat(inner, q) => Pattern::Repeat(Box::new(inner.model()), *q),
            RE::Alt(branches) => Pattern::Alt(models(branches@)),
            RE::Group(index, inner) => Pattern::Group(*index as nat, Box::new(inner.model())),
            RE::BackRef(index) => Pattern::BackRef(*index as nat),
            RE::AnchorStart => Pattern::AnchorStart,
            RE::AnchorEnd => Pattern::AnchorEnd,
            RE::Sequence(elements) => Pattern::Sequence(models(elements@)),
        }
    }
}

/// The patterns that a list of trees denotes, one by one. (The test on `i`
/// is there for the termination check; the sequence has no other places.)
pub open spec fn models(list: Seq<RE>) -> Seq<Pattern>
    decreases list,
{
    Seq::new(list.len(), |i: int| if 0 <= i < list.len() { list[i].model() } else { Pattern::Dot })
}

/// The model of a list follows the list as it grows.
pub proof fn lemma_models_push(list: Seq<RE>, re: RE)
    ensures
        models(list.push(re)) == models(list).push(re@),
        models(list.push(re)).len() == list.len() + 1,
{
    assert(models(list.push(re)) =~= models(list).push(re.model()));
}

/// The empty list denotes no pattern.
pub proof fn lemma_models_empty()
    ensures
        models(Seq::<RE>::empty()) == Seq::<Pattern>::empty(),
{
    assert(models(Seq::<RE>::empty()) =~= Seq::<Pattern>::empty());
}

impl View for RE {
    type V = Pattern;

    open spec fn view(&self) -> Pattern {
        self.model()
    }
}

/// What a parsing step returned, as the grammar states it.
pub open spec fn step_outcome(r: Result<(RE, usize, usize), ParseError>) -> Result<Step, ParseError> {
    match r {
        Ok((re, next, groups)) => Ok(Step { node: re@, next: next as nat, groups: groups as nat }),
        Err(e) => Err(e),
    }
}

/// A run of elements as the single sequence node that holds them.
pub open spec fn run_as_step(r: Result<Run, ParseError>) -> Result<Step, ParseError> {
    match r {
        Ok(run) => Ok(Step { node: Pattern::Sequence(run.elems), next: run.next, groups: run.groups }),
        Err(e) => Err(e),
    }
}

/// What [`parse`] returned, as the grammar states it.
pub open spec fn parse_outcome(r: Result<RE, ParseError>) -> Result<Pattern, ParseError> {
    match r {
        Ok(re) => Ok(re@),
        Err(e) => Err(e),
    }
}

/// The characters of a string, in order.
pub fn to_chars(s: &str) -> (out: Vec<char>)
    ensures
        out@ == s@,
{
    let mut out: Vec<char> = Vec::new();
    for c in it: s.chars()
        invariant
            it.seq() == s@,
            out@ == it.seq().take(it.index()),
    {
        out.push(c);
    }
    out
}

/// The character at offset `i`.
///
/// A character that comes out of this function is known to the verifier as a
/// valid `char`; one that is read by indexing in place is not.
pub fn char_at(chars: &Vec<char>, i: usize) -> (c: char)
    requires
        i < chars.len(),
    ensures
        c == chars@[i as int],
{
    chars[i]
}

/// Parses the escape whose backslash stands at `pos`.
fn parse_escape(chars: &Vec<char>, pos: usize, groups: usize) -> (r: Result<(RE, usize, usize), ParseError>)
    requires
        pos < chars.len(),
    ensures
        step_outcome(r) == spec_parse_escape(chars@, pos as nat, groups as nat),
        r matches Ok((_, next, opened)) ==> pos < next <= chars.len() && opened == groups,
{
    if pos + 1 >= chars.len() {
        return Err(ParseError::LackEscape(pos));
    }
    let c = char_at(chars, pos + 1);
    if c == 'd' {
        Ok((RE::Digit, pos + 2, groups))
    } else if c == 'w' {
        Ok((RE::Word, pos + 2, groups))
    } else if '1' <= c && c <= '9' {
        let digit: u32 = c as u32 - '0' as u32;
        Ok((RE::BackRef(digit as usize), pos + 2, groups))
    } else {
        Err(ParseError::InvalidEscape(pos + 1))
    }
}

/// Parses the character class whose `[` stands at `pos`.
fn parse_class(chars: &Vec<char>, pos: usize, groups: usize) -> (r: Result<(RE, usize, usize), ParseError>)
    requires
        pos < chars.len(),
    ensures
        step_outcome(r) == spec_parse_class(chars@, pos as nat, groups as nat),
        r matches Ok((_, next, opened)) ==> pos < next <= chars.len() && opened == groups,
{
    let mut cur: usize = pos + 1;
    let mut negated = false;
    if cur < chars.len() && chars[cur] == '^' {
        negated = true;
        cur = cur + 1;
    }
    let first: usize = cur;
    let mut members: Vec<char> = Vec::new();
    while cur < chars.len() && chars[cur] != ']'
        invariant
            first <= cur <= chars.len(),
            members@ == chars@.subrange(first as int, cur as int),
            class_close(chars@, first as nat) == class_close(chars@, cur as nat),
        decreases chars.len() - cur,
    {
        members.push(char_at(chars, cur));
        cur = cur + 1;
    }
    if cur >= chars.len() {
        return Err(ParseError::UnterminatedCharClass(pos));
    }
    let node = if negated {
        RE::NegClass(members)
    } else {
        RE::CharClass(members)
    };
    Ok((node, cur + 1, groups))
}

/// Parses the run of elements that starts at `pos` and stops at the end of
/// the pattern, at `)` or at `|`. `group_index` is the number of groups opened
/// before `pos`; the number opened up to the stop comes back with the
/// sequence node and the offset of the stop.
pub fn parse_seq(chars: &Vec<char>, pos: usize, group_index: usize) -> (r: Result<(RE, usize, usize), ParseError>)
    requires
        pos <= chars.len(),
        group_index + (chars.len() - pos) <= usize::MAX,
    ensures
        step_outcome(r) == run_as_step(spec_parse_seq(chars@, pos as nat, group_index as nat, Seq::empty())),
        r matches Ok((_, next, groups)) ==> pos <= next <= chars.len() && group_index <= groups
            && groups - group_index <= next - pos,
    decreases chars.len() - pos, 2nat,
{
    let mut seq: Vec<RE> = Vec::new();
    let mut cur: usize = pos;
    let mut groups: usize = group_index;
    proof {
        lemma_models_empty();
    }
    while cur < chars.len() && chars[cur] != ')' && chars[cur] != '|'
        invariant
            pos <= cur <= chars.len(),
            group_index <= groups,
            groups - group_index <= cur - pos,
            group_index + (chars.len() - pos) <= usize::MAX,
            spec_parse_seq(chars@, pos as nat, group_index as nat, Seq::empty()) == spec_parse_seq(
                chars@,
                cur as nat,
                groups as nat,
                models(seq@),
            ),
        decreases chars.len() - cur,
    {
        let c = char_at(chars, cur);
        if c == '*' || c == '+' || c == '?' {
            let ghost before = seq@;
            match seq.pop() {
                None => {
                    return Err(ParseError::DanglingQuantifier(c, cur));
                },
                Some(last) => {
                    let q = if c == '*' {
                        Quantifier::ZeroOrMore
                    } else if c == '+' {
                        Quantifier::OneOrMore
                    } else {
                        Quantifier::ZeroOrOne
                    };
                    let wrapped = RE::Repeat(Box::new(last), q);
                    proof {
                        lemma_models_push(seq@, wrapped);
                        assert(models(seq@) =~= models(before).drop_last());
                        assert(wrapped@ == Pattern::Repeat(Box::new(models(before).last()), quantifier_of(c)));
                    }
                    seq.push(wrapped);
                    cur = cur + 1;
                },
            }
        } else {
            match parse_atom(chars, cur, groups) {
                Err(e) => {
                    return Err(e);
                },
                Ok((node, next, opened)) => {
                    proof {
                        lemma_models_push(seq@, node);
                    }
                    seq.push(node);
                    cur = next;
                    groups = opened;
                },
            }
        }
    }
    Ok((RE::Sequence(seq), cur, groups))
}

/// Parses the anchor or atom that starts at `pos`.
fn parse_atom(chars: &Vec<char>, pos: usize, groups: usize) -> (r: Result<(RE, usize, usize), ParseError>)
    requires
        pos < chars.len(),
        groups + (chars.len() - pos) <= usize::MAX,
    ensures
        step_outcome(r) == spec_parse_atom(chars@, pos as nat, groups as nat),
        r matches Ok((_, next, opened)) ==> pos < next <= chars.len() && groups <= opened
            && opened - groups <= next - pos,
    decreases chars.len() - pos, 1nat,
{
    let c = char_at(chars, pos);
    if c == '^' {
        Ok((RE::AnchorStart, pos + 1, groups))
    } else if c == '$' {
        Ok((RE::AnchorEnd, pos + 1, groups))
    } else if c == '.' {
        Ok((RE::Dot, pos + 1, groups))
    } else if c == '\\' {
        parse_escape(chars, pos, groups)
    } else if c == '[' {
        parse_class(chars, pos, groups)
    } else if c == '(' {
        parse_group(chars, pos, groups)
    } else {
        Ok((RE::Literal(c), pos + 1, groups))
    }
}

/// Parses the group whose `(` stands at `open`: it takes the index behind
/// `group_index`, reads the alternatives up to the closing `)` and returns
/// the group node, the offset behind the `)` and the number of groups opened
/// up to there.
pub fn parse_group(chars: &Vec<char>, open: usize, group_index: usize) -> (r: Result<(RE, usize, usize), ParseError>)
    requires
        open < chars.len(),
        group_index + (chars.len() - open) <= usize::MAX,
    ensures
        step_outcome(r) == spec_parse_group(chars@, open as nat, group_index as nat),
        r matches Ok((_, next, groups)) ==> open < next <= chars.len() && group_index <= groups
            && groups - group_index <= next - open,
    decreases chars.len() - open, 0nat,
{
    let index: usize = group_index + 1;
    let mut groups: usize = index;
    let mut cur: usize = open + 1;
    let mut alts: Vec<RE> = Vec::new();
    proof {
        lemma_models_empty();
    }
    loop
        invariant
            open < cur <= chars.len(),
            index == group_index + 1,
            index <= groups,
            groups - group_index <= cur - open,
            group_index + (chars.len() - open) <= usize::MAX,
            spec_parse_group(chars@, open as nat, group_index as nat) == spec_parse_alts(
                chars@,
                cur as nat,
                groups as nat,
                open as nat,
                index as nat,
                models(alts@),
            ),
        decreases chars.len() - cur,
    {
        match parse_seq(chars, cur, groups) {
            Err(e) => {
                return Err(e);
            },
            Ok((seq, next, opened)) => {
                proof {
                    lemma_models_push(alts@, seq);
                }
                alts.push(seq);
                if next >= chars.len() {
                    return Err(ParseError::UnterminatedGroup(open));
                }
                if chars[next] == '|' {
                    cur = next + 1;
                    groups = opened;
                } else {
                    let ghost found = models(alts@);
                    let body = if alts.len() == 1 {
                        alts.remove(0)
                    } else {
                        RE::Alt(alts)
                    };
                    assert(body@ == group_body(found));
                    return Ok((RE::Group(index, Box::new(body)), next + 1, opened));
                }
            },
        }
    }
}

/// Compiles a pattern string.
///
/// The result is the sequence of the elements that stand before the end of
/// the pattern or before the first `)` or `|` outside every group; the first
/// fault found is returned with its character offset.
pub fn parse(raw_re: &str) -> (r: Result<RE, ParseError>)
    ensures
        parse_outcome(r) == spec_parse(raw_re@),
{
    let chars = to_chars(raw_re);
    match parse_seq(&chars, 0, 0) {
        Ok((re, _, _)) => Ok(re),
        Err(e) => Err(e),
    }
}

/// Parsing is a function of the pattern alone: whatever [`parse`] returns
/// for one pattern, at any time, denotes the same tree or is the same error.
pub proof fn lemma_parse_repeatable(pattern: Seq<char>, first: Result<RE, ParseError>, second: Result<RE, ParseError>)
    requires
        parse_outcome(first) == spec_parse(pattern),
        parse_outcome(second) == spec_parse(pattern),
    ensures
        parse_outcome(first) == parse_outcome(second),
        first is Ok <==> second is Ok,
        first is Ok ==> first->Ok_0@ == second->Ok_0@,
        first is Err ==> first->Err_0 == second->Err_0,
{
}

} // verus!
