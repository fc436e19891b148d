//! The mathematical model of a compiled pattern and the grammar that maps a
//! pattern string to it.
//!
//! The grammar is a single left-to-right pass over the characters of the
//! pattern. Every function takes the offset at which it starts and the number
//! of groups opened so far, and hands both back, advanced, together with what
//! it recognised: the count of groups is a value that travels with the pass,
//! so nothing of one pattern is left over for the next. Offsets count
//! characters, not bytes.
//!
//! Groups are numbered from 1 in the order in which they open
//! ([`lemma_parse_numbers_groups`]). A back reference may name an index that
//! no group has; that is no fault of the pattern, it just never matches.
//! A parsed pattern, written back with [`render`], is the text that it was
//! read from ([`lemma_parse_renders`]).

use vstd::prelude::*;
use crate::parser::{ParseError, Quantifier};

verus! {

/// The model of a pattern tree: what an [`crate::parser::RE`] denotes.
pub enum Pattern {
    /// Exactly this character.
    Literal(char),
    /// Any single character.
    Dot,
    /// An ASCII digit.
    Digit,
    /// An ASCII letter, an ASCII digit or `_`.
    Word,
    /// Any one of the listed characters.
    CharClass(Seq<char>),
    /// Any one character that is not listed.
    NegClass(Seq<char>),
    /// The inner pattern, as often as the quantifier allows.
    Repeat(Box<Pattern>, Quantifier),
    /// One of the branches.
    Alt(Seq<Pattern>),
    /// The inner pattern; what it consumed is captured under the index.
    Group(nat, Box<Pattern>),
    /// Text captured earlier under the index.
    BackRef(nat),
    /// The very start of the text.
    AnchorStart,
    /// The very end of the text.
    AnchorEnd,
    /// The elements, one after the other.
    Sequence(Seq<Pattern>),
}

/// One recognised element: its node, the offset behind it and the number of
/// groups opened up to there.
pub struct Step {
    pub node: Pattern,
    pub next: nat,
    pub groups: nat,
}

/// A recognised run of elements: the nodes, the offset at which the run
/// stopped and the number of groups opened up to there.
pub struct Run {
    pub elems: Seq<Pattern>,
    pub next: nat,
    pub groups: nat,
}

pub open spec fn is_quantifier(c: char) -> bool {
    c == '*' || c == '+' || c == '?'
}

pub open spec fn quantifier_of(c: char) -> Quantifier {
    if c == '*' {
        Quantifier::ZeroOrMore
    } else if c == '+' {
        Quantifier::OneOrMore
    } else {
        Quantifier::ZeroOrOne
    }
}

/// A run of elements stops at the end of the pattern, at `)` and at `|`.
pub open spec fn ends_run(s: Seq<char>, pos: nat) -> bool {
    pos >= s.len() || s[pos as int] == ')' || s[pos as int] == '|'
}

/// The value of a decimal digit character.
pub open spec fn digit_value(c: char) -> nat {
    (c as u32 - '0' as u32) as nat
}

/// The escape whose backslash stands at `pos`.
pub open spec fn spec_parse_escape(s: Seq<char>, pos: nat, groups: nat) -> Result<Step, ParseError> {
    if pos + 1 >= s.len() {
        Err(ParseError::LackEscape(pos as usize))
    } else {
        let c = s[(pos + 1) as int];
        if c == 'd' {
            Ok(Step { node: Pattern::Digit, next: pos + 2, groups })
        } else if c == 'w' {
            Ok(Step { node: Pattern::Word, next: pos + 2, groups })
        } else if '1' <= c <= '9' {
            Ok(Step { node: Pattern::BackRef(digit_value(c)), next: pos + 2, groups })
        } else {
            Err(ParseError::InvalidEscape((pos + 1) as usize))
        }
    }
}

/// The offset of the first `]` at or behind `from`, if there is one.
pub open spec fn class_close(s: Seq<char>, from: nat) -> Option<nat>
    decreases s.len() - from,
{
    if from >= s.len() {
        None
    } else if s[from as int] == ']' {
        Some(from)
    } else {
        class_close(s, from + 1)
    }
}

/// The character class whose `[` stands at `pos`. A `^` directly behind the
/// bracket negates the class; everything from there to the first `]` is a
/// member, taken as it stands.
pub open spec fn spec_parse_class(s: Seq<char>, pos: nat, groups: nat) -> Result<Step, ParseError> {
    let negated = pos + 1 < s.len() && s[(pos + 1) as int] == '^';
    let first: nat = if negated { pos + 2 } else { pos + 1 };
    match class_close(s, first) {
        None => Err(ParseError::UnterminatedCharClass(pos as usize)),
        Some(close) => {
            let members = s.subrange(first as int, close as int);
            let node = if negated { Pattern::NegClass(members) } else { Pattern::CharClass(members) };
            Ok(Step { node, next: close + 1, groups })
        },
    }
}

/// What a group holds: a single alternative as it is, several as an
/// alternation.
pub open spec fn group_body(alts: Seq<Pattern>) -> Pattern {
    if alts.len() == 1 {
        alts[0]
    } else {
        Pattern::Alt(alts)
    }
}

/// The run of elements that starts at `pos`, behind the elements `acc` that
/// were already recognised. A quantifier wraps the element before it.
///
/// The test on `step.next` always holds (see [`lemma_parse_atom_advances`]);
/// it stands here so that the definition visibly terminates.
pub open spec fn spec_parse_seq(s: Seq<char>, pos: nat, groups: nat, acc: Seq<Pattern>) -> Result<Run, ParseError>
    decreases s.len() - pos, 2nat,
{
    if ends_run(s, pos) {
        Ok(Run { elems: acc, next: pos, groups })
    } else if is_quantifier(s[pos as int]) {
        if acc.len() == 0 {
            Err(ParseError::DanglingQuantifier(s[pos as int], pos as usize))
        } else {
            let wrapped = Pattern::Repeat(Box::new(acc.last()), quantifier_of(s[pos as int]));
            spec_parse_seq(s, pos + 1, groups, acc.drop_last().push(wrapped))
        }
    } else {
        match spec_parse_atom(s, pos, groups) {
            Err(e) => Err(e),
            Ok(step) => if pos < step.next <= s.len() {
                spec_parse_seq(s, step.next, step.groups, acc.push(step.node))
            } else {
                Ok(Run { elems: acc.push(step.node), next: step.next, groups: step.groups })
            },
        }
    }
}

/// The anchor or atom that starts at `pos`, where a character stands that
/// neither ends the run nor is a quantifier.
pub open spec fn spec_parse_atom(s: Seq<char>, pos: nat, groups: nat) -> Result<Step, ParseError>
    recommends
        pos < s.len(),
    decreases s.len() - pos, 1nat,
{
    let c = s[pos as int];
    if c == '^' {
        Ok(Step { node: Pattern::AnchorStart, next: pos + 1, groups })
    } else if c == '$' {
        Ok(Step { node: Pattern::AnchorEnd, next: pos + 1, groups })
    } else if c == '.' {
        Ok(Step { node: Pattern::Dot, next: pos + 1, groups })
    } else if c == '\\' {
        spec_parse_escape(s, pos, groups)
    } else if c == '[' {
        spec_parse_class(s, pos, groups)
    } else if c == '(' {
        spec_parse_group(s, pos, groups)
    } else {
        Ok(Step { node: Pattern::Literal(c), next: pos + 1, groups })
    }
}

/// The group whose `(` stands at `open`. It takes the next index before
/// anything inside it is read.
pub open spec fn spec_parse_group(s: Seq<char>, open: nat, groups: nat) -> Result<Step, ParseError>
    decreases s.len() - open, 0nat,
{
    if open >= s.len() {
        Err(ParseError::UnterminatedGroup(open as usize))
    } else {
        spec_parse_alts(s, open + 1, groups + 1, open, groups + 1, Seq::empty())
    }
}

/// The alternatives of the group opened at `open` under `index`, from `pos`
/// on, behind the alternatives `alts` that were already recognised.
///
/// A run never stops before its start (see [`lemma_parse_seq_advances`]);
/// the test on `run.next < pos` stands here so that the definition visibly
/// terminates.
pub open spec fn spec_parse_alts(
    s: Seq<char>,
    pos: nat,
    groups: nat,
    open: nat,
    index: nat,
    alts: Seq<Pattern>,
) -> Result<Step, ParseError>
    decreases s.len() - pos, 3nat,
{
    match spec_parse_seq(s, pos, groups, Seq::empty()) {
        Err(e) => Err(e),
        Ok(run) => {
            let found = alts.push(Pattern::Sequence(run.elems));
            if run.next >= s.len() || run.next < pos {
                Err(ParseError::UnterminatedGroup(open as usize))
            } else if s[run.next as int] == '|' {
                spec_parse_alts(s, run.next + 1, run.groups, open, index, found)
            } else {
                Ok(Step {
                    node: Pattern::Group(index, Box::new(group_body(found))),
                    next: run.next + 1,
                    groups: run.groups,
                })
            }
        },
    }
}

/// The pattern that a whole pattern string denotes: the run of elements from
/// its start, with no group opened before it.
pub open spec fn spec_parse(s: Seq<char>) -> Result<Pattern, ParseError> {
    match spec_parse_seq(s, 0, 0, Seq::empty()) {
        Err(e) => Err(e),
        Ok(run) => Ok(Pattern::Sequence(run.elems)),
    }
}

/// Where [`class_close`] finds a `]`, it is the first one from `from` on.
pub proof fn lemma_class_close(s: Seq<char>, from: nat)
    ensures
        class_close(s, from) matches Some(close) ==> from <= close < s.len() && s[close as int] == ']'
            && forall|j: int| from <= j < close ==> s[j] != ']',
        class_close(s, from) is None ==> forall|j: int| from <= j < s.len() ==> s[j] != ']',
    decreases s.len() - from,
{
    if from < s.len() && s[from as int] != ']' {
        lemma_class_close(s, from + 1);
    }
}

/// An anchor or atom ends behind its start and within the pattern, and the
/// count of groups does not fall.
pub proof fn lemma_parse_atom_advances(s: Seq<char>, pos: nat, groups: nat)
    requires
        pos < s.len(),
    ensures
        spec_parse_atom(s, pos, groups) matches Ok(step) ==> pos < step.next <= s.len() && groups
            <= step.groups,
    decreases s.len() - pos, 1nat,
{
    let c = s[pos as int];
    if c == '[' {
        let negated = pos + 1 < s.len() && s[(pos + 1) as int] == '^';
        let first: nat = if negated { pos + 2 } else { pos + 1 };
        lemma_class_close(s, first);
    } else if c == '(' {
        lemma_parse_group_advances(s, pos, groups);
    }
}

/// A run of elements stops at or behind its start, at the end of the
/// pattern, at `)` or at `|`, and the count of groups does not fall.
pub proof fn lemma_parse_seq_advances(s: Seq<char>, pos: nat, groups: nat, acc: Seq<Pattern>)
    requires
        pos <= s.len(),
    ensures
        spec_parse_seq(s, pos, groups, acc) matches Ok(run) ==> pos <= run.next <= s.len() && ends_run(
            s,
            run.next,
        ) && groups <= run.groups,
    decreases s.len() - pos, 2nat,
{
    if ends_run(s, pos) {
    } else if is_quantifier(s[pos as int]) {
        if acc.len() > 0 {
            let wrapped = Pattern::Repeat(Box::new(acc.last()), quantifier_of(s[pos as int]));
            lemma_parse_seq_advances(s, pos + 1, groups, acc.drop_last().push(wrapped));
        }
    } else {
        lemma_parse_atom_advances(s, pos, groups);
        match spec_parse_atom(s, pos, groups) {
            Ok(step) => {
                lemma_parse_seq_advances(s, step.next, step.groups, acc.push(step.node));
            },
            Err(_) => {},
        }
    }
}

/// A group ends behind its `(` and within the pattern, and counts itself.
pub proof fn lemma_parse_group_advances(s: Seq<char>, open: nat, groups: nat)
    requires
        open < s.len(),
    ensures
        spec_parse_group(s, open, groups) matches Ok(step) ==> open < step.next <= s.len() && groups
            < step.groups,
    decreases s.len() - open, 0nat,
{
    lemma_parse_alts_advances(s, open + 1, groups + 1, open, groups + 1, Seq::empty());
}

/// The alternatives of a group end behind their start and within the
/// pattern, and the count of groups does not fall.
pub proof fn lemma_parse_alts_advances(
    s: Seq<char>,
    pos: nat,
    groups: nat,
    open: nat,
    index: nat,
    alts: Seq<Pattern>,
)
    requires
        pos <= s.len(),
    ensures
        spec_parse_alts(s, pos, groups, open, index, alts) matches Ok(step) ==> pos < step.next <= s.len()
            && groups <= step.groups,
    decreases s.len() - pos, 3nat,
{
    lemma_parse_seq_advances(s, pos, groups, Seq::empty());
    match spec_parse_seq(s, pos, groups, Seq::empty()) {
        Ok(run) => {
            if run.next < s.len() && s[run.next as int] == '|' {
                let found = alts.push(Pattern::Sequence(run.elems));
                lemma_parse_alts_advances(s, run.next + 1, run.groups, open, index, found);
            }
        },
        Err(_) => {},
    }
}

/// The indices of the groups of `p`, in the order in which the groups open.
pub open spec fn group_indices(p: Pattern) -> Seq<nat>
    decreases p, 0nat,
{
    match p {
        Pattern::Group(index, inner) => seq![index] + group_indices(*inner),
        Pattern::Repeat(inner, _) => group_indices(*inner),
        Pattern::Alt(branches) => group_indices_of(branches, branches.len()),
        Pattern::Sequence(elems) => group_indices_of(elems, elems.len()),
        _ => Seq::empty(),
    }
}

/// The indices of the groups of the first `n` patterns of `list`.
pub open spec fn group_indices_of(list: Seq<Pattern>, n: nat) -> Seq<nat>
    decreases list, n,
{
    if n == 0 || n > list.len() {
        Seq::empty()
    } else {
        group_indices_of(list, (n - 1) as nat) + group_indices(list[n - 1])
    }
}

/// The numbers behind `from` up to `to`, in order.
pub open spec fn count_up(from: nat, to: nat) -> Seq<nat> {
    Seq::new((to - from) as nat, |i: int| (from + 1 + i) as nat)
}

/// The groups of the first `n` patterns do not depend on the patterns behind
/// them.
pub proof fn lemma_group_indices_of_prefix(a: Seq<Pattern>, b: Seq<Pattern>, n: nat)
    requires
        n <= a.len(),
        n <= b.len(),
        forall|i: int| 0 <= i < n ==> a[i] == b[i],
    ensures
        group_indices_of(a, n) == group_indices_of(b, n),
    decreases n,
{
    if n > 0 {
        lemma_group_indices_of_prefix(a, b, (n - 1) as nat);
    }
}

/// The groups of a list that grew by one pattern.
pub proof fn lemma_group_indices_of_push(list: Seq<Pattern>, p: Pattern)
    ensures
        group_indices_of(list.push(p), list.len() + 1) == group_indices_of(list, list.len()) + group_indices(
            p,
        ),
{
    lemma_group_indices_of_prefix(list.push(p), list, list.len());
}

/// An anchor or atom numbers its groups from the count at its start up to
/// the count at its end.
pub proof fn lemma_parse_atom_numbers(s: Seq<char>, pos: nat, groups: nat)
    requires
        pos < s.len(),
    ensures
        spec_parse_atom(s, pos, groups) matches Ok(step) ==> groups <= step.groups && group_indices(
            step.node,
        ) == count_up(groups, step.groups),
    decreases s.len() - pos, 1nat,
{
    let c = s[pos as int];
    if c == '(' {
        assert(group_indices_of(Seq::<Pattern>::empty(), 0) =~= count_up(groups + 1, groups + 1));
        lemma_parse_alts_numbers(s, pos + 1, groups + 1, pos, groups + 1, Seq::empty());
        match spec_parse_group(s, pos, groups) {
            Ok(step) => {
                assert(seq![groups + 1] + count_up(groups + 1, step.groups) =~= count_up(groups, step.groups));
            },
            Err(_) => {},
        }
    } else {
        match spec_parse_atom(s, pos, groups) {
            Ok(step) => {
                assert(group_indices(step.node) =~= count_up(groups, groups));
            },
            Err(_) => {},
        }
    }
}

/// A run of elements goes on numbering where the elements before it stopped.
pub proof fn lemma_parse_seq_numbers(s: Seq<char>, pos: nat, groups: nat, acc: Seq<Pattern>, first: nat)
    requires
        pos <= s.len(),
        first <= groups,
        group_indices_of(acc, acc.len()) == count_up(first, groups),
    ensures
        spec_parse_seq(s, pos, groups, acc) matches Ok(run) ==> groups <= run.groups && group_indices_of(
            run.elems,
            run.elems.len(),
        ) == count_up(first, run.groups),
    decreases s.len() - pos, 2nat,
{
    if ends_run(s, pos) {
    } else if is_quantifier(s[pos as int]) {
        if acc.len() > 0 {
            let wrapped = Pattern::Repeat(Box::new(acc.last()), quantifier_of(s[pos as int]));
            let rest = acc.drop_last();
            lemma_group_indices_of_prefix(acc, rest, rest.len());
            lemma_group_indices_of_push(rest, wrapped);
            assert(rest.push(wrapped).len() == acc.len());
            lemma_parse_seq_numbers(s, pos + 1, groups, rest.push(wrapped), first);
        }
    } else {
        lemma_parse_atom_numbers(s, pos, groups);
        match spec_parse_atom(s, pos, groups) {
            Ok(step) => {
                lemma_group_indices_of_push(acc, step.node);
                assert(count_up(first, groups) + count_up(groups, step.groups) =~= count_up(
                    first,
                    step.groups,
                ));
                if pos < step.next <= s.len() {
                    lemma_parse_seq_numbers(s, step.next, step.groups, acc.push(step.node), first);
                }
            },
            Err(_) => {},
        }
    }
}

/// The alternatives of a group go on numbering behind the index of the
/// group.
pub proof fn lemma_parse_alts_numbers(
    s: Seq<char>,
    pos: nat,
    groups: nat,
    open: nat,
    index: nat,
    alts: Seq<Pattern>,
)
    requires
        pos <= s.len(),
        index <= groups,
        group_indices_of(alts, alts.len()) == count_up(index, groups),
    ensures
        spec_parse_alts(s, pos, groups, open, index, alts) matches Ok(step) ==> groups <= step.groups
            && group_indices(step.node) == seq![index] + count_up(index, step.groups),
    decreases s.len() - pos, 3nat,
{
    assert(group_indices_of(Seq::<Pattern>::empty(), 0) =~= count_up(groups, groups));
    lemma_parse_seq_numbers(s, pos, groups, Seq::empty(), groups);
    match spec_parse_seq(s, pos, groups, Seq::empty()) {
        Ok(run) => {
            let last = Pattern::Sequence(run.elems);
            let found = alts.push(last);
            lemma_group_indices_of_push(alts, last);
            assert(group_indices(last) == group_indices_of(run.elems, run.elems.len()));
            assert(count_up(index, groups) + count_up(groups, run.groups) =~= count_up(index, run.groups));
            assert(group_indices_of(found, found.len()) == count_up(index, run.groups));
            if run.next >= s.len() || run.next < pos {
            } else if s[run.next as int] == '|' {
                lemma_parse_alts_numbers(s, run.next + 1, run.groups, open, index, found);
            } else {
                let body = group_body(found);
                if found.len() == 1 {
                    assert(group_indices_of(found, 0) =~= Seq::<nat>::empty());
                    assert(group_indices(found[0]) =~= group_indices_of(found, 1));
                } else {
                    assert(group_indices(Pattern::Alt(found)) == group_indices_of(found, found.len()));
                }
                assert(group_indices(body) == count_up(index, run.groups));
                assert(group_indices(Pattern::Group(index, Box::new(body))) == seq![index] + group_indices(
                    body,
                ));
            }
        },
        Err(_) => {},
    }
}

/// The groups of a parsed pattern are numbered 1, 2, 3 and so on in the
/// order in which they open: every index is positive, no index occurs twice,
/// and the indices rise from left to right.
pub proof fn lemma_parse_numbers_groups(s: Seq<char>)
    ensures
        spec_parse(s) matches Ok(p) ==> forall|i: int|
            0 <= i < group_indices(p).len() ==> #[trigger] group_indices(p)[i] == i + 1,
{
    assert(group_indices_of(Seq::<Pattern>::empty(), 0) =~= count_up(0, 0));
    lemma_parse_seq_numbers(s, 0, 0, Seq::empty(), 0);
}

/// The character that stands for a quantifier.
pub open spec fn quantifier_char(q: Quantifier) -> char {
    match q {
        Quantifier::ZeroOrMore => '*',
        Quantifier::OneOrMore => '+',
        Quantifier::ZeroOrOne => '?',
    }
}

/// The digit character for a number from 1 to 9.
pub open spec fn digit_char(d: nat) -> char {
    if d == 1 {
        '1'
    } else if d == 2 {
        '2'
    } else if d == 3 {
        '3'
    } else if d == 4 {
        '4'
    } else if d == 5 {
        '5'
    } else if d == 6 {
        '6'
    } else if d == 7 {
        '7'
    } else if d == 8 {
        '8'
    } else {
        '9'
    }
}

/// The pattern string that stands for `p`.
pub open spec fn render(p: Pattern) -> Seq<char>
    decreases p, 0nat,
{
    match p {
        Pattern::Literal(c) => seq![c],
        Pattern::Dot => seq!['.'],
        Pattern::Digit => seq!['\\', 'd'],
        Pattern::Word => seq!['\\', 'w'],
        Pattern::CharClass(set) => seq!['['] + set + seq![']'],
        Pattern::NegClass(set) => seq!['[', '^'] + set + seq![']'],
        Pattern::Repeat(inner, q) => render(*inner) + seq![quantifier_char(q)],
        Pattern::Alt(branches) => render_alts(branches, branches.len()),
        Pattern::Group(_, inner) => seq!['('] + render(*inner) + seq![')'],
        Pattern::BackRef(index) => seq!['\\', digit_char(index)],
        Pattern::AnchorStart => seq!['^'],
        Pattern::AnchorEnd => seq!['$'],
        Pattern::Sequence(elems) => render_seq(elems, elems.len()),
    }
}

/// The pattern strings of the first `n` patterns of `list`, one after the
/// other.
pub open spec fn render_seq(list: Seq<Pattern>, n: nat) -> Seq<char>
    decreases list, n,
{
    if n == 0 || n > list.len() {
        Seq::empty()
    } else {
        render_seq(list, (n - 1) as nat) + render(list[n - 1])
    }
}

/// The pattern strings of the first `n` patterns of `list`, with a `|`
/// between each two.
pub open spec fn render_alts(list: Seq<Pattern>, n: nat) -> Seq<char>
    decreases list, n,
{
    if n == 0 || n > list.len() {
        Seq::empty()
    } else if n == 1 {
        render(list[0])
    } else {
        render_alts(list, (n - 1) as nat) + seq!['|'] + render(list[n - 1])
    }
}

/// The pattern string of the first `n` patterns does not depend on the
/// patterns behind them.
pub proof fn lemma_render_prefix(a: Seq<Pattern>, b: Seq<Pattern>, n: nat)
    requires
        n <= a.len(),
        n <= b.len(),
        forall|i: int| 0 <= i < n ==> a[i] == b[i],
    ensures
        render_seq(a, n) == render_seq(b, n),
        render_alts(a, n) == render_alts(b, n),
    decreases n,
{
    if n > 0 {
        lemma_render_prefix(a, b, (n - 1) as nat);
    }
}

/// An anchor or atom, written back, is the piece of the pattern that it was
/// read from.
pub proof fn lemma_render_atom(s: Seq<char>, pos: nat, groups: nat)
    requires
        pos < s.len(),
    ensures
        spec_parse_atom(s, pos, groups) matches Ok(step) ==> pos < step.next <= s.len() && render(step.node)
            == s.subrange(pos as int, step.next as int),
    decreases s.len() - pos, 1nat,
{
    lemma_parse_atom_advances(s, pos, groups);
    let c = s[pos as int];
    match spec_parse_atom(s, pos, groups) {
        Ok(step) => {
            if c == '[' {
                let negated = pos + 1 < s.len() && s[(pos + 1) as int] == '^';
                let first: nat = if negated { pos + 2 } else { pos + 1 };
                lemma_class_close(s, first);
                assert(render(step.node) =~= s.subrange(pos as int, step.next as int));
            } else if c == '(' {
                assert(render_alts(Seq::<Pattern>::empty(), 0) + Seq::<char>::empty() =~= s.subrange(
                    pos + 1 as int,
                    pos + 1 as int,
                ));
                lemma_render_alts(s, pos + 1, groups + 1, pos, groups + 1, Seq::empty());
            } else {
                assert(render(step.node) =~= s.subrange(pos as int, step.next as int));
            }
        },
        Err(_) => {},
    }
}

/// A run of elements, written back, is what was written for the elements
/// before it and then the piece of the pattern that the run was read from.
pub proof fn lemma_render_seq(s: Seq<char>, pos: nat, groups: nat, acc: Seq<Pattern>)
    requires
        pos <= s.len(),
    ensures
        spec_parse_seq(s, pos, groups, acc) matches Ok(run) ==> pos <= run.next <= s.len() && render_seq(
            run.elems,
            run.elems.len(),
        ) == render_seq(acc, acc.len()) + s.subrange(pos as int, run.next as int),
    decreases s.len() - pos, 2nat,
{
    lemma_parse_seq_advances(s, pos, groups, acc);
    let before = render_seq(acc, acc.len());
    match spec_parse_seq(s, pos, groups, acc) {
        Ok(run) => {
            if ends_run(s, pos) {
                assert(before =~= before + s.subrange(pos as int, pos as int));
            } else if is_quantifier(s[pos as int]) {
                let wrapped = Pattern::Repeat(Box::new(acc.last()), quantifier_of(s[pos as int]));
                let rest = acc.drop_last();
                let grown = rest.push(wrapped);
                lemma_render_prefix(acc, rest, rest.len());
                lemma_render_prefix(grown, rest, rest.len());
                assert(render(wrapped) == render(acc.last()) + seq![s[pos as int]]);
                assert(before == render_seq(acc, rest.len()) + render(acc.last()));
                assert(render_seq(grown, grown.len()) == render_seq(grown, rest.len()) + render(wrapped));
                assert(render_seq(grown, grown.len()) =~= before + seq![s[pos as int]]);
                lemma_render_seq(s, pos + 1, groups, grown);
                assert(before + seq![s[pos as int]] + s.subrange(pos + 1 as int, run.next as int) =~= before
                    + s.subrange(pos as int, run.next as int));
            } else {
                lemma_render_atom(s, pos, groups);
                let step = spec_parse_atom(s, pos, groups)->Ok_0;
                let grown = acc.push(step.node);
                lemma_render_prefix(grown, acc, acc.len());
                assert(render_seq(grown, grown.len()) == before + s.subrange(pos as int, step.next as int));
                lemma_render_seq(s, step.next, step.groups, grown);
                assert(before + s.subrange(pos as int, step.next as int) + s.subrange(
                    step.next as int,
                    run.next as int,
                ) =~= before + s.subrange(pos as int, run.next as int));
            }
        },
        Err(_) => {},
    }
}

/// What stands in the pattern between the `(` of a group and `pos` when the
/// alternatives `alts` are read: the alternatives, each with a `|` behind it.
pub open spec fn alts_read(alts: Seq<Pattern>) -> Seq<char> {
    if alts.len() == 0 {
        Seq::empty()
    } else {
        render_alts(alts, alts.len()) + seq!['|']
    }
}

/// A group, written back, is the piece of the pattern that it was read from.
pub proof fn lemma_render_alts(
    s: Seq<char>,
    pos: nat,
    groups: nat,
    open: nat,
    index: nat,
    alts: Seq<Pattern>,
)
    requires
        open < pos <= s.len(),
        s[open as int] == '(',
        alts_read(alts) == s.subrange(open + 1 as int, pos as int),
    ensures
        spec_parse_alts(s, pos, groups, open, index, alts) matches Ok(step) ==> pos < step.next <= s.len()
            && render(step.node) == s.subrange(open as int, step.next as int),
    decreases s.len() - pos, 3nat,
{
    lemma_parse_alts_advances(s, pos, groups, open, index, alts);
    lemma_parse_seq_advances(s, pos, groups, Seq::empty());
    lemma_render_seq(s, pos, groups, Seq::empty());
    match spec_parse_seq(s, pos, groups, Seq::empty()) {
        Ok(run) => {
            let last = Pattern::Sequence(run.elems);
            let found = alts.push(last);
            let inside = s.subrange(open + 1 as int, run.next as int);
            lemma_render_prefix(found, alts, alts.len());
            assert(render(last) =~= s.subrange(pos as int, run.next as int));
            assert(render_alts(found, found.len()) =~= inside);
            if run.next >= s.len() || run.next < pos {
            } else if s[run.next as int] == '|' {
                assert(alts_read(found) =~= s.subrange(open + 1 as int, run.next + 1 as int));
                lemma_render_alts(s, run.next + 1, run.groups, open, index, found);
            } else {
                let body = group_body(found);
                assert(render(body) == inside);
                assert(seq!['('] + inside + seq![')'] =~= s.subrange(open as int, run.next + 1 as int));
            }
        },
        Err(_) => {},
    }
}

/// Where the run of elements at the top of the pattern `s` stops: at the end
/// of `s`, or at the first `)` or `|` that stands outside every group.
pub open spec fn parsed_length(s: Seq<char>) -> nat {
    match spec_parse_seq(s, 0, 0, Seq::empty()) {
        Ok(run) => run.next,
        Err(_) => 0,
    }
}

/// A parsed pattern, written back, is the pattern string that it was read
/// from, up to the place where the reading stopped.
pub proof fn lemma_parse_renders(s: Seq<char>)
    ensures
        spec_parse(s) matches Ok(p) ==> parsed_length(s) <= s.len() && ends_run(s, parsed_length(s))
            && render(p) == s.subrange(0, parsed_length(s) as int),
{
    lemma_parse_seq_advances(s, 0, 0, Seq::empty());
    lemma_render_seq(s, 0, 0, Seq::empty());
    match spec_parse_seq(s, 0, 0, Seq::empty()) {
        Ok(run) => {
            assert(Seq::<char>::empty() + s.subrange(0, run.next as int) =~= s.subrange(0, run.next as int));
        },
        Err(_) => {},
    }
}

} // verus!
