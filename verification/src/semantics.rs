//! What it means for a pattern to match a text.
//!
//! The search is described by configurations: a configuration says how many
//! characters of the text are consumed and what the groups captured on the
//! way there. [`reaches`] says from which configuration a pattern can take
//! the search to which, and [`spec_matches`] says when a pattern matches a
//! text.
//!
//! Each configuration carries its own captures, so a capture made on one path
//! of the search is never seen on another. On one path a group may capture
//! several times (inside a repetition); a back reference then accepts any of
//! these captures. A group that consumed nothing captures nothing, but the
//! search goes on behind it.

use vstd::prelude::*;
use crate::parser::Quantifier;
use crate::syntax::Pattern;

verus! {

/// A piece of text captured by the group with index `group`.
pub struct Capture {
    pub group: nat,
    pub text: Seq<char>,
}

/// A point of the search: the first `pos` characters of the text are
/// consumed, and `caps` was captured on the way, oldest first.
pub struct Config {
    pub pos: nat,
    pub caps: Seq<Capture>,
}

impl Config {
    /// Where an attempt at offset `pos` starts: nothing is captured yet.
    pub open spec fn start(pos: nat) -> Config {
        Config { pos, caps: Seq::empty() }
    }

    /// This configuration after `n` more characters.
    pub open spec fn advance(self, n: nat) -> Config {
        Config { pos: self.pos + n, caps: self.caps }
    }

    /// This configuration after a group with index `group`, entered at
    /// offset `from`, is left: what was consumed since then is captured,
    /// unless it is empty.
    pub open spec fn record(self, text: Seq<char>, group: nat, from: nat) -> Config {
        if from < self.pos <= text.len() {
            Config {
                pos: self.pos,
                caps: self.caps.push(Capture { group, text: text.subrange(from as int, self.pos as int) }),
            }
        } else {
            self
        }
    }
}

pub open spec fn is_digit(c: char) -> bool {
    '0' <= c <= '9'
}

pub open spec fn is_word(c: char) -> bool {
    'a' <= c <= 'z' || 'A' <= c <= 'Z' || '0' <= c <= '9' || c == '_'
}

/// Whether `p` is a pattern that consumes exactly one character.
pub open spec fn is_single(p: Pattern) -> bool {
    p is Literal || p is Dot || p is Digit || p is Word || p is CharClass || p is NegClass
}

/// Whether the one-character pattern `p` takes the character `c`.
pub open spec fn takes(p: Pattern, c: char) -> bool {
    match p {
        Pattern::Literal(l) => c == l,
        Pattern::Dot => true,
        Pattern::Digit => is_digit(c),
        Pattern::Word => is_word(c),
        Pattern::CharClass(set) => set.contains(c),
        Pattern::NegClass(set) => !set.contains(c),
        _ => false,
    }
}

/// Whether `piece` stands in `text` at offset `pos`.
pub open spec fn stands_at(text: Seq<char>, pos: nat, piece: Seq<char>) -> bool {
    pos + piece.len() <= text.len() && text.subrange(pos as int, (pos + piece.len()) as int) == piece
}

/// Always true. It marks the configuration between two steps for the prover.
pub open spec fn between(u: Config) -> bool {
    true
}

/// Always true. It marks a number of occurrences for the prover.
pub open spec fn times(n: nat) -> bool {
    true
}

/// Whether the capture with number `k` of `s` belongs to the group `index`
/// and stands in the text at `s`.
pub open spec fn capture_fits(text: Seq<char>, index: nat, s: Config, k: int) -> bool {
    0 <= k < s.caps.len() && s.caps[k].group == index && stands_at(text, s.pos, s.caps[k].text)
}

/// Whether `p` can take the search from `s` to `t`.
pub open spec fn reaches(text: Seq<char>, p: Pattern, s: Config, t: Config) -> bool
    decreases p, 0nat,
{
    match p {
        Pattern::Sequence(elems) => reaches_seq(text, elems, elems.len(), s, t),
        Pattern::Alt(branches) => exists|k: int|
            0 <= k < branches.len() && reaches(text, #[trigger] branches[k], s, t),
        Pattern::Repeat(inner, q) => match q {
            Quantifier::ZeroOrOne => t == s || reaches(text, *inner, s, t),
            Quantifier::OneOrMore => exists|n: nat|
                #[trigger] times(n) && n >= 1 && reaches_times(text, *inner, n, s, t),
            Quantifier::ZeroOrMore => exists|n: nat| #[trigger] times(n) && reaches_times(text, *inner, n, s, t),
        },
        Pattern::Group(index, inner) => exists|u: Config|
            #[trigger] between(u) && reaches(text, *inner, s, u) && t == u.record(text, index, s.pos),
        Pattern::BackRef(index) => exists|k: int|
            #[trigger] capture_fits(text, index, s, k) && t == s.advance(s.caps[k].text.len()),
        Pattern::AnchorStart => s.pos == 0 && t == s,
        Pattern::AnchorEnd => s.pos == text.len() && t == s,
        _ => s.pos < text.len() && takes(p, text[s.pos as int]) && t == s.advance(1),
    }
}

/// Whether the first `n` of `elems`, one after the other, can take the
/// search from `s` to `t`.
pub open spec fn reaches_seq(text: Seq<char>, elems: Seq<Pattern>, n: nat, s: Config, t: Config) -> bool
    decreases elems, n,
{
    if n == 0 || n > elems.len() {
        t == s
    } else {
        exists|u: Config|
            #[trigger] between(u) && reaches_seq(text, elems, (n - 1) as nat, s, u) && reaches(
                text,
                elems[n - 1],
                u,
                t,
            )
    }
}

/// Whether `n` occurrences of `inner`, one after the other, can take the
/// search from `s` to `t`.
pub open spec fn reaches_times(text: Seq<char>, inner: Pattern, n: nat, s: Config, t: Config) -> bool
    decreases inner, n,
{
    if n == 0 {
        t == s
    } else {
        exists|u: Config|
            #[trigger] between(u) && reaches_times(text, inner, (n - 1) as nat, s, u) && reaches(
                text,
                inner,
                u,
                t,
            )
    }
}

/// Whether an attempt may start at offset `start`: at every character of the
/// text, and at offset 0 also where the text is empty.
pub open spec fn is_start(text: Seq<char>, start: nat) -> bool {
    start == 0 || start < text.len()
}

/// Whether `p` matches `text` in an attempt that starts at offset `start`:
/// from there, with nothing captured, it reaches some configuration.
pub open spec fn matches_at(text: Seq<char>, p: Pattern, start: nat) -> bool {
    exists|t: Config| #[trigger] reaches(text, p, Config::start(start), t)
}

/// Whether `p` matches somewhere in `text`.
pub open spec fn spec_matches(text: Seq<char>, p: Pattern) -> bool {
    exists|start: nat| is_start(text, start) && #[trigger] matches_at(text, p, start)
}

/// Whether a group occurs anywhere in `p`.
pub open spec fn has_group(p: Pattern) -> bool
    decreases p,
{
    match p {
        Pattern::Group(_, _) => true,
        Pattern::Repeat(inner, _) => has_group(*inner),
        Pattern::Alt(branches) => exists|k: int| 0 <= k < branches.len() && has_group(#[trigger] branches[k]),
        Pattern::Sequence(elems) => exists|k: int| 0 <= k < elems.len() && has_group(#[trigger] elems[k]),
        _ => false,
    }
}

/// The search only moves forward and stays within the text, a step that
/// consumed nothing changed nothing, and captures are only ever added behind
/// those that are there.
pub proof fn lemma_reaches_forward(text: Seq<char>, p: Pattern, s: Config, t: Config)
    requires
        reaches(text, p, s, t),
    ensures
        s.pos <= t.pos,
        s.pos < t.pos ==> t.pos <= text.len(),
        s.pos == t.pos ==> t == s,
        s.caps.is_prefix_of(t.caps),
    decreases p, 0nat,
{
    match p {
        Pattern::Sequence(elems) => {
            lemma_reaches_seq_forward(text, elems, elems.len(), s, t);
        },
        Pattern::Alt(branches) => {
            let k = choose|k: int| 0 <= k < branches.len() && reaches(text, #[trigger] branches[k], s, t);
            lemma_reaches_forward(text, branches[k], s, t);
        },
        Pattern::Repeat(inner, q) => {
            match q {
                Quantifier::ZeroOrOne => {
                    if t != s {
                        lemma_reaches_forward(text, *inner, s, t);
                    }
                },
                Quantifier::OneOrMore => {
                    let n = choose|n: nat| #[trigger] times(n) && n >= 1 && reaches_times(text, *inner, n, s, t);
                    lemma_reaches_times_forward(text, *inner, n, s, t);
                },
                Quantifier::ZeroOrMore => {
                    let n = choose|n: nat| #[trigger] times(n) && reaches_times(text, *inner, n, s, t);
                    lemma_reaches_times_forward(text, *inner, n, s, t);
                },
            }
        },
        Pattern::Group(index, inner) => {
            let u = choose|u: Config|
                #[trigger] between(u) && reaches(text, *inner, s, u) && t == u.record(text, index, s.pos);
            lemma_reaches_forward(text, *inner, s, u);
        },
        Pattern::BackRef(index) => {
            let k = choose|k: int|
                #[trigger] capture_fits(text, index, s, k) && t == s.advance(s.caps[k].text.len());
        },
        _ => {},
    }
}

/// [`lemma_reaches_forward`] for the elements of a sequence.
pub proof fn lemma_reaches_seq_forward(text: Seq<char>, elems: Seq<Pattern>, n: nat, s: Config, t: Config)
    requires
        reaches_seq(text, elems, n, s, t),
    ensures
        s.pos <= t.pos,
        s.pos < t.pos ==> t.pos <= text.len(),
        s.pos == t.pos ==> t == s,
        s.caps.is_prefix_of(t.caps),
    decreases elems, n,
{
    if n == 0 || n > elems.len() {
    } else {
        let u = choose|u: Config|
            #[trigger] between(u) && reaches_seq(text, elems, (n - 1) as nat, s, u) && reaches(
                text,
                elems[n - 1],
                u,
                t,
            );
        lemma_reaches_seq_forward(text, elems, (n - 1) as nat, s, u);
        lemma_reaches_forward(text, elems[n - 1], u, t);
    }
}

/// [`lemma_reaches_forward`] for the occurrences of a repeated pattern.
pub proof fn lemma_reaches_times_forward(text: Seq<char>, inner: Pattern, n: nat, s: Config, t: Config)
    requires
        reaches_times(text, inner, n, s, t),
    ensures
        s.pos <= t.pos,
        s.pos < t.pos ==> t.pos <= text.len(),
        s.pos == t.pos ==> t == s,
        s.caps.is_prefix_of(t.caps),
    decreases inner, n,
{
    if n == 0 {
    } else {
        let u = choose|u: Config|
            #[trigger] between(u) && reaches_times(text, inner, (n - 1) as nat, s, u) && reaches(text, inner, u, t);
        lemma_reaches_times_forward(text, inner, (n - 1) as nat, s, u);
        lemma_reaches_forward(text, inner, u, t);
    }
}

/// Only groups capture: a pattern in which no group occurs leaves the
/// captures of every configuration as they were. An attempt that starts with
/// nothing captured therefore ends with nothing captured.
pub proof fn lemma_captures_need_groups(text: Seq<char>, p: Pattern, s: Config, t: Config)
    requires
        !has_group(p),
        reaches(text, p, s, t),
    ensures
        t.caps == s.caps,
        s.caps.len() == 0 ==> t.caps.len() == 0,
    decreases p, 0nat,
{
    match p {
        Pattern::Sequence(elems) => {
            lemma_captures_need_groups_seq(text, elems, elems.len(), s, t);
        },
        Pattern::Alt(branches) => {
            let k = choose|k: int| 0 <= k < branches.len() && reaches(text, #[trigger] branches[k], s, t);
            assert(!has_group(branches[k]));
            lemma_captures_need_groups(text, branches[k], s, t);
        },
        Pattern::Repeat(inner, q) => {
            match q {
                Quantifier::ZeroOrOne => {
                    if t != s {
                        lemma_captures_need_groups(text, *inner, s, t);
                    }
                },
                Quantifier::OneOrMore => {
                    let n = choose|n: nat| #[trigger] times(n) && n >= 1 && reaches_times(text, *inner, n, s, t);
                    lemma_captures_need_groups_times(text, *inner, n, s, t);
                },
                Quantifier::ZeroOrMore => {
                    let n = choose|n: nat| #[trigger] times(n) && reaches_times(text, *inner, n, s, t);
                    lemma_captures_need_groups_times(text, *inner, n, s, t);
                },
            }
        },
        Pattern::BackRef(index) => {
            let k = choose|k: int|
                #[trigger] capture_fits(text, index, s, k) && t == s.advance(s.caps[k].text.len());
        },
        _ => {},
    }
}

/// [`lemma_captures_need_groups`] for the elements of a sequence.
pub proof fn lemma_captures_need_groups_seq(text: Seq<char>, elems: Seq<Pattern>, n: nat, s: Config, t: Config)
    requires
        forall|k: int| 0 <= k < elems.len() ==> !has_group(#[trigger] elems[k]),
        reaches_seq(text, elems, n, s, t),
    ensures
        t.caps == s.caps,
    decreases elems, n,
{
    if n == 0 || n > elems.len() {
    } else {
        let u = choose|u: Config|
            #[trigger] between(u) && reaches_seq(text, elems, (n - 1) as nat, s, u) && reaches(
                text,
                elems[n - 1],
                u,
                t,
            );
        lemma_captures_need_groups_seq(text, elems, (n - 1) as nat, s, u);
        lemma_captures_need_groups(text, elems[n - 1], u, t);
    }
}

/// [`lemma_captures_need_groups`] for the occurrences of a repeated pattern.
pub proof fn lemma_captures_need_groups_times(text: Seq<char>, inner: Pattern, n: nat, s: Config, t: Config)
    requires
        !has_group(inner),
        reaches_times(text, inner, n, s, t),
    ensures
        t.caps == s.caps,
    decreases inner, n,
{
    if n == 0 {
    } else {
        let u = choose|u: Config|
            #[trigger] between(u) && reaches_times(text, inner, (n - 1) as nat, s, u) && reaches(text, inner, u, t);
        lemma_captures_need_groups_times(text, inner, (n - 1) as nat, s, u);
        lemma_captures_need_groups(text, inner, u, t);
    }
}

} // verus!
