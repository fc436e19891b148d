//! The order in which the search finds what a pattern reaches.
//!
//! [`eval`] lists, for a pattern and a configuration, the configurations that
//! the matcher finds from there, one entry for each way of getting there, in
//! the order in which it finds them. The list holds exactly what
//! [`crate::semantics::reaches`] relates to the configuration
//! ([`lemma_eval_sound`], [`lemma_eval_complete`]).

use vstd::prelude::*;
use crate::parser::Quantifier;
use crate::semantics::{
    between, capture_fits, has_group, lemma_captures_need_groups, lemma_reaches_forward, matches_at, reaches,
    reaches_seq, reaches_times, stands_at, takes, times, Capture, Config,
};
use crate::syntax::Pattern;

verus! {

/// The configurations behind a one-character pattern.
pub open spec fn eval_single(text: Seq<char>, p: Pattern, s: Config) -> Seq<Config> {
    if s.pos < text.len() && takes(p, text[s.pos as int]) {
        seq![s.advance(1)]
    } else {
        Seq::empty()
    }
}

/// The configurations behind a back reference to `index`: one for each of
/// the captures `caps` under that index that stands in the text at `s`.
pub open spec fn eval_backref(text: Seq<char>, index: nat, s: Config, caps: Seq<Capture>) -> Seq<Config>
    decreases caps.len(),
{
    if caps.len() == 0 {
        Seq::empty()
    } else {
        let earlier = eval_backref(text, index, s, caps.drop_last());
        let c = caps.last();
        if c.group == index && stands_at(text, s.pos, c.text) {
            earlier.push(s.advance(c.text.len()))
        } else {
            earlier
        }
    }
}

/// Every configuration of `reached` after the group `group`, entered at
/// `from`, is left.
pub open spec fn record_all(text: Seq<char>, group: nat, from: nat, reached: Seq<Config>) -> Seq<Config> {
    Seq::new(reached.len(), |i: int| reached[i].record(text, group, from))
}

/// Whether going from `s` to `u` consumed text.
pub open spec fn makes_progress(text: Seq<char>, s: Config, u: Config) -> bool {
    s.pos < u.pos <= text.len()
}

/// How much of the text is left at `s`.
pub open spec fn remaining(text: Seq<char>, s: Config) -> nat {
    if s.pos <= text.len() {
        (text.len() - s.pos) as nat
    } else {
        0
    }
}

/// The configurations that `p` reaches from `s`.
pub open spec fn eval(text: Seq<char>, p: Pattern, s: Config) -> Seq<Config>
    decreases p, 0nat, 0nat, 0nat,
{
    match p {
        Pattern::Sequence(elems) => eval_seq(text, elems, elems.len(), s),
        Pattern::Alt(branches) => eval_alt(text, branches, branches.len(), s),
        Pattern::Repeat(inner, q) => match q {
            Quantifier::ZeroOrOne => seq![s] + eval(text, *inner, s),
            Quantifier::OneOrMore => eval_repeat(text, *inner, s),
            Quantifier::ZeroOrMore => seq![s] + eval_repeat(text, *inner, s),
        },
        Pattern::Group(index, inner) => record_all(text, index, s.pos, eval(text, *inner, s)),
        Pattern::BackRef(index) => eval_backref(text, index, s, s.caps),
        Pattern::AnchorStart => if s.pos == 0 {
            seq![s]
        } else {
            Seq::empty()
        },
        Pattern::AnchorEnd => if s.pos == text.len() {
            seq![s]
        } else {
            Seq::empty()
        },
        _ => eval_single(text, p, s),
    }
}

/// The configurations that `p` reaches from any of `from`.
pub open spec fn eval_all(text: Seq<char>, p: Pattern, from: Seq<Config>) -> Seq<Config>
    decreases p, 1nat, from.len(), 0nat,
{
    if from.len() == 0 {
        Seq::empty()
    } else {
        eval_all(text, p, from.drop_last()) + eval(text, p, from.last())
    }
}

/// The configurations behind the first `n` of `elems`, one after the other.
pub open spec fn eval_seq(text: Seq<char>, elems: Seq<Pattern>, n: nat, s: Config) -> Seq<Config>
    decreases elems, n, 0nat, 0nat,
{
    if n == 0 || n > elems.len() {
        seq![s]
    } else {
        eval_all(text, elems[n - 1], eval_seq(text, elems, (n - 1) as nat, s))
    }
}

/// The configurations that any of the first `n` of `branches` reaches.
pub open spec fn eval_alt(text: Seq<char>, branches: Seq<Pattern>, n: nat, s: Config) -> Seq<Config>
    decreases branches, n, 0nat, 0nat,
{
    if n == 0 || n > branches.len() {
        Seq::empty()
    } else {
        eval_alt(text, branches, (n - 1) as nat, s) + eval(text, branches[n - 1], s)
    }
}

/// The configurations that one or more occurrences of `inner` reach. An
/// occurrence that consumed nothing is not repeated: it would reach only
/// what is reached already.
pub open spec fn eval_repeat(text: Seq<char>, inner: Pattern, s: Config) -> Seq<Config>
    decreases inner, 2 + remaining(text, s), 1nat, 0nat,
{
    let once = eval(text, inner, s);
    once + eval_repeat_from(text, inner, s, once)
}

/// The configurations that one or more occurrences of `inner` reach from
/// those of `reached` that lie behind `s`.
pub open spec fn eval_repeat_from(text: Seq<char>, inner: Pattern, s: Config, reached: Seq<Config>) -> Seq<Config>
    decreases inner, 2 + remaining(text, s), 0nat, reached.len(),
{
    if reached.len() == 0 {
        Seq::empty()
    } else {
        let earlier = eval_repeat_from(text, inner, s, reached.drop_last());
        if makes_progress(text, s, reached.last()) {
            earlier + eval_repeat(text, inner, reached.last())
        } else {
            earlier
        }
    }
}

/// Evaluating from a list that grew by one configuration.
pub proof fn lemma_eval_all_push(text: Seq<char>, p: Pattern, from: Seq<Config>, s: Config)
    ensures
        eval_all(text, p, from.push(s)) == eval_all(text, p, from) + eval(text, p, s),
{
    assert(from.push(s).drop_last() =~= from);
}

/// A back reference over a list of captures that grew by one.
pub proof fn lemma_eval_backref_push(text: Seq<char>, index: nat, s: Config, caps: Seq<Capture>, c: Capture)
    ensures
        eval_backref(text, index, s, caps.push(c)) == if c.group == index && stands_at(text, s.pos, c.text) {
            eval_backref(text, index, s, caps).push(s.advance(c.text.len()))
        } else {
            eval_backref(text, index, s, caps)
        },
{
    assert(caps.push(c).drop_last() =~= caps);
}

/// Repeating from a list that grew by one configuration.
pub proof fn lemma_eval_repeat_from_push(
    text: Seq<char>,
    inner: Pattern,
    s: Config,
    reached: Seq<Config>,
    u: Config,
)
    ensures
        eval_repeat_from(text, inner, s, reached.push(u)) == if makes_progress(text, s, u) {
            eval_repeat_from(text, inner, s, reached) + eval_repeat(text, inner, u)
        } else {
            eval_repeat_from(text, inner, s, reached)
        },
{
    assert(reached.push(u).drop_last() =~= reached);
}

/// Nothing lies behind a sequence of which some element reached nothing.
pub proof fn lemma_eval_seq_stays_empty(text: Seq<char>, elems: Seq<Pattern>, n: nat, m: nat, s: Config)
    requires
        n <= m <= elems.len(),
        eval_seq(text, elems, n, s).len() == 0,
    ensures
        eval_seq(text, elems, m, s) == Seq::<Config>::empty(),
    decreases m,
{
    if n < m {
        lemma_eval_seq_stays_empty(text, elems, n, (m - 1) as nat, s);
        assert(eval_all(text, elems[m - 1], Seq::<Config>::empty()).len() == 0);
    }
    assert(eval_seq(text, elems, m, s) =~= Seq::<Config>::empty());
}

/// One occurrence and then `m` more are `m + 1` occurrences.
pub proof fn lemma_times_prepend(text: Seq<char>, inner: Pattern, m: nat, s: Config, u: Config, t: Config)
    requires
        reaches(text, inner, s, u),
        reaches_times(text, inner, m, u, t),
    ensures
        reaches_times(text, inner, m + 1, s, t),
    decreases m,
{
    if m == 0 {
        assert(reaches_times(text, inner, 0, s, s));
        assert(between(s));
    } else {
        let v = choose|v: Config|
            #[trigger] between(v) && reaches_times(text, inner, (m - 1) as nat, u, v) && reaches(text, inner, v, t);
        lemma_times_prepend(text, inner, (m - 1) as nat, s, u, v);
        assert(reaches_times(text, inner, m, s, v));
    }
}

/// One or more occurrences start with one occurrence: the result is where
/// the first one ends.
pub proof fn lemma_times_split_first(text: Seq<char>, inner: Pattern, n: nat, s: Config, t: Config) -> (u: Config)
    requires
        n >= 1,
        reaches_times(text, inner, n, s, t),
    ensures
        reaches(text, inner, s, u),
        reaches_times(text, inner, (n - 1) as nat, u, t),
    decreases n,
{
    let v = choose|v: Config|
        #[trigger] between(v) && reaches_times(text, inner, (n - 1) as nat, s, v) && reaches(text, inner, v, t);
    if n == 1 {
        assert(reaches_times(text, inner, 0, t, t));
        t
    } else {
        let u = lemma_times_split_first(text, inner, (n - 1) as nat, s, v);
        assert(reaches_times(text, inner, (n - 2) as nat, u, v));
        assert(between(v));
        u
    }
}

/// What a back reference lists comes from a capture that fits.
pub proof fn lemma_eval_backref_sound(
    text: Seq<char>,
    index: nat,
    s: Config,
    caps: Seq<Capture>,
    i: int,
) -> (k: int)
    requires
        0 <= i < eval_backref(text, index, s, caps).len(),
    ensures
        0 <= k < caps.len(),
        caps[k].group == index,
        stands_at(text, s.pos, caps[k].text),
        eval_backref(text, index, s, caps)[i] == s.advance(caps[k].text.len()),
    decreases caps.len(),
{
    let earlier = eval_backref(text, index, s, caps.drop_last());
    if i < earlier.len() {
        lemma_eval_backref_sound(text, index, s, caps.drop_last(), i)
    } else {
        caps.len() - 1
    }
}

/// A capture that fits is listed by the back reference.
pub proof fn lemma_eval_backref_complete(
    text: Seq<char>,
    index: nat,
    s: Config,
    caps: Seq<Capture>,
    k: int,
) -> (i: int)
    requires
        0 <= k < caps.len(),
        caps[k].group == index,
        stands_at(text, s.pos, caps[k].text),
    ensures
        0 <= i < eval_backref(text, index, s, caps).len(),
        eval_backref(text, index, s, caps)[i] == s.advance(caps[k].text.len()),
    decreases caps.len(),
{
    let earlier = eval_backref(text, index, s, caps.drop_last());
    if k == caps.len() - 1 {
        earlier.len() as int
    } else {
        lemma_eval_backref_complete(text, index, s, caps.drop_last(), k)
    }
}

/// What one of the first `n` branches lists is listed for the alternation.
pub proof fn lemma_eval_alt_contains(
    text: Seq<char>,
    branches: Seq<Pattern>,
    n: nat,
    s: Config,
    k: int,
    i: int,
) -> (r: int)
    requires
        0 <= k < n <= branches.len(),
        0 <= i < eval(text, branches[k], s).len(),
    ensures
        0 <= r < eval_alt(text, branches, n, s).len(),
        eval_alt(text, branches, n, s)[r] == eval(text, branches[k], s)[i],
    decreases n,
{
    let earlier = eval_alt(text, branches, (n - 1) as nat, s);
    if k == n - 1 {
        earlier.len() + i
    } else {
        lemma_eval_alt_contains(text, branches, (n - 1) as nat, s, k, i)
    }
}

/// What is listed for one of the first `n` branches is listed for it alone.
pub proof fn lemma_eval_alt_origin(text: Seq<char>, branches: Seq<Pattern>, n: nat, s: Config, i: int) -> (r: (
    int,
    int,
))
    requires
        n <= branches.len(),
        0 <= i < eval_alt(text, branches, n, s).len(),
    ensures
        0 <= r.0 < n,
        0 <= r.1 < eval(text, branches[r.0], s).len(),
        eval_alt(text, branches, n, s)[i] == eval(text, branches[r.0], s)[r.1],
    decreases n,
{
    let earlier = eval_alt(text, branches, (n - 1) as nat, s);
    if i < earlier.len() {
        lemma_eval_alt_origin(text, branches, (n - 1) as nat, s, i)
    } else {
        (n - 1, i - earlier.len())
    }
}

/// What repeating lists from a configuration of `reached` that lies behind
/// `s` is listed for the whole of `reached`.
pub proof fn lemma_eval_repeat_from_contains(
    text: Seq<char>,
    inner: Pattern,
    s: Config,
    reached: Seq<Config>,
    j: int,
    i: int,
) -> (r: int)
    requires
        0 <= j < reached.len(),
        makes_progress(text, s, reached[j]),
        0 <= i < eval_repeat(text, inner, reached[j]).len(),
    ensures
        0 <= r < eval_repeat_from(text, inner, s, reached).len(),
        eval_repeat_from(text, inner, s, reached)[r] == eval_repeat(text, inner, reached[j])[i],
    decreases reached.len(),
{
    let earlier = eval_repeat_from(text, inner, s, reached.drop_last());
    if j == reached.len() - 1 {
        earlier.len() + i
    } else {
        lemma_eval_repeat_from_contains(text, inner, s, reached.drop_last(), j, i)
    }
}

/// What is listed for `reached` is listed for one of its configurations
/// that lies behind `s`.
pub proof fn lemma_eval_repeat_from_origin(
    text: Seq<char>,
    inner: Pattern,
    s: Config,
    reached: Seq<Config>,
    i: int,
) -> (r: (int, int))
    requires
        0 <= i < eval_repeat_from(text, inner, s, reached).len(),
    ensures
        0 <= r.0 < reached.len(),
        makes_progress(text, s, reached[r.0]),
        0 <= r.1 < eval_repeat(text, inner, reached[r.0]).len(),
        eval_repeat_from(text, inner, s, reached)[i] == eval_repeat(text, inner, reached[r.0])[r.1],
    decreases reached.len(),
{
    let earlier = eval_repeat_from(text, inner, s, reached.drop_last());
    if i < earlier.len() {
        lemma_eval_repeat_from_origin(text, inner, s, reached.drop_last(), i)
    } else {
        (reached.len() - 1, i - earlier.len())
    }
}

/// What is listed from a list of configurations is listed from one of them.
pub proof fn lemma_eval_all_origin(text: Seq<char>, p: Pattern, from: Seq<Config>, i: int) -> (r: (int, int))
    requires
        0 <= i < eval_all(text, p, from).len(),
    ensures
        0 <= r.0 < from.len(),
        0 <= r.1 < eval(text, p, from[r.0]).len(),
        eval_all(text, p, from)[i] == eval(text, p, from[r.0])[r.1],
    decreases from.len(),
{
    let earlier = eval_all(text, p, from.drop_last());
    if i < earlier.len() {
        lemma_eval_all_origin(text, p, from.drop_last(), i)
    } else {
        (from.len() - 1, i - earlier.len())
    }
}

/// What is listed from one configuration of a list is listed from the list.
pub proof fn lemma_eval_all_contains(text: Seq<char>, p: Pattern, from: Seq<Config>, j: int, i: int) -> (r: int)
    requires
        0 <= j < from.len(),
        0 <= i < eval(text, p, from[j]).len(),
    ensures
        0 <= r < eval_all(text, p, from).len(),
        eval_all(text, p, from)[r] == eval(text, p, from[j])[i],
    decreases from.len(),
{
    let earlier = eval_all(text, p, from.drop_last());
    if j == from.len() - 1 {
        earlier.len() + i
    } else {
        lemma_eval_all_contains(text, p, from.drop_last(), j, i)
    }
}

/// Everything that [`eval`] lists is reached.
pub proof fn lemma_eval_sound(text: Seq<char>, p: Pattern, s: Config, i: int)
    requires
        0 <= i < eval(text, p, s).len(),
    ensures
        reaches(text, p, s, eval(text, p, s)[i]),
    decreases p, 0nat, 0nat,
{
    let t = eval(text, p, s)[i];
    match p {
        Pattern::Sequence(elems) => {
            lemma_eval_seq_sound(text, elems, elems.len(), s, i);
        },
        Pattern::Alt(branches) => {
            let r = lemma_eval_alt_origin(text, branches, branches.len(), s, i);
            lemma_eval_sound(text, branches[r.0], s, r.1);
        },
        Pattern::Repeat(inner, q) => {
            match q {
                Quantifier::ZeroOrOne => {
                    if i > 0 {
                        lemma_eval_sound(text, *inner, s, i - 1);
                    }
                },
                Quantifier::OneOrMore => {
                    let n = lemma_eval_repeat_sound(text, *inner, s, i);
                    assert(times(n));
                },
                Quantifier::ZeroOrMore => {
                    if i > 0 {
                        let n = lemma_eval_repeat_sound(text, *inner, s, i - 1);
                        assert(times(n));
                    } else {
                        assert(reaches_times(text, *inner, 0, s, t));
                        assert(times(0));
                    }
                },
            }
        },
        Pattern::Group(index, inner) => {
            lemma_eval_sound(text, *inner, s, i);
            let u = eval(text, *inner, s)[i];
            assert(between(u));
            assert(t == u.record(text, index, s.pos));
        },
        Pattern::BackRef(index) => {
            let k = lemma_eval_backref_sound(text, index, s, s.caps, i);
            assert(capture_fits(text, index, s, k));
        },
        _ => {},
    }
}

/// [`lemma_eval_sound`] for the elements of a sequence.
pub proof fn lemma_eval_seq_sound(text: Seq<char>, elems: Seq<Pattern>, n: nat, s: Config, i: int)
    requires
        0 <= i < eval_seq(text, elems, n, s).len(),
    ensures
        reaches_seq(text, elems, n, s, eval_seq(text, elems, n, s)[i]),
    decreases elems, n, 0nat,
{
    if n == 0 || n > elems.len() {
    } else {
        let before = eval_seq(text, elems, (n - 1) as nat, s);
        let r = lemma_eval_all_origin(text, elems[n - 1], before, i);
        lemma_eval_seq_sound(text, elems, (n - 1) as nat, s, r.0);
        lemma_eval_sound(text, elems[n - 1], before[r.0], r.1);
        assert(between(before[r.0]));
    }
}

/// [`lemma_eval_sound`] for a repeated pattern: the result is a number of
/// occurrences that reaches what is listed.
pub proof fn lemma_eval_repeat_sound(text: Seq<char>, inner: Pattern, s: Config, i: int) -> (n: nat)
    requires
        0 <= i < eval_repeat(text, inner, s).len(),
    ensures
        n >= 1,
        reaches_times(text, inner, n, s, eval_repeat(text, inner, s)[i]),
    decreases inner, 2 + remaining(text, s), 0nat,
{
    let once = eval(text, inner, s);
    let t = eval_repeat(text, inner, s)[i];
    if i < once.len() {
        lemma_eval_sound(text, inner, s, i);
        assert(reaches_times(text, inner, 0, s, s));
        assert(between(s));
        1
    } else {
        let r = lemma_eval_repeat_from_origin(text, inner, s, once, i - once.len());
        let u = once[r.0];
        lemma_eval_sound(text, inner, s, r.0);
        let m = lemma_eval_repeat_sound(text, inner, u, r.1);
        lemma_times_prepend(text, inner, m, s, u, t);
        m + 1
    }
}

/// Everything that is reached is listed by [`eval`]: the result is a place
/// in the list at which it stands.
pub proof fn lemma_eval_complete(text: Seq<char>, p: Pattern, s: Config, t: Config) -> (i: int)
    requires
        reaches(text, p, s, t),
    ensures
        0 <= i < eval(text, p, s).len(),
        eval(text, p, s)[i] == t,
    decreases p, 0nat, 0nat,
{
    match p {
        Pattern::Sequence(elems) => lemma_eval_seq_complete(text, elems, elems.len(), s, t),
        Pattern::Alt(branches) => {
            let k = choose|k: int| 0 <= k < branches.len() && reaches(text, #[trigger] branches[k], s, t);
            let j = lemma_eval_complete(text, branches[k], s, t);
            lemma_eval_alt_contains(text, branches, branches.len(), s, k, j)
        },
        Pattern::Repeat(inner, q) => {
            match q {
                Quantifier::ZeroOrOne => {
                    if t == s {
                        0
                    } else {
                        1 + lemma_eval_complete(text, *inner, s, t)
                    }
                },
                Quantifier::OneOrMore => {
                    let n = choose|n: nat| #[trigger] times(n) && n >= 1 && reaches_times(text, *inner, n, s, t);
                    lemma_eval_repeat_complete(text, *inner, n, s, t)
                },
                Quantifier::ZeroOrMore => {
                    let n = choose|n: nat| #[trigger] times(n) && reaches_times(text, *inner, n, s, t);
                    if n == 0 {
                        0
                    } else {
                        1 + lemma_eval_repeat_complete(text, *inner, n, s, t)
                    }
                },
            }
        },
        Pattern::Group(index, inner) => {
            let u = choose|u: Config|
                #[trigger] between(u) && reaches(text, *inner, s, u) && t == u.record(text, index, s.pos);
            lemma_eval_complete(text, *inner, s, u)
        },
        Pattern::BackRef(index) => {
            let k = choose|k: int|
                #[trigger] capture_fits(text, index, s, k) && t == s.advance(s.caps[k].text.len());
            lemma_eval_backref_complete(text, index, s, s.caps, k)
        },
        _ => 0,
    }
}

/// [`lemma_eval_complete`] for the elements of a sequence.
pub proof fn lemma_eval_seq_complete(text: Seq<char>, elems: Seq<Pattern>, n: nat, s: Config, t: Config) -> (i: int)
    requires
        reaches_seq(text, elems, n, s, t),
    ensures
        0 <= i < eval_seq(text, elems, n, s).len(),
        eval_seq(text, elems, n, s)[i] == t,
    decreases elems, n, 0nat,
{
    if n == 0 || n > elems.len() {
        0
    } else {
        let u = choose|u: Config|
            #[trigger] between(u) && reaches_seq(text, elems, (n - 1) as nat, s, u) && reaches(
                text,
                elems[n - 1],
                u,
                t,
            );
        let j = lemma_eval_seq_complete(text, elems, (n - 1) as nat, s, u);
        let k = lemma_eval_complete(text, elems[n - 1], u, t);
        lemma_eval_all_contains(text, elems[n - 1], eval_seq(text, elems, (n - 1) as nat, s), j, k)
    }
}

/// [`lemma_eval_complete`] for a repeated pattern. Occurrences that consumed
/// nothing can be left out of the count, so the list needs none of them
/// twice.
pub proof fn lemma_eval_repeat_complete(text: Seq<char>, inner: Pattern, n: nat, s: Config, t: Config) -> (i: int)
    requires
        n >= 1,
        reaches_times(text, inner, n, s, t),
    ensures
        0 <= i < eval_repeat(text, inner, s).len(),
        eval_repeat(text, inner, s)[i] == t,
    decreases inner, 2 + remaining(text, s), n,
{
    let once = eval(text, inner, s);
    let u = lemma_times_split_first(text, inner, n, s, t);
    let j = lemma_eval_complete(text, inner, s, u);
    if n == 1 {
        j
    } else {
        lemma_reaches_forward(text, inner, s, u);
        if u.pos == s.pos {
            lemma_eval_repeat_complete(text, inner, (n - 1) as nat, s, t)
        } else {
            let k = lemma_eval_repeat_complete(text, inner, (n - 1) as nat, u, t);
            once.len() + lemma_eval_repeat_from_contains(text, inner, s, once, j, k)
        }
    }
}

/// An attempt matches exactly if the search lists something for it.
pub proof fn lemma_matches_at_lists(text: Seq<char>, p: Pattern, start: nat)
    ensures
        matches_at(text, p, start) <==> eval(text, p, Config::start(start)).len() > 0,
{
    let s = Config::start(start);
    if matches_at(text, p, start) {
        let t = choose|t: Config| #[trigger] reaches(text, p, s, t);
        let i = lemma_eval_complete(text, p, s, t);
    }
    if eval(text, p, s).len() > 0 {
        lemma_eval_sound(text, p, s, 0);
    }
}

/// A pattern in which no group occurs lists only configurations with the
/// captures of the one it started from.
pub proof fn lemma_listed_captures_need_groups(text: Seq<char>, p: Pattern, s: Config, i: int)
    requires
        !has_group(p),
        0 <= i < eval(text, p, s).len(),
    ensures
        eval(text, p, s)[i].caps == s.caps,
{
    lemma_eval_sound(text, p, s, i);
    lemma_captures_need_groups(text, p, s, eval(text, p, s)[i]);
}

} // verus!
