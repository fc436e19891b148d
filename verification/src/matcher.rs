//! The backtracking matcher.
//!
//! The search keeps every position that is still possible instead of
//! following one and going back on failure: a [`Cursor`] is one such
//! position, and each function here turns cursors into the cursors that lie
//! behind a pattern, so that what follows in the pattern is tried on every
//! one of them. What the functions return is stated against
//! [`crate::search`], and [`matches`] against [`crate::semantics`].
//!
//! A cursor holds an offset into the text and its captures as spans of the
//! text; no text is copied. Every cursor has captures of its own. The search
//! takes no account of positions that it reaches twice, so its cost can grow
//! exponentially with nested repetitions and alternatives.

use vstd::prelude::*;
use crate::parser::{char_at, models, to_chars, Quantifier, RE};
use crate::search::{
    eval, eval_all, eval_alt, eval_backref, eval_repeat, eval_repeat_from, eval_seq,
    lemma_eval_all_push, lemma_eval_backref_push, lemma_eval_repeat_from_push,
    lemma_eval_seq_stays_empty, lemma_matches_at_lists, record_all,
};
use crate::semantics::{is_start, matches_at, spec_matches, stands_at, takes, Capture, Config};

verus! {

/// A captured piece of the text: the characters from `start` up to `end`,
/// captured by the group with index `group`.
#[derive(Clone, Copy, Debug, PartialEq, Eq)]
pub struct Span {
    pub group: usize,
    pub start: usize,
    pub end: usize,
}

impl Span {
    /// The capture that this span stands for in `text`.
    pub open spec fn model(self, text: Seq<char>) -> Capture {
        Capture { group: self.group as nat, text: text.subrange(self.start as int, self.end as int) }
    }

    /// The span lies within `text`.
    pub open spec fn wf(self, text: Seq<char>) -> bool {
        self.start <= self.end <= text.len()
    }
}

/// The captures that a list of spans stands for.
pub open spec fn span_models(spans: Seq<Span>, text: Seq<char>) -> Seq<Capture> {
    Seq::new(spans.len(), |i: int| spans[i].model(text))
}

/// One position of the search: the text up to `pos` is consumed, and
/// `captures` holds what the groups captured on the way, oldest first.
#[derive(Debug, PartialEq, Eq)]
pub struct Cursor {
    pub pos: usize,
    pub captures: Vec<Span>,
}

impl Cursor {
    /// The configuration that this cursor stands for in `text`.
    pub open spec fn model(&self, text: Seq<char>) -> Config {
        Config { pos: self.pos as nat, caps: span_models(self.captures@, text) }
    }

    /// The cursor and its captures lie within `text`.
    pub open spec fn wf(&self, text: Seq<char>) -> bool {
        &&& self.pos <= text.len()
        &&& forall|i: int| 0 <= i < self.captures@.len() ==> (#[trigger] self.captures@[i]).wf(text)
    }

    /// A cursor at offset `pos` that has captured nothing.
    pub fn new(pos: usize) -> (out: Cursor)
        ensures
            out.pos == pos,
            out.captures@ == Seq::<Span>::empty(),
    {
        Cursor { pos, captures: Vec::new() }
    }

    /// A copy of this cursor.
    pub fn duplicate(&self) -> (out: Cursor)
        ensures
            out.pos == self.pos,
            out.captures@ == self.captures@,
    {
        Cursor { pos: self.pos, captures: copy_spans(&self.captures) }
    }
}

/// The configurations that a list of cursors stands for.
pub open spec fn cursor_models(cursors: Seq<Cursor>, text: Seq<char>) -> Seq<Config> {
    Seq::new(cursors.len(), |i: int| cursors[i].model(text))
}

/// Every cursor of the list lies within `text`.
pub open spec fn all_wf(cursors: Seq<Cursor>, text: Seq<char>) -> bool {
    forall|i: int| 0 <= i < cursors.len() ==> (#[trigger] cursors[i]).wf(text)
}

pub proof fn lemma_cursor_models_empty(text: Seq<char>)
    ensures
        cursor_models(Seq::<Cursor>::empty(), text) == Seq::<Config>::empty(),
{
    assert(cursor_models(Seq::<Cursor>::empty(), text) =~= Seq::<Config>::empty());
}

pub proof fn lemma_cursor_models_push(cursors: Seq<Cursor>, c: Cursor, text: Seq<char>)
    ensures
        cursor_models(cursors.push(c), text) == cursor_models(cursors, text).push(c.model(text)),
        all_wf(cursors, text) && c.wf(text) ==> all_wf(cursors.push(c), text),
{
    assert(cursor_models(cursors.push(c), text) =~= cursor_models(cursors, text).push(c.model(text)));
}

pub proof fn lemma_cursor_models_add(a: Seq<Cursor>, b: Seq<Cursor>, text: Seq<char>)
    ensures
        cursor_models(a + b, text) == cursor_models(a, text) + cursor_models(b, text),
        all_wf(a, text) && all_wf(b, text) ==> all_wf(a + b, text),
{
    assert(cursor_models(a + b, text) =~= cursor_models(a, text) + cursor_models(b, text));
}

/// The models of the first `i + 1` cursors are those of the first `i` and
/// that of the next.
pub proof fn lemma_cursor_models_take(cursors: Seq<Cursor>, i: int, text: Seq<char>)
    requires
        0 <= i < cursors.len(),
    ensures
        cursor_models(cursors.take(i + 1), text) == cursor_models(cursors.take(i), text).push(
            cursors[i].model(text),
        ),
        cursor_models(cursors.take(cursors.len() as int), text) == cursor_models(cursors, text),
{
    assert(cursors.take(i + 1) =~= cursors.take(i).push(cursors[i]));
    lemma_cursor_models_push(cursors.take(i), cursors[i], text);
    assert(cursors.take(cursors.len() as int) =~= cursors);
}

/// A copy of a list of spans.
pub fn copy_spans(spans: &Vec<Span>) -> (out: Vec<Span>)
    ensures
        out@ == spans@,
{
    let mut out: Vec<Span> = Vec::new();
    let mut i: usize = 0;
    while i < spans.len()
        invariant
            i <= spans.len(),
            out@ == spans@.take(i as int),
        decreases spans.len() - i,
    {
        out.push(spans[i]);
        assert(spans@.take(i + 1) =~= spans@.take(i as int).push(spans@[i as int]));
        i = i + 1;
    }
    assert(spans@.take(spans.len() as int) =~= spans@);
    out
}

/// Whether `c` is one of `set`.
pub fn contains_char(set: &Vec<char>, c: char) -> (found: bool)
    ensures
        found == set@.contains(c),
{
    let mut i: usize = 0;
    while i < set.len()
        invariant
            i <= set.len(),
            forall|j: int| 0 <= j < i ==> set@[j] != c,
        decreases set.len() - i,
    {
        if set[i] == c {
            return true;
        }
        i = i + 1;
    }
    false
}

/// Whether the one-character pattern `re` takes the character `c`.
pub fn takes_char(re: &RE, c: char) -> (taken: bool)
    ensures
        taken == takes(re@, c),
{
    match re {
        RE::Literal(l) => c == *l,
        RE::Dot => true,
        RE::Digit => '0' <= c && c <= '9',
        RE::Word => ('a' <= c && c <= 'z') || ('A' <= c && c <= 'Z') || ('0' <= c && c <= '9') || c == '_',
        RE::CharClass(set) => contains_char(set, c),
        RE::NegClass(set) => !contains_char(set, c),
        _ => false,
    }
}

/// Whether the text of `span` stands in `text` at offset `pos`.
pub fn span_stands_at(text: &Vec<char>, pos: usize, span: Span) -> (found: bool)
    requires
        pos <= text.len(),
        span.wf(text@),
    ensures
        found == stands_at(text@, pos as nat, span.model(text@).text),
{
    let n: usize = span.end - span.start;
    if n > text.len() - pos {
        return false;
    }
    let ghost piece = text@.subrange(span.start as int, span.end as int);
    let ghost there = text@.subrange(pos as int, pos + n);
    let mut i: usize = 0;
    while i < n
        invariant
            i <= n,
            n == span.end - span.start,
            span.wf(text@),
            pos + n <= text.len(),
            piece == text@.subrange(span.start as int, span.end as int),
            there == text@.subrange(pos as int, pos + n),
            forall|j: int| 0 <= j < i ==> there[j] == piece[j],
        decreases n - i,
    {
        if text[pos + i] != text[span.start + i] {
            assert(there[i as int] != piece[i as int]);
            return false;
        }
        i = i + 1;
    }
    assert(there =~= piece);
    true
}

/// The cursors behind a back reference to the group `index`: one for each
/// capture of `input` under that index that stands in the text at `input`.
pub fn match_backref(text: &Vec<char>, input: &Cursor, index: usize) -> (out: Vec<Cursor>)
    requires
        input.wf(text@),
    ensures
        cursor_models(out@, text@) == eval_backref(
            text@,
            index as nat,
            input.model(text@),
            input.model(text@).caps,
        ),
        all_wf(out@, text@),
{
    let ghost s = input.model(text@);
    let mut out: Vec<Cursor> = Vec::new();
    let mut k: usize = 0;
    proof {
        lemma_cursor_models_empty(text@);
        assert(s.caps.take(0) =~= Seq::<Capture>::empty());
    }
    while k < input.captures.len()
        invariant
            k <= input.captures.len(),
            input.wf(text@),
            s == input.model(text@),
            cursor_models(out@, text@) == eval_backref(text@, index as nat, s, s.caps.take(k as int)),
            all_wf(out@, text@),
        decreases input.captures.len() - k,
    {
        let span = input.captures[k];
        proof {
            assert(s.caps.take(k + 1) =~= s.caps.take(k as int).push(span.model(text@)));
            lemma_eval_backref_push(text@, index as nat, s, s.caps.take(k as int), span.model(text@));
        }
        if span.group == index && span_stands_at(text, input.pos, span) {
            assert(span.model(text@).text.len() == span.end - span.start);
            assert(text@.len() == text.len());
            let next = Cursor { pos: input.pos + (span.end - span.start), captures: copy_spans(&input.captures) };
            proof {
                lemma_cursor_models_push(out@, next, text@);
            }
            out.push(next);
        }
        k = k + 1;
    }
    assert(s.caps.take(input.captures.len() as int) =~= s.caps);
    out
}

/// The cursors `reached` after the group `group`, entered at offset `from`,
/// is left: each one that consumed text since then has captured it.
pub fn record_captures(text: &Vec<char>, reached: &Vec<Cursor>, group: usize, from: usize) -> (out: Vec<Cursor>)
    requires
        all_wf(reached@, text@),
    ensures
        cursor_models(out@, text@) == record_all(
            text@,
            group as nat,
            from as nat,
            cursor_models(reached@, text@),
        ),
        all_wf(out@, text@),
{
    let mut out: Vec<Cursor> = Vec::new();
    let mut i: usize = 0;
    while i < reached.len()
        invariant
            i <= reached.len(),
            all_wf(reached@, text@),
            out@.len() == i,
            forall|j: int|
                0 <= j < i ==> (#[trigger] out@[j]).model(text@) == reached@[j].model(text@).record(
                    text@,
                    group as nat,
                    from as nat,
                ),
            all_wf(out@, text@),
        decreases reached.len() - i,
    {
        let cursor = &reached[i];
        assert(cursor.wf(text@));
        let mut captures = copy_spans(&cursor.captures);
        if from < cursor.pos {
            let span = Span { group, start: from, end: cursor.pos };
            captures.push(span);
            assert(span_models(captures@, text@) =~= span_models(cursor.captures@, text@).push(
                span.model(text@),
            ));
        }
        let next = Cursor { pos: cursor.pos, captures };
        out.push(next);
        i = i + 1;
    }
    assert(cursor_models(out@, text@) =~= record_all(
        text@,
        group as nat,
        from as nat,
        cursor_models(reached@, text@),
    ));
    out
}

/// The cursors that `re` reaches from any of `inputs`: for each input in
/// turn, what [`match_view`] finds behind it. An empty result means that no
/// input survived.
#[verifier::loop_isolation(false)]
pub fn match_re(text: &Vec<char>, inputs: &Vec<Cursor>, re: &RE) -> (out: Vec<Cursor>)
    requires
        all_wf(inputs@, text@),
    ensures
        cursor_models(out@, text@) == eval_all(text@, re@, cursor_models(inputs@, text@)),
        all_wf(out@, text@),
    decreases re, 1nat,
{
    let mut out: Vec<Cursor> = Vec::new();
    let mut i: usize = 0;
    proof {
        lemma_cursor_models_empty(text@);
        assert(inputs@.take(0) =~= Seq::<Cursor>::empty());
    }
    while i < inputs.len()
        invariant
            i <= inputs.len(),
            cursor_models(out@, text@) == eval_all(text@, re@, cursor_models(inputs@.take(i as int), text@)),
            all_wf(out@, text@),
        decreases inputs.len() - i,
    {
        let mut more = match_view(text, &inputs[i], re);
        proof {
            lemma_cursor_models_take(inputs@, i as int, text@);
            lemma_eval_all_push(
                text@,
                re@,
                cursor_models(inputs@.take(i as int), text@),
                inputs@[i as int].model(text@),
            );
            lemma_cursor_models_add(out@, more@, text@);
        }
        out.append(&mut more);
        i = i + 1;
    }
    proof {
        assert(inputs@.take(inputs.len() as int) =~= inputs@);
    }
    out
}

/// The cursors that `re` reaches from `input`, in the order in which the
/// search finds them.
#[verifier::loop_isolation(false)]
pub fn match_view(text: &Vec<char>, input: &Cursor, re: &RE) -> (out: Vec<Cursor>)
    requires
        input.wf(text@),
    ensures
        cursor_models(out@, text@) == eval(text@, re@, input.model(text@)),
        all_wf(out@, text@),
    decreases re, 0nat,
{
    let ghost s = input.model(text@);
    let mut out: Vec<Cursor> = Vec::new();
    proof {
        lemma_cursor_models_empty(text@);
    }
    match re {
        RE::Sequence(elems) => {
            proof {
                lemma_cursor_models_push(out@, *input, text@);
            }
            out.push(input.duplicate());
            assert(cursor_models(out@, text@) =~= seq![s]);
            let mut i: usize = 0;
            while i < elems.len()
                invariant
                    i <= elems.len(),
                    cursor_models(out@, text@) == eval_seq(text@, models(elems@), i as nat, s),
                    all_wf(out@, text@),
                decreases elems.len() - i,
            {
                out = match_re(text, &out, &elems[i]);
                i = i + 1;
                if out.len() == 0 {
                    proof {
                        lemma_eval_seq_stays_empty(text@, models(elems@), i as nat, elems@.len(), s);
                    }
                    return out;
                }
            }
            out
        },
        RE::Alt(branches) => {
            let mut k: usize = 0;
            while k < branches.len()
                invariant
                    k <= branches.len(),
                    cursor_models(out@, text@) == eval_alt(text@, models(branches@), k as nat, s),
                    all_wf(out@, text@),
                decreases branches.len() - k,
            {
                let mut more = match_view(text, input, &branches[k]);
                proof {
                    lemma_cursor_models_add(out@, more@, text@);
                }
                out.append(&mut more);
                k = k + 1;
            }
            out
        },
        RE::Repeat(inner, q) => {
            match q {
                Quantifier::ZeroOrOne => {
                    out.push(input.duplicate());
                    assert(cursor_models(out@, text@) =~= seq![s]);
                    let mut more = match_view(text, input, inner);
                    proof {
                        lemma_cursor_models_add(out@, more@, text@);
                    }
                    out.append(&mut more);
                    out
                },
                Quantifier::OneOrMore => match_repeat(text, input, inner),
                Quantifier::ZeroOrMore => {
                    out.push(input.duplicate());
                    assert(cursor_models(out@, text@) =~= seq![s]);
                    let mut more = match_repeat(text, input, inner);
                    proof {
                        lemma_cursor_models_add(out@, more@, text@);
                    }
                    out.append(&mut more);
                    out
                },
            }
        },
        RE::Group(index, inner) => {
            let reached = match_view(text, input, inner);
            record_captures(text, &reached, *index, input.pos)
        },
        RE::BackRef(index) => match_backref(text, input, *index),
        RE::AnchorStart => {
            if input.pos == 0 {
                out.push(input.duplicate());
                assert(cursor_models(out@, text@) =~= seq![s]);
            }
            out
        },
        RE::AnchorEnd => {
            if input.pos == text.len() {
                out.push(input.duplicate());
                assert(cursor_models(out@, text@) =~= seq![s]);
            }
            out
        },
        _ => {
            if input.pos < text.len() && takes_char(re, char_at(text, input.pos)) {
                out.push(Cursor { pos: input.pos + 1, captures: copy_spans(&input.captures) });
                assert(cursor_models(out@, text@) =~= seq![s.advance(1)]);
            }
            out
        },
    }
}

/// The cursors that one or more occurrences of `inner` reach from `input`.
/// An occurrence that consumed nothing is not tried again.
#[verifier::loop_isolation(false)]
pub fn match_repeat(text: &Vec<char>, input: &Cursor, inner: &RE) -> (out: Vec<Cursor>)
    requires
        input.wf(text@),
    ensures
        cursor_models(out@, text@) == eval_repeat(text@, inner@, input.model(text@)),
        all_wf(out@, text@),
    decreases inner, 2 + (text.len() - input.pos),
{
    let ghost s = input.model(text@);
    let mut once = match_view(text, input, inner);
    let mut later: Vec<Cursor> = Vec::new();
    let mut j: usize = 0;
    proof {
        lemma_cursor_models_empty(text@);
        assert(once@.take(0) =~= Seq::<Cursor>::empty());
    }
    while j < once.len()
        invariant
            j <= once.len(),
            cursor_models(later@, text@) == eval_repeat_from(
                text@,
                inner@,
                s,
                cursor_models(once@.take(j as int), text@),
            ),
            all_wf(later@, text@),
        decreases once.len() - j,
    {
        proof {
            lemma_cursor_models_take(once@, j as int, text@);
            lemma_eval_repeat_from_push(
                text@,
                inner@,
                s,
                cursor_models(once@.take(j as int), text@),
                once@[j as int].model(text@),
            );
        }
        if once[j].pos > input.pos {
            let mut more = match_repeat(text, &once[j], inner);
            proof {
                lemma_cursor_models_add(later@, more@, text@);
            }
            later.append(&mut more);
        }
        j = j + 1;
    }
    proof {
        assert(once@.take(once.len() as int) =~= once@);
        lemma_cursor_models_add(once@, later@, text@);
    }
    once.append(&mut later);
    once
}

/// Whether `re` matches somewhere in `target`.
///
/// The attempts start at offset 0 and then at each further character of the
/// text, and the first one that succeeds ends the search. An attempt succeeds
/// if the pattern reaches any position from its start; the anchors in the
/// pattern refer to the whole text.
pub fn matches(target: &str, re: &RE) -> (found: bool)
    ensures
        found == spec_matches(target@, re@),
{
    let text = to_chars(target);
    let mut start: usize = 0;
    loop
        invariant
            text@ == target@,
            is_start(text@, start as nat),
            forall|k: nat| k < start ==> !matches_at(text@, re@, k),
        decreases text.len() - start,
    {
        let first = Cursor::new(start);
        assert(first.model(text@) =~= Config::start(start as nat)) by {
            assert(span_models(first.captures@, text@) =~= Seq::<Capture>::empty());
        }
        let reached = match_view(&text, &first, re);
        proof {
            lemma_matches_at_lists(text@, re@, start as nat);
        }
        if reached.len() > 0 {
            assert(cursor_models(reached@, text@).len() == reached@.len());
            assert(matches_at(text@, re@, start as nat));
            return true;
        }
        assert(cursor_models(reached@, text@).len() == reached@.len());
        assert(!matches_at(text@, re@, start as nat));
        if start + 1 >= text.len() {
            assert forall|k: nat| is_start(text@, k) implies !matches_at(text@, re@, k) by {
                if k > start {
                    assert(text@.len() <= start + 1);
                }
            }
            return false;
        }
        start = start + 1;
    }
}

} // verus!
