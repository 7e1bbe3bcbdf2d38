//! Ordered-token pattern matching over one document. A pattern is a
//! sequence of parts: a raw term, a wildcard (any gap to the next term), or
//! an anchor (the match must start at the first token or end at the last).
//! The scorer walks the pattern left to right, narrowing a set of candidate
//! end positions with [`crate::positions::intersection_with_slop`].

use vstd::prelude::*;
use crate::positions::{
    has_match, intersection_with_slop, position_sorted, slop_intersection,
};

verus! {

/// A part of a compiled pattern, with the raw text already reduced to
/// "some term": the scorer only needs the shape of the pattern, the term
/// positions come separately.
#[derive(Clone, Copy, PartialEq, Eq, Structural, Debug)]
pub enum SmallPatternPart {
    Term,
    Wildcard,
    Anchor,
}

/// How many raw terms a pattern shape mentions.
pub open spec fn count_terms(parts: Seq<SmallPatternPart>) -> int
    decreases parts.len(),
{
    if parts.len() == 0 {
        0
    } else {
        count_terms(parts.drop_last()) + if parts.last() is Term {
            1int
        } else {
            0int
        }
    }
}

/// The candidate end positions after walking the pattern from part `i`,
/// having consumed `term` raw terms so far. `left` is empty and unused
/// until the first raw term seeds it; `slop` is the gap allowed before the
/// next raw term.
pub open spec fn walk_from(
    parts: Seq<SmallPatternPart>,
    pos: Seq<Seq<u32>>,
    i: int,
    term: int,
    left: Seq<u32>,
    slop: u32,
) -> Seq<u32>
    decreases parts.len() - i,
{
    if i < 0 || i >= parts.len() {
        left
    } else {
        match parts[i] {
            SmallPatternPart::Term => if term == 0 {
                walk_from(parts, pos, i + 1, 1, pos[0], 1)
            } else {
                walk_from(
                    parts,
                    pos,
                    i + 1,
                    term + 1,
                    slop_intersection(left, pos[term], slop),
                    1,
                )
            },
            SmallPatternPart::Wildcard => walk_from(parts, pos, i + 1, term, left, u32::MAX),
            SmallPatternPart::Anchor => walk_from(parts, pos, i + 1, term, left, slop),
        }
    }
}

/// An anchor as the first part demands that the first term can match at
/// token position zero.
pub open spec fn anchor_start_rejects(parts: Seq<SmallPatternPart>, pos: Seq<Seq<u32>>) -> bool {
    parts.len() > 0 && parts[0] is Anchor && pos[0].len() > 0 && pos[0][0] != 0
}

/// An anchor as the last part demands that the last term's final position
/// is the document's final token.
pub open spec fn anchor_end_rejects(
    parts: Seq<SmallPatternPart>,
    pos: Seq<Seq<u32>>,
    num_tokens: u64,
    nterms: int,
) -> bool {
    parts.len() > 1 && parts.last() is Anchor && pos[nterms - 1].len() > 0 && pos[nterms
        - 1].last() as int != num_tokens as int - 1
}

/// The phrase count of the document: how many end positions survive the
/// whole walk, or zero when an anchor rejects or the pattern has no raw
/// terms.
pub open spec fn spec_pattern_count(
    parts: Seq<SmallPatternPart>,
    pos: Seq<Seq<u32>>,
    num_tokens: u64,
) -> int {
    let nterms = count_terms(parts);
    if nterms == 0 {
        0
    } else if anchor_start_rejects(parts, pos) {
        0
    } else if anchor_end_rejects(parts, pos, num_tokens, nterms) {
        0
    } else {
        walk_from(parts, pos, 0, 0, Seq::empty(), 1).len() as int
    }
}

/// A pattern without raw terms matches nothing: its phrase count is zero
/// for every document.
pub proof fn lemma_no_terms_matches_nothing(
    parts: Seq<SmallPatternPart>,
    pos: Seq<Seq<u32>>,
    num_tokens: u64,
)
    requires
        count_terms(parts) == 0,
    ensures
        spec_pattern_count(parts, pos, num_tokens) == 0,
{
}

/// A leading anchor rejects every document whose first term cannot match
/// at token position zero.
pub proof fn lemma_anchor_start_rejects(
    parts: Seq<SmallPatternPart>,
    pos: Seq<Seq<u32>>,
    num_tokens: u64,
)
    requires
        parts.len() > 0,
        parts[0] is Anchor,
        pos[0].len() > 0,
        pos[0][0] != 0,
    ensures
        spec_pattern_count(parts, pos, num_tokens) == 0,
{
}

/// A prefix of a pattern never mentions more raw terms than the whole.
proof fn lemma_count_terms_mono(parts: Seq<SmallPatternPart>, j: int)
    requires
        0 <= j <= parts.len(),
    ensures
        count_terms(parts.take(j)) <= count_terms(parts),
    decreases parts.len() - j,
{
    if j == parts.len() {
        assert(parts.take(j) == parts);
    } else {
        assert(parts.take(j + 1).drop_last() == parts.take(j));
        lemma_count_terms_mono(parts, j + 1);
    }
}

/// Once the candidate set is empty it stays empty: no later intersection
/// can revive it.
proof fn lemma_walk_from_empty(
    parts: Seq<SmallPatternPart>,
    pos: Seq<Seq<u32>>,
    i: int,
    term: int,
    slop: u32,
)
    requires
        term >= 1,
    ensures
        walk_from(parts, pos, i, term, Seq::empty(), slop).len() == 0,
    decreases parts.len() - i,
{
    if 0 <= i < parts.len() {
        match parts[i] {
            SmallPatternPart::Term => {
                let next = slop_intersection(Seq::<u32>::empty(), pos[term], slop);
                assert forall|k: int| 0 <= k < pos[term].len() implies !has_match(
                    Seq::<u32>::empty(),
                    pos[term][k],
                    slop,
                ) by {}
                crate::positions::lemma_filter_all_false(
                    pos[term],
                    |r: u32| has_match(Seq::<u32>::empty(), r, slop),
                );
                assert(next =~= Seq::<u32>::empty());
                lemma_walk_from_empty(parts, pos, i + 1, term + 1, 1);
            },
            SmallPatternPart::Wildcard => {
                lemma_walk_from_empty(parts, pos, i + 1, term, u32::MAX);
            },
            SmallPatternPart::Anchor => {
                lemma_walk_from_empty(parts, pos, i + 1, term, slop);
            },
        }
    }
}

/// Filtering a sorted position list keeps it sorted.
proof fn lemma_filter_keeps_sorted(s: Seq<u32>, pred: spec_fn(u32) -> bool)
    requires
        position_sorted(s),
    ensures
        position_sorted(s.filter(pred)),
    decreases s.len(),
{
    reveal(Seq::filter);
    if s.len() > 0 {
        let prefix = s.drop_last();
        assert(position_sorted(prefix));
        lemma_filter_keeps_sorted(prefix, pred);
        if pred(s.last()) {
            let out = prefix.filter(pred).push(s.last());
            assert forall|i: int, j: int| 0 <= i <= j < out.len() implies out[i] <= out[j] by {
                prefix.lemma_filter_len(pred);
                if j < out.len() - 1 {
                    assert(out[i] == prefix.filter(pred)[i]);
                    assert(out[j] == prefix.filter(pred)[j]);
                } else if i < out.len() - 1 {
                    // out[i] is an element of the sorted prefix, so it is
                    // bounded by the last element of s.
                    let x = prefix.filter(pred)[i];
                    assert(prefix.filter(pred).contains(x));
                    prefix.lemma_filter_contains_rev(pred, x);
                    let k = choose|k: int| 0 <= k < prefix.len() && prefix[k] == x;
                    assert(prefix[k] == s[k]);
                    assert(s[k] <= s.last());
                }
            }
        }
    }
}

/// A part of a user-written pattern: literal text, a wildcard gap, or an
/// anchor to the document's start or end.
#[derive(Debug)]
pub enum PatternPart {
    Raw(Vec<u8>),
    Wildcard,
    Anchor,
}

/// The ghost image of a pattern part.
pub enum PatternPartView {
    Raw(Seq<u8>),
    Wildcard,
    Anchor,
}

impl View for PatternPart {
    type V = PatternPartView;

    open spec fn view(&self) -> PatternPartView {
        match self {
            PatternPart::Raw(t) => PatternPartView::Raw(t@),
            PatternPart::Wildcard => PatternPartView::Wildcard,
            PatternPart::Anchor => PatternPartView::Anchor,
        }
    }
}

/// The ghost image of a pattern.
pub open spec fn parts_view(s: Seq<PatternPart>) -> Seq<PatternPartView> {
    s.map_values(|p: PatternPart| p@)
}

/// The shape a compiled pattern takes: each part maps to one entry, a
/// raw part to one `Term` step however many tokens it carries.
pub open spec fn compiled_shape_from(parts: Seq<PatternPartView>, i: int) -> Seq<SmallPatternPart>
    decreases parts.len() - i,
{
    if i < 0 || i >= parts.len() {
        Seq::empty()
    } else {
        seq![
            match parts[i] {
                PatternPartView::Raw(t) => SmallPatternPart::Term,
                PatternPartView::Wildcard => SmallPatternPart::Wildcard,
                PatternPartView::Anchor => SmallPatternPart::Anchor,
            },
        ] + compiled_shape_from(parts, i + 1)
    }
}

/// The flattened term list of a pattern: the tokens of its raw parts, in
/// order.
pub open spec fn raw_terms_from(parts: Seq<PatternPartView>, i: int) -> Seq<Seq<u8>>
    decreases parts.len() - i,
{
    if i < 0 || i >= parts.len() {
        Seq::empty()
    } else {
        (match parts[i] {
            PatternPartView::Raw(t) => crate::tokenize::spec_tokens(t),
            _ => Seq::empty(),
        }) + raw_terms_from(parts, i + 1)
    }
}

/// A compiled pattern query: the pattern's shape, one entry per part,
/// and the flat term list the scorer intersects. The walk pairs the
/// n-th raw part with the n-th term's positions; a raw part's further
/// tokens still join the term list and so still gate candidacy.
pub struct PatternQuery {
    pub patterns: Vec<SmallPatternPart>,
    pub raw_terms: Vec<Vec<u8>>,
}

impl PatternQuery {
    /// Compiles a pattern: one shape entry per part, and every token of
    /// every raw part flattened into the query's term list.
    pub fn new(parts: &Vec<PatternPart>) -> (r: PatternQuery)
        ensures
            r.patterns@ == compiled_shape_from(parts_view(parts@), 0),
            crate::tokenize::deep_bytes(r.raw_terms@) == raw_terms_from(parts_view(parts@), 0),
    {
        let ghost pv = parts_view(parts@);
        let mut patterns: Vec<SmallPatternPart> = Vec::new();
        let mut raw_terms: Vec<Vec<u8>> = Vec::new();
        let mut i: usize = 0;
        proof {
            assert(patterns@ + compiled_shape_from(pv, 0) =~= compiled_shape_from(pv, 0));
            assert(crate::tokenize::deep_bytes(raw_terms@) + raw_terms_from(pv, 0)
                =~= raw_terms_from(pv, 0));
        }
        while i < parts.len()
            invariant
                i <= parts@.len(),
                pv == parts_view(parts@),
                patterns@ + compiled_shape_from(pv, i as int) == compiled_shape_from(pv, 0),
                crate::tokenize::deep_bytes(raw_terms@) + raw_terms_from(pv, i as int)
                    == raw_terms_from(pv, 0),
            decreases parts@.len() - i,
        {
            let ghost ppre = patterns@;
            let ghost tpre = crate::tokenize::deep_bytes(raw_terms@);
            proof {
                assert(pv[i as int] == parts@[i as int]@);
            }
            match &parts[i] {
                PatternPart::Raw(text) => {
                    patterns.push(SmallPatternPart::Term);
                    let toks = crate::tokenize::tokenize_bytes(text);
                    let ghost tv = crate::tokenize::deep_bytes(toks@);
                    let mut k: usize = 0;
                    while k < toks.len()
                        invariant
                            k <= toks@.len(),
                            tv == crate::tokenize::deep_bytes(toks@),
                            tv.len() == toks@.len(),
                            crate::tokenize::deep_bytes(raw_terms@) == tpre + tv.take(k as int),
                        decreases toks@.len() - k,
                    {
                        let ghost tm = crate::tokenize::deep_bytes(raw_terms@);
                        let t = toks[k].clone();
                        raw_terms.push(t);
                        proof {
                            assert(crate::tokenize::deep_bytes(raw_terms@) =~= tm.push(
                                toks@[k as int]@,
                            ));
                            assert(tv[k as int] == toks@[k as int]@);
                            assert(tm.push(tv[k as int]) =~= tpre + tv.take(k as int + 1));
                        }
                        k += 1;
                    }
                    proof {
                        assert(tv.take(tv.len() as int) == tv);
                        assert(patterns@ =~= ppre + seq![SmallPatternPart::Term]);
                        assert(patterns@ + compiled_shape_from(pv, i as int + 1) =~= ppre
                            + compiled_shape_from(pv, i as int));
                        assert(crate::tokenize::deep_bytes(raw_terms@) + raw_terms_from(
                            pv,
                            i as int + 1,
                        ) =~= tpre + (tv + raw_terms_from(pv, i as int + 1)));
                    }
                },
                PatternPart::Wildcard => {
                    patterns.push(SmallPatternPart::Wildcard);
                    proof {
                        assert(patterns@ =~= ppre + seq![SmallPatternPart::Wildcard]);
                        assert(patterns@ + compiled_shape_from(pv, i as int + 1) =~= ppre
                            + compiled_shape_from(pv, i as int));
                        assert(raw_terms_from(pv, i as int) == raw_terms_from(pv, i as int + 1));
                        assert(tpre + raw_terms_from(pv, i as int) =~= tpre + (
                        Seq::<Seq<u8>>::empty() + raw_terms_from(pv, i as int + 1)));
                    }
                },
                PatternPart::Anchor => {
                    patterns.push(SmallPatternPart::Anchor);
                    proof {
                        assert(patterns@ =~= ppre + seq![SmallPatternPart::Anchor]);
                        assert(patterns@ + compiled_shape_from(pv, i as int + 1) =~= ppre
                            + compiled_shape_from(pv, i as int));
                        assert(raw_terms_from(pv, i as int) == raw_terms_from(pv, i as int + 1));
                    }
                },
            }
            i += 1;
        }
        proof {
            assert(compiled_shape_from(pv, parts@.len() as int) =~= Seq::<SmallPatternPart>::empty());
            assert(raw_terms_from(pv, parts@.len() as int) =~= Seq::<Seq<u8>>::empty());
            assert(patterns@ =~= compiled_shape_from(pv, 0));
            assert(crate::tokenize::deep_bytes(raw_terms@) =~= raw_terms_from(pv, 0));
        }
        PatternQuery { patterns, raw_terms }
    }
}

/// The compiled scorer for one pattern shape. `num_query_terms` is the
/// number of raw terms; `phrase_count` is the count from the most recent
/// document that was matched.
pub struct PatternScorer {
    pub pattern: Vec<SmallPatternPart>,
    pub num_query_terms: usize,
    pub phrase_count: u32,
}

impl PatternScorer {
    /// Well-formed when the term count recorded at compile time agrees
    /// with the pattern shape.
    pub open spec fn wf(self) -> bool {
        count_terms(self.pattern@) == self.num_query_terms
    }

    pub fn new(pattern: Vec<SmallPatternPart>) -> (r: Self)
        ensures
            r.wf(),
            r.pattern == pattern,
            r.phrase_count == 0,
    {
        let mut n: usize = 0;
        let mut i: usize = 0;
        while i < pattern.len()
            invariant
                i <= pattern.len(),
                n <= i,
                n == count_terms(pattern@.take(i as int)),
            decreases pattern.len() - i,
        {
            proof {
                assert(pattern@.take(i as int + 1).drop_last() == pattern@.take(i as int));
            }
            if let SmallPatternPart::Term = pattern[i] {
                n += 1;
            }
            i += 1;
        }
        proof {
            assert(pattern@.take(pattern@.len() as int) == pattern@);
        }
        PatternScorer { pattern, num_query_terms: n, phrase_count: 0 }
    }

    pub fn phrase_count(&self) -> (r: u32)
        ensures
            r == self.phrase_count,
    {
        self.phrase_count
    }

    /// Matches one document and records its phrase count; returns whether
    /// the document matches at all.
    pub fn pattern_match(&mut self, term_positions: &Vec<Vec<u32>>, num_tokens_doc: u64) -> (r:
        bool)
        requires
            old(self).wf(),
            term_positions@.len() == old(self).num_query_terms,
            forall|i: int|
                0 <= i < term_positions@.len() ==> position_sorted(#[trigger] term_positions@[i]@),
            forall|i: int|
                0 <= i < term_positions@.len() ==> (#[trigger] term_positions@[i]@).len()
                    <= u32::MAX,
        ensures
            final(self).wf(),
            final(self).pattern == old(self).pattern,
            final(self).num_query_terms == old(self).num_query_terms,
            final(self).phrase_count == spec_pattern_count(
                old(self).pattern@,
                term_positions@.map_values(|v: Vec<u32>| v@),
                num_tokens_doc,
            ),
            r == (final(self).phrase_count > 0),
    {
        let count = self.perform_pattern_match(term_positions, num_tokens_doc);
        self.phrase_count = count as u32;
        self.phrase_count > 0
    }

    /// The walk of one document: seeds the candidate set with the first
    /// term's positions, then narrows it part by part.
    pub fn perform_pattern_match(&self, term_positions: &Vec<Vec<u32>>, num_tokens_doc: u64) -> (r:
        usize)
        requires
            self.wf(),
            term_positions@.len() == self.num_query_terms,
            forall|i: int|
                0 <= i < term_positions@.len() ==> position_sorted(#[trigger] term_positions@[i]@),
            forall|i: int|
                0 <= i < term_positions@.len() ==> (#[trigger] term_positions@[i]@).len()
                    <= u32::MAX,
        ensures
            r == spec_pattern_count(
                self.pattern@,
                term_positions@.map_values(|v: Vec<u32>| v@),
                num_tokens_doc,
            ),
            r <= u32::MAX,
    {
        let ghost parts = self.pattern@;
        let ghost pos = term_positions@.map_values(|v: Vec<u32>| v@);
        if self.num_query_terms == 0 {
            return 0;
        }

        let mut left: Vec<u32> = Vec::new();
        let mut out: Vec<u32> = Vec::new();
        let mut slop: u32 = 1;
        let mut current_term: usize = 0;
        let mut i: usize = 0;

        while i < self.pattern.len()
            invariant
                self.wf(),
                parts == self.pattern@,
                pos == term_positions@.map_values(|v: Vec<u32>| v@),
                term_positions@.len() == self.num_query_terms,
                forall|k: int| 0 <= k < pos.len() ==> position_sorted(#[trigger] pos[k]),
                forall|k: int| 0 <= k < pos.len() ==> (#[trigger] pos[k]).len() <= u32::MAX,
                self.num_query_terms >= 1,
                i <= parts.len(),
                current_term == count_terms(parts.take(i as int)),
                current_term <= self.num_query_terms,
                position_sorted(left@),
                left@.len() <= u32::MAX,
                walk_from(parts, pos, i as int, current_term as int, left@, slop) == walk_from(
                    parts,
                    pos,
                    0,
                    0,
                    Seq::<u32>::empty(),
                    1,
                ),
                !anchor_start_rejects(parts, pos) || i == 0,
                !anchor_end_rejects(parts, pos, num_tokens_doc, self.num_query_terms as int)
                    || i < parts.len() || parts.len() <= 1,
            decreases self.pattern.len() - i,
        {
            proof {
                assert(parts.take(i as int + 1).drop_last() == parts.take(i as int));
                lemma_count_terms_mono(parts, i as int + 1);
            }
            match self.pattern[i] {
                SmallPatternPart::Term => {
                    if current_term == 0 {
                        proof {
                            assert(pos[0] == term_positions@[0]@);
                        }
                        left = term_positions[0].clone();
                    } else {
                        let ghost prev_left = left@;
                        proof {
                            assert(pos[current_term as int] == term_positions@[current_term as int]@);
                        }
                        let right = &term_positions[current_term];
                        intersection_with_slop(&left, right, &mut out, slop);
                        proof {
                            lemma_filter_keeps_sorted(
                                pos[current_term as int],
                                |r: u32| has_match(prev_left, r, slop),
                            );
                            pos[current_term as int].lemma_filter_len(
                                |r: u32| has_match(prev_left, r, slop),
                            );
                        }
                        core::mem::swap(&mut left, &mut out);
                        proof {
                            assert(left@ == slop_intersection(
                                prev_left,
                                pos[current_term as int],
                                slop,
                            ));
                            assert(walk_from(parts, pos, i as int, current_term as int, prev_left, slop)
                                == walk_from(parts, pos, i as int + 1, current_term as int + 1, left@, 1));
                        }
                        if left.len() == 0 {
                            proof {
                                assert(left@ =~= Seq::<u32>::empty());
                                lemma_walk_from_empty(
                                    parts,
                                    pos,
                                    i as int + 1,
                                    current_term as int + 1,
                                    1,
                                );
                            }
                            return 0;
                        }
                    }
                    slop = 1;
                    current_term += 1;
                },
                SmallPatternPart::Wildcard => {
                    slop = u32::MAX;
                },
                SmallPatternPart::Anchor => {
                    if i == 0 {
                        proof {
                            assert(pos[0] == term_positions@[0]@);
                        }
                        let first = &term_positions[0];
                        if first.len() > 0 && first[0] != 0 {
                            return 0;
                        }
                        assert(!anchor_start_rejects(parts, pos));
                    } else if i + 1 == self.pattern.len() {
                        proof {
                            assert(pos[self.num_query_terms - 1] == term_positions@[self.num_query_terms
                                - 1]@);
                        }
                        let last_positions = &term_positions[self.num_query_terms - 1];
                        if last_positions.len() > 0 {
                            let p = last_positions[last_positions.len() - 1];
                            if num_tokens_doc == 0 || p as u64 != num_tokens_doc - 1 {
                                return 0;
                            }
                        }
                        assert(!anchor_end_rejects(
                            parts,
                            pos,
                            num_tokens_doc,
                            self.num_query_terms as int,
                        ));
                    }
                },
            }
            i += 1;
        }
        proof {
            assert(parts.take(parts.len() as int) == parts);
        }
        left.len()
    }
}

} // verus!
