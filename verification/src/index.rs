//! A segmented, in-memory inverted index. A segment is an immutable list
//! of documents; terms are matched against tokenized text fields or exact
//! numeric values, and postings iterate the matching documents of one
//! segment in document order, with term frequencies and token positions.

use vstd::prelude::*;
use vstd::string::StringSliceAdditionalSpecFns;
use crate::schema::{
    Field, FieldEntryView, FieldKind, IndexingOption, Schema, TantivyDocument, Term, TermValue,
    TermValueView, TermView, Value, ValueView,
};
use crate::tokenize::{deep_bytes, lemma_tokens_len, spec_tokens, tokenize_bytes};
use crate::positions::position_sorted;

verus! {

/// The sentinel a postings cursor returns once it has passed its last
/// document.
pub const TERMINATED: u32 = 0xffff_ffff;

/// The ghost image of one document: its (field, value) entries.
pub type DocView = Seq<(Field, ValueView)>;

/// Total byte length of the text values of a document, from entry `i` on.
/// It bounds every field's token count, so token positions fit in `u32`.
pub open spec fn text_len_from(doc: DocView, i: int) -> int
    decreases doc.len() - i,
{
    if i < 0 || i >= doc.len() {
        0
    } else {
        (match doc[i].1 {
            ValueView::Str(b) => b.len() as int,
            _ => 0,
        }) + text_len_from(doc, i + 1)
    }
}

/// A document the index accepts: bounded text, so token positions fit in
/// `u32`.
pub open spec fn doc_wf(doc: DocView) -> bool {
    text_len_from(doc, 0) <= u32::MAX
}

/// The tokens one entry contributes to a field's token stream.
pub open spec fn entry_tokens(e: (Field, ValueView), f: Field) -> Seq<Seq<u8>> {
    if e.0 == f {
        match e.1 {
            ValueView::Str(b) => spec_tokens(b),
            _ => Seq::empty(),
        }
    } else {
        Seq::empty()
    }
}

/// The token stream of a field of a document, from entry `i` on: the
/// concatenation of the tokens of its text values, in order.
pub open spec fn field_tokens_from(doc: DocView, f: Field, i: int) -> Seq<Seq<u8>>
    decreases doc.len() - i,
{
    if i < 0 || i >= doc.len() {
        Seq::empty()
    } else {
        entry_tokens(doc[i], f) + field_tokens_from(doc, f, i + 1)
    }
}

pub open spec fn field_tokens(doc: DocView, f: Field) -> Seq<Seq<u8>> {
    field_tokens_from(doc, f, 0)
}

/// The token count of a field is bounded by the document's text length.
pub proof fn lemma_field_tokens_bound(doc: DocView, f: Field, i: int)
    requires
        0 <= i <= doc.len(),
    ensures
        field_tokens_from(doc, f, i).len() <= text_len_from(doc, i),
    decreases doc.len() - i,
{
    if i < doc.len() {
        lemma_field_tokens_bound(doc, f, i + 1);
        match doc[i].1 {
            ValueView::Str(b) => {
                lemma_tokens_len(b, b.len() as int);
            },
            _ => {},
        }
    }
}

/// The positions (indices) at which `t` occurs in a token stream, from
/// token `i` on.
pub open spec fn positions_from(toks: Seq<Seq<u8>>, t: Seq<u8>, i: int) -> Seq<u32>
    decreases toks.len() - i,
{
    if i < 0 || i >= toks.len() {
        Seq::empty()
    } else if toks[i] == t {
        seq![i as u32] + positions_from(toks, t, i + 1)
    } else {
        positions_from(toks, t, i + 1)
    }
}

pub open spec fn spec_positions(toks: Seq<Seq<u8>>, t: Seq<u8>) -> Seq<u32> {
    positions_from(toks, t, 0)
}

/// Occurrence positions are within range, increasing, and no more numerous
/// than the tokens.
pub proof fn lemma_positions_props(toks: Seq<Seq<u8>>, t: Seq<u8>, i: int)
    requires
        0 <= i,
        toks.len() <= u32::MAX,
    ensures
        forall|k: int|
            0 <= k < positions_from(toks, t, i).len() ==> i <= #[trigger] positions_from(
                toks,
                t,
                i,
            )[k] < toks.len(),
        position_sorted(positions_from(toks, t, i)),
        positions_from(toks, t, i).len() <= toks.len() - i || positions_from(toks, t, i).len()
            == 0,
    decreases toks.len() - i,
{
    if i < toks.len() {
        lemma_positions_props(toks, t, i + 1);
        if toks[i] == t {
            let rest = positions_from(toks, t, i + 1);
            let whole = positions_from(toks, t, i);
            assert(whole == seq![i as u32] + rest);
            assert forall|a: int, b: int| 0 <= a <= b < whole.len() implies whole[a] <= whole[b]
                by {
                if a == 0 {
                    assert(whole[0] == i as u32);
                    if b > 0 {
                        assert(whole[b] == rest[b - 1]);
                    }
                } else {
                    assert(whole[a] == rest[a - 1]);
                    assert(whole[b] == rest[b - 1]);
                }
            }
        }
    }
}

/// How many entries of the document match an exact (numeric) term, from
/// entry `i` on.
pub open spec fn numeric_count_from(doc: DocView, term: TermView, i: int) -> int
    decreases doc.len() - i,
{
    if i < 0 || i >= doc.len() {
        0
    } else {
        (if doc[i].0 == term.field && numeric_value_matches(doc[i].1, term.value) {
            1int
        } else {
            0int
        }) + numeric_count_from(doc, term, i + 1)
    }
}

pub open spec fn numeric_value_matches(v: ValueView, t: TermValueView) -> bool {
    match (v, t) {
        (ValueView::U64(a), TermValueView::U64(b)) => a == b,
        (ValueView::I64(a), TermValueView::I64(b)) => a == b,
        (ValueView::FloatBits(a), TermValueView::FloatBits(b)) => a == b,
        _ => false,
    }
}

/// How often a term occurs in a document: token occurrences for a text
/// term, matching entries for a numeric term.
pub open spec fn spec_term_freq(doc: DocView, term: TermView) -> int {
    match term.value {
        TermValueView::Bytes(b) => spec_positions(field_tokens(doc, term.field), b).len() as int,
        _ => numeric_count_from(doc, term, 0),
    }
}

/// Whether a document matches a term at all.
pub open spec fn doc_matches(doc: DocView, term: TermView) -> bool {
    spec_term_freq(doc, term) > 0
}

/// Collects the token stream of one field of a document.
pub fn field_token_stream(doc: &TantivyDocument, field: Field) -> (r: Vec<Vec<u8>>)
    ensures
        deep_bytes(r@) == field_tokens(doc@, field),
{
    let mut out: Vec<Vec<u8>> = Vec::new();
    let mut i: usize = 0;
    proof {
        assert(deep_bytes(out@) + field_tokens_from(doc@, field, 0) =~= field_tokens(doc@, field));
    }
    while i < doc.field_values.len()
        invariant
            i <= doc.field_values@.len(),
            doc@.len() == doc.field_values@.len(),
            deep_bytes(out@) + field_tokens_from(doc@, field, i as int) == field_tokens(
                doc@,
                field,
            ),
        decreases doc.field_values@.len() - i,
    {
        let ghost pre = deep_bytes(out@);
        let pair = &doc.field_values[i];
        proof {
            assert(doc@[i as int] == (doc.field_values@[i as int].0,
            doc.field_values@[i as int].1@));
        }
        if pair.0.id == field.id {
            proof {
                assert(pair.0 == field);
            }
            match &pair.1 {
                Value::Str(bytes) => {
                    let mut toks = tokenize_bytes(bytes);
                    let ghost tv = deep_bytes(toks@);
                    let mut k: usize = 0;
                    while k < toks.len()
                        invariant
                            k <= toks@.len(),
                            deep_bytes(out@) == pre + deep_bytes(toks@).take(k as int),
                            deep_bytes(toks@) == tv,
                            toks@.len() == tv.len(),
                        decreases toks@.len() - k,
                    {
                        let ghost mid = deep_bytes(out@);
                        let t = toks[k].clone();
                        out.push(t);
                        proof {
                            assert(deep_bytes(out@) =~= mid.push(toks@[k as int]@));
                            assert(tv[k as int] == toks@[k as int]@);
                            assert(mid.push(tv[k as int]) =~= pre + tv.take(k as int + 1));
                        }
                        k += 1;
                    }
                    proof {
                        assert(tv.take(tv.len() as int) == tv);
                        assert(entry_tokens(doc@[i as int], field) == tv);
                        assert(deep_bytes(out@) + field_tokens_from(doc@, field, i as int + 1)
                            =~= pre + (entry_tokens(doc@[i as int], field) + field_tokens_from(
                            doc@,
                            field,
                            i as int + 1,
                        )));
                    }
                },
                _ => {
                    proof {
                        assert(entry_tokens(doc@[i as int], field) =~= Seq::<Seq<u8>>::empty());
                        assert(pre + field_tokens_from(doc@, field, i as int) =~= pre + (
                        entry_tokens(doc@[i as int], field) + field_tokens_from(
                            doc@,
                            field,
                            i as int + 1,
                        )));
                    }
                },
            }
        } else {
            proof {
                assert(pair.0 != field);
                assert(entry_tokens(doc@[i as int], field) =~= Seq::<Seq<u8>>::empty());
                assert(pre + field_tokens_from(doc@, field, i as int) =~= pre + (entry_tokens(
                    doc@[i as int],
                    field,
                ) + field_tokens_from(doc@, field, i as int + 1)));
            }
        }
        i += 1;
    }
    proof {
        assert(deep_bytes(out@) =~= field_tokens(doc@, field));
    }
    out
}

/// Collects the positions at which the token occurs in a stream.
pub fn positions_in_stream(toks: &Vec<Vec<u8>>, t: &Vec<u8>) -> (r: Vec<u32>)
    requires
        toks@.len() <= u32::MAX,
    ensures
        r@ == spec_positions(deep_bytes(toks@), t@),
{
    let ghost tokens = deep_bytes(toks@);
    let mut out: Vec<u32> = Vec::new();
    let mut i: usize = 0;
    proof {
        assert(out@ + positions_from(tokens, t@, 0) =~= spec_positions(tokens, t@));
    }
    while i < toks.len()
        invariant
            i <= toks@.len(),
            toks@.len() <= u32::MAX,
            tokens == deep_bytes(toks@),
            out@ + positions_from(tokens, t@, i as int) == spec_positions(tokens, t@),
        decreases toks@.len() - i,
    {
        let ghost pre = out@;
        proof {
            assert(tokens[i as int] == toks@[i as int]@);
        }
        if crate::schema::bytes_eq(&toks[i], t) {
            out.push(i as u32);
            proof {
                assert(out@ =~= pre + seq![i as u32]);
                assert(pre + seq![i as u32] + positions_from(tokens, t@, i as int + 1) =~= pre
                    + positions_from(tokens, t@, i as int));
            }
        } else {
            proof {
                assert(positions_from(tokens, t@, i as int) == positions_from(
                    tokens,
                    t@,
                    i as int + 1,
                ));
            }
        }
        i += 1;
    }
    proof {
        assert(out@ =~= spec_positions(tokens, t@));
    }
    out
}

/// The term frequency of one document.
pub fn term_freq_in_doc(doc: &TantivyDocument, term: &Term) -> (r: u64)
    requires
        doc_wf(doc@),
    ensures
        r == spec_term_freq(doc@, term@),
{
    match &term.value {
        crate::schema::TermValue::Bytes(b) => {
            let toks = field_token_stream(doc, term.field);
            proof {
                lemma_field_tokens_bound(doc@, term.field, 0);
            }
            let positions = positions_in_stream(&toks, b);
            positions.len() as u64
        },
        _ => {
            let mut count: u64 = 0;
            let mut i: usize = 0;
            while i < doc.field_values.len()
                invariant
                    i <= doc.field_values@.len(),
                    doc@.len() == doc.field_values@.len(),
                    count <= i,
                    count + numeric_count_from(doc@, term@, i as int) == numeric_count_from(
                        doc@,
                        term@,
                        0,
                    ),
                decreases doc.field_values@.len() - i,
            {
                let pair = &doc.field_values[i];
                proof {
                    assert(doc@[i as int] == (doc.field_values@[i as int].0,
                    doc.field_values@[i as int].1@));
                }
                let matched = if pair.0.id == term.field.id {
                    match (&pair.1, &term.value) {
                        (Value::U64(a), crate::schema::TermValue::U64(b)) => *a == *b,
                        (Value::I64(a), crate::schema::TermValue::I64(b)) => *a == *b,
                        (Value::FloatBits(a), crate::schema::TermValue::FloatBits(b)) => *a == *b,
                        _ => false,
                    }
                } else {
                    false
                };
                proof {
                    assert(matched == (doc@[i as int].0 == term@.field && numeric_value_matches(
                        doc@[i as int].1,
                        term@.value,
                    )));
                }
                if matched {
                    count += 1;
                }
                i += 1;
            }
            count
        },
    }
}

/// A postings cursor over the matching documents of one segment, with
/// per-document term frequency and (for text terms) token positions.
pub struct SegmentPostings {
    pub docs: Vec<u32>,
    pub freqs: Vec<u64>,
    pub position_lists: Vec<Vec<u32>>,
    pub cursor: usize,
}

impl SegmentPostings {
    /// Lists are aligned and documents strictly increase.
    pub open spec fn wf(self) -> bool {
        &&& self.freqs@.len() == self.docs@.len()
        &&& self.position_lists@.len() == self.docs@.len()
        &&& self.cursor <= self.docs@.len()
        &&& forall|a: int, b: int|
            0 <= a < b < self.docs@.len() ==> self.docs@[a] < self.docs@[b]
        &&& forall|a: int| 0 <= a < self.docs@.len() ==> self.docs@[a] < TERMINATED
    }

    /// The document under the cursor, or `TERMINATED` past the end.
    pub open spec fn spec_doc(self) -> u32 {
        if self.cursor < self.docs@.len() {
            self.docs@[self.cursor as int]
        } else {
            TERMINATED
        }
    }

    pub fn doc(&self) -> (r: u32)
        ensures
            r == self.spec_doc(),
    {
        if self.cursor < self.docs.len() {
            self.docs[self.cursor]
        } else {
            TERMINATED
        }
    }

    /// Moves to the next matching document and returns it, or
    /// `TERMINATED`.
    pub fn advance(&mut self) -> (r: u32)
        requires
            old(self).wf(),
        ensures
            final(self).wf(),
            final(self).docs == old(self).docs,
            final(self).freqs == old(self).freqs,
            final(self).position_lists == old(self).position_lists,
            final(self).cursor == if old(self).cursor < old(self).docs@.len() {
                old(self).cursor + 1
            } else {
                old(self).cursor as int
            },
            r == final(self).spec_doc(),
    {
        if self.cursor < self.docs.len() {
            self.cursor += 1;
        }
        self.doc()
    }

    /// Moves forward to the first matching document at or past `target`
    /// and returns it, or `TERMINATED` when none is left.
    pub fn seek(&mut self, target: u32) -> (r: u32)
        requires
            old(self).wf(),
        ensures
            final(self).wf(),
            final(self).docs == old(self).docs,
            final(self).freqs == old(self).freqs,
            final(self).position_lists == old(self).position_lists,
            old(self).cursor <= final(self).cursor,
            r == final(self).spec_doc(),
            r == TERMINATED || r >= target,
            forall|j: int|
                old(self).cursor <= j < final(self).cursor ==> #[trigger] old(self).docs@[j]
                    < target,
    {
        while self.cursor < self.docs.len() && self.docs[self.cursor] < target
            invariant
                self.wf(),
                self.docs == old(self).docs,
                self.freqs == old(self).freqs,
                self.position_lists == old(self).position_lists,
                old(self).cursor <= self.cursor,
                forall|j: int|
                    old(self).cursor <= j < self.cursor ==> #[trigger] old(self).docs@[j] < target,
            decreases self.docs@.len() - self.cursor,
        {
            self.cursor += 1;
        }
        self.doc()
    }

    /// The term frequency of the document under the cursor.
    pub fn term_freq(&self) -> (r: u64)
        requires
            self.wf(),
            self.cursor < self.docs@.len(),
        ensures
            r == self.freqs@[self.cursor as int],
    {
        self.freqs[self.cursor]
    }

    /// Writes the token positions of the document under the cursor into
    /// `output`.
    pub fn positions(&self, output: &mut Vec<u32>)
        requires
            self.wf(),
            self.cursor < self.docs@.len(),
        ensures
            final(output)@ == self.position_lists@[self.cursor as int]@,
    {
        output.clear();
        let list = &self.position_lists[self.cursor];
        let mut i: usize = 0;
        while i < list.len()
            invariant
                i <= list@.len(),
                list@ == self.position_lists@[self.cursor as int]@,
                output@ == list@.take(i as int),
            decreases list@.len() - i,
        {
            output.push(list[i]);
            proof {
                assert(output@ =~= list@.take(i as int + 1));
            }
            i += 1;
        }
        proof {
            assert(list@.take(list@.len() as int) == list@);
        }
    }
}

/// A segment identifier, assigned from a counter at commit time.
#[derive(Clone, Copy, PartialEq, Eq, Structural, Debug, Hash, PartialOrd, Ord)]
pub struct SegmentId {
    pub raw: u64,
}

#[derive(Clone, Copy, PartialEq, Eq, Structural, Debug)]
pub struct SegmentMeta {
    pub id: SegmentId,
    pub max_doc: u32,
}

/// An immutable list of documents with its metadata.
#[derive(Debug)]
pub struct Segment {
    pub meta: SegmentMeta,
    pub docs: Vec<TantivyDocument>,
}

/// The ghost image of a list of documents.
pub open spec fn docs_view(s: Seq<TantivyDocument>) -> Seq<DocView> {
    s.map_values(|d: TantivyDocument| d@)
}

/// The ghost image of a segment.
pub struct SegmentView {
    pub id: SegmentId,
    pub max_doc: u32,
    pub docs: Seq<DocView>,
}

impl View for Segment {
    type V = SegmentView;

    open spec fn view(&self) -> SegmentView {
        SegmentView { id: self.meta.id, max_doc: self.meta.max_doc, docs: docs_view(self.docs@) }
    }
}

/// The ghost image of a segment list.
pub open spec fn segments_view(s: Seq<Segment>) -> Seq<SegmentView> {
    s.map_values(|g: Segment| g@)
}

/// A well-formed segment: consistent doc count, and documents the index
/// accepts.
pub open spec fn seg_wf(s: SegmentView) -> bool {
    &&& s.max_doc == s.docs.len()
    &&& s.docs.len() <= u32::MAX
    &&& forall|d: int| 0 <= d < s.docs.len() ==> doc_wf(#[trigger] s.docs[d])
}

pub open spec fn segs_wf(ss: Seq<SegmentView>) -> bool {
    &&& ss.len() <= u32::MAX
    &&& forall|i: int| 0 <= i < ss.len() ==> seg_wf(#[trigger] ss[i])
    &&& forall|i: int| 0 <= i < ss.len() ==> (#[trigger] ss[i]).docs.len() >= 1
}

/// With no empty segments, there are never more segments than documents.
pub proof fn lemma_seg_count_le_total(ss: Seq<SegmentView>, i: int)
    requires
        0 <= i <= ss.len(),
        forall|k: int| 0 <= k < ss.len() ==> (#[trigger] ss[k]).docs.len() >= 1,
    ensures
        ss.len() - i <= total_docs_from(ss, i),
    decreases ss.len() - i,
{
    if i < ss.len() {
        lemma_seg_count_le_total(ss, i + 1);
    }
}

/// Total number of documents, from segment `i` on.
pub open spec fn total_docs_from(ss: Seq<SegmentView>, i: int) -> int
    decreases ss.len() - i,
{
    if i < 0 || i >= ss.len() {
        0
    } else {
        ss[i].docs.len() + total_docs_from(ss, i + 1)
    }
}

pub open spec fn total_docs(ss: Seq<SegmentView>) -> int {
    total_docs_from(ss, 0)
}

impl Clone for Segment {
    fn clone(&self) -> (r: Self)
        ensures
            r@ == self@,
    {
        let mut out: Vec<TantivyDocument> = Vec::new();
        let mut i: usize = 0;
        while i < self.docs.len()
            invariant
                i <= self.docs@.len(),
                out@.len() == i,
                forall|j: int| 0 <= j < i ==> (#[trigger] out@[j])@ == self.docs@[j]@,
            decreases self.docs@.len() - i,
        {
            let d = self.docs[i].clone();
            out.push(d);
            i += 1;
        }
        proof {
            assert forall|j: int| 0 <= j < self.docs@.len() implies docs_view(out@)[j] == docs_view(
                self.docs@,
            )[j] by {}
            assert(docs_view(out@) =~= docs_view(self.docs@));
        }
        Segment { meta: self.meta, docs: out }
    }
}

/// Clones a segment list, preserving its ghost image.
fn clone_segments(segs: &Vec<Segment>) -> (r: Vec<Segment>)
    ensures
        segments_view(r@) == segments_view(segs@),
{
    let mut out: Vec<Segment> = Vec::new();
    let mut i: usize = 0;
    while i < segs.len()
        invariant
            i <= segs@.len(),
            out@.len() == i,
            forall|j: int| 0 <= j < i ==> (#[trigger] out@[j])@ == segs@[j]@,
        decreases segs@.len() - i,
    {
        let s = segs[i].clone();
        out.push(s);
        i += 1;
    }
    proof {
        assert forall|j: int| 0 <= j < segs@.len() implies segments_view(out@)[j] == segments_view(
            segs@,
        )[j] by {}
        assert(segments_view(out@) =~= segments_view(segs@));
    }
    out
}

/// What can go wrong inside the index.
#[derive(Clone, Copy, PartialEq, Eq, Structural, Debug)]
pub enum IndexError {
    /// Adding the pending documents would overflow the index's document
    /// or segment-id space.
    IndexFull,
    /// The named field does not exist in the schema.
    FieldNotFound,
    /// The field exists but has the wrong type or is not a columnar
    /// field.
    WrongFieldType,
    /// A merge was asked for without naming any segment.
    NoSegments,
}

/// An in-memory index: a schema and the committed segments.
#[derive(Debug)]
pub struct Index {
    pub schema: Schema,
    pub segments: Vec<Segment>,
    pub next_segment_id: u64,
}

impl Index {
    /// All invariants of a live index.
    pub open spec fn wf(&self) -> bool {
        &&& segs_wf(segments_view(self.segments@))
        &&& total_docs(segments_view(self.segments@)) <= u32::MAX
        &&& self.schema@.len() < u32::MAX
        &&& forall|i: int|
            0 <= i < self.segments@.len() ==> (#[trigger] self.segments@[i])@.id.raw
                < self.next_segment_id
        &&& forall|i: int, j: int|
            0 <= i < j < self.segments@.len() ==> (#[trigger] self.segments@[i])@.id
                != (#[trigger] self.segments@[j])@.id
    }

    pub open spec fn seg_views(&self) -> Seq<SegmentView> {
        segments_view(self.segments@)
    }

    /// A fresh, empty index over a schema.
    pub fn create_in_ram(schema: Schema) -> (r: Index)
        requires
            schema@.len() < u32::MAX,
        ensures
            r.wf(),
            r.schema@ == schema@,
            r.seg_views() == Seq::<SegmentView>::empty(),
            r.next_segment_id == 0,
    {
        let idx = Index { schema, segments: Vec::new(), next_segment_id: 0 };
        proof {
            assert(idx.seg_views() =~= Seq::<SegmentView>::empty());
        }
        idx
    }

    /// A writer with the default (test-sized) memory budget.
    pub fn writer_for_tests(&self) -> (r: IndexWriter)
        ensures
            r.buffer@.len() == 0,
    {
        IndexWriter { buffer: Vec::new() }
    }

    /// A writer; the memory budget is advisory for this in-memory index.
    pub fn writer(&self, _memory_budget: usize) -> (r: IndexWriter)
        ensures
            r.buffer@.len() == 0,
    {
        IndexWriter { buffer: Vec::new() }
    }

    /// A reader holding a snapshot of the committed segments.
    pub fn reader(&self) -> (r: IndexReader)
        requires
            self.wf(),
        ensures
            r.wf(),
            r.schema@ == self.schema@,
            segments_view(r.snapshot@) == self.seg_views(),
    {
        IndexReader { schema: self.schema.clone(), snapshot: clone_segments(&self.segments) }
    }
}

/// Buffers documents until `commit` turns them into a segment.
pub struct IndexWriter {
    pub buffer: Vec<TantivyDocument>,
}

impl IndexWriter {
    pub open spec fn wf(&self) -> bool {
        forall|i: int| 0 <= i < self.buffer@.len() ==> doc_wf((#[trigger] self.buffer@[i])@)
    }

    /// Buffers one document; returns the number of pending documents.
    pub fn add_document(&mut self, doc: TantivyDocument) -> (r: u64)
        requires
            old(self).wf(),
            doc_wf(doc@),
            old(self).buffer@.len() < u64::MAX,
        ensures
            final(self).wf(),
            docs_view(final(self).buffer@) == docs_view(old(self).buffer@).push(doc@),
            r == final(self).buffer@.len(),
    {
        self.buffer.push(doc);
        proof {
            assert(docs_view(self.buffer@) =~= docs_view(old(self).buffer@).push(
                self.buffer@.last()@,
            ));
        }
        self.buffer.len() as u64
    }

    /// Flushes the buffered documents into a new segment of the index.
    /// Succeeds exactly when nothing is pending or the new documents
    /// still fit; a full index is left unchanged.
    pub fn commit(&mut self, index: &mut Index) -> (r: Result<u64, IndexError>)
        requires
            old(self).wf(),
            old(index).wf(),
        ensures
            final(self).wf(),
            final(index).wf(),
            final(index).schema@ == old(index).schema@,
            r is Ok <==> (old(self).buffer@.len() == 0 || (total_docs(old(index).seg_views())
                + old(self).buffer@.len() <= u32::MAX && old(index).next_segment_id < u64::MAX)),
            r is Ok ==> final(self).buffer@.len() == 0,
            r is Ok && old(self).buffer@.len() == 0 ==> final(index).seg_views() == old(
                index,
            ).seg_views(),
            r is Ok && old(self).buffer@.len() > 0 ==> final(index).seg_views() == old(
                index,
            ).seg_views().push(
                SegmentView {
                    id: SegmentId { raw: old(index).next_segment_id },
                    max_doc: old(self).buffer@.len() as u32,
                    docs: docs_view(old(self).buffer@),
                },
            ),
            r is Err ==> final(index).seg_views() == old(index).seg_views() && docs_view(
                final(self).buffer@,
            ) == docs_view(old(self).buffer@) && r == Result::<u64, IndexError>::Err(
                IndexError::IndexFull,
            ),
            final(index).next_segment_id == if r is Ok && old(self).buffer@.len() > 0 {
                old(index).next_segment_id + 1
            } else {
                old(index).next_segment_id as int
            },
    {
        if self.buffer.len() == 0 {
            return Ok(0);
        }
        let pending = self.buffer.len();
        let total = count_total_docs(&index.segments);
        if pending as u64 > (u32::MAX as u64) - total || index.next_segment_id == u64::MAX {
            return Err(IndexError::IndexFull);
        }
        let mut taken: Vec<TantivyDocument> = Vec::new();
        core::mem::swap(&mut self.buffer, &mut taken);
        let seg = Segment {
            meta: SegmentMeta {
                id: SegmentId { raw: index.next_segment_id },
                max_doc: pending as u32,
            },
            docs: taken,
        };
        let ghost old_views = index.seg_views();
        index.segments.push(seg);
        index.next_segment_id = index.next_segment_id + 1;
        proof {
            let nv = index.segments@.last()@;
            assert(index.seg_views() =~= old_views.push(nv));
            lemma_total_docs_push(old_views, nv);
            lemma_seg_count_le_total(old_views, 0);
            assert(nv.docs =~= docs_view(old(self).buffer@));
            assert(nv.docs.len() == pending);
            assert forall|d: int| 0 <= d < nv.docs.len() implies doc_wf(#[trigger] nv.docs[d]) by {
                assert(nv.docs[d] == old(self).buffer@[d]@);
            }
            assert(seg_wf(nv));
            assert forall|k: int| 0 <= k < index.seg_views().len() implies seg_wf(
                #[trigger] index.seg_views()[k],
            ) && index.seg_views()[k].docs.len() >= 1 by {
                if k < old_views.len() {
                    assert(index.seg_views()[k] == old_views[k]);
                }
            }
            assert(segs_wf(index.seg_views()));
        }
        Ok(pending as u64)
    }
}

/// Sum of document counts, computed.
fn count_total_docs(segs: &Vec<Segment>) -> (r: u64)
    requires
        segs_wf(segments_view(segs@)),
        total_docs(segments_view(segs@)) <= u32::MAX,
    ensures
        r == total_docs(segments_view(segs@)),
{
    let ghost views = segments_view(segs@);
    let mut sum: u64 = 0;
    let mut i: usize = 0;
    proof {
        lemma_total_docs_bounds(views, 0);
    }
    while i < segs.len()
        invariant
            i <= segs@.len(),
            views == segments_view(segs@),
            segs_wf(views),
            sum + total_docs_from(views, i as int) == total_docs(views),
            total_docs(views) <= u32::MAX,
            sum <= u32::MAX,
        decreases segs@.len() - i,
    {
        proof {
            lemma_total_docs_bounds(views, i as int + 1);
            lemma_total_docs_bounds(views, i as int);
        }
        let n = segs[i].docs.len();
        proof {
            assert(views[i as int] == segs@[i as int]@);
        }
        sum = sum + (n as u64);
        i += 1;
    }
    sum
}

/// Every suffix sum is nonnegative and bounded by the whole.
pub proof fn lemma_total_docs_bounds(ss: Seq<SegmentView>, i: int)
    requires
        0 <= i <= ss.len(),
    ensures
        0 <= total_docs_from(ss, i),
        total_docs_from(ss, i) <= total_docs(ss) || i == 0,
    decreases ss.len(),
{
    lemma_total_docs_nonneg(ss, i);
    if i > 0 {
        lemma_total_docs_prefix(ss, 0, i);
    }
}

proof fn lemma_total_docs_nonneg(ss: Seq<SegmentView>, i: int)
    ensures
        0 <= total_docs_from(ss, i),
    decreases ss.len() - i,
{
    if 0 <= i < ss.len() {
        lemma_total_docs_nonneg(ss, i + 1);
    }
}

proof fn lemma_total_docs_prefix(ss: Seq<SegmentView>, i: int, j: int)
    requires
        0 <= i <= j <= ss.len(),
    ensures
        total_docs_from(ss, j) <= total_docs_from(ss, i),
    decreases j - i,
{
    if i < j {
        lemma_total_docs_nonneg(ss, i);
        lemma_total_docs_prefix(ss, i + 1, j);
    }
}

/// Appending a segment adds its documents to the total.
pub proof fn lemma_total_docs_push(ss: Seq<SegmentView>, s: SegmentView)
    ensures
        total_docs(ss.push(s)) == total_docs(ss) + s.docs.len(),
    decreases ss.len(),
{
    lemma_total_docs_push_from(ss, s, 0);
}

proof fn lemma_total_docs_push_from(ss: Seq<SegmentView>, s: SegmentView, i: int)
    requires
        0 <= i <= ss.len(),
    ensures
        total_docs_from(ss.push(s), i) == total_docs_from(ss, i) + s.docs.len(),
    decreases ss.len() - i,
{
    if i < ss.len() {
        lemma_total_docs_push_from(ss, s, i + 1);
        assert(ss.push(s)[i] == ss[i]);
    } else {
        assert(ss.push(s)[i] == s);
        assert(total_docs_from(ss.push(s), i) == s.docs.len() + total_docs_from(
            ss.push(s),
            i + 1,
        ));
    }
}

/// A reader: a snapshot of the segments at the last `reload` (or at
/// creation).
pub struct IndexReader {
    pub schema: Schema,
    pub snapshot: Vec<Segment>,
}

impl IndexReader {
    pub open spec fn wf(&self) -> bool {
        &&& segs_wf(segments_view(self.snapshot@))
        &&& total_docs(segments_view(self.snapshot@)) <= u32::MAX
        &&& self.schema@.len() < u32::MAX
    }

    /// Refreshes the snapshot from the index.
    pub fn reload(&mut self, index: &Index)
        requires
            old(self).wf(),
            index.wf(),
        ensures
            final(self).wf(),
            final(self).schema@ == old(self).schema@,
            segments_view(final(self).snapshot@) == index.seg_views(),
    {
        self.snapshot = clone_segments(&index.segments);
    }

    /// A searcher over the snapshot.
    pub fn searcher(&self) -> (r: Searcher<'_>)
        ensures
            r.schema@ == self.schema@,
            segments_view(r.segments@) == segments_view(self.snapshot@),
    {
        Searcher { schema: &self.schema, segments: &self.snapshot }
    }
}

/// A disjunction of exact terms.
pub struct BooleanQuery {
    pub terms: Vec<Term>,
}

/// The ghost image of a term list.
pub open spec fn terms_view(s: Seq<Term>) -> Seq<TermView> {
    s.map_values(|t: Term| t@)
}

impl BooleanQuery {
    /// A query matching any document that contains at least one of the
    /// terms.
    pub fn new_multiterms_query(terms: Vec<Term>) -> (r: BooleanQuery)
        ensures
            terms_view(r.terms@) == terms_view(terms@),
    {
        BooleanQuery { terms }
    }
}

/// The address of a document: segment ordinal in the searcher's list,
/// and document id within the segment.
#[derive(Clone, Copy, PartialEq, Eq, Structural, Debug, Hash, PartialOrd, Ord)]
pub struct DocAddress {
    pub segment_ord: u32,
    pub doc_id: u32,
}

impl DocAddress {
    pub fn new(segment_ord: u32, doc_id: u32) -> (r: DocAddress)
        ensures
            r.segment_ord == segment_ord,
            r.doc_id == doc_id,
    {
        DocAddress { segment_ord, doc_id }
    }
}

/// Whether a document matches at least one of the terms.
pub open spec fn any_term_matches(doc: DocView, terms: Seq<TermView>) -> bool {
    exists|k: int| 0 <= k < terms.len() && doc_matches(doc, terms[k])
}

/// The matching documents of one segment, from document `di` on.
pub open spec fn seg_results_from(
    docs: Seq<DocView>,
    terms: Seq<TermView>,
    si: u32,
    di: int,
) -> Seq<DocAddress>
    decreases docs.len() - di,
{
    if di < 0 || di >= docs.len() {
        Seq::empty()
    } else if any_term_matches(docs[di], terms) {
        seq![DocAddress { segment_ord: si, doc_id: di as u32 }] + seg_results_from(
            docs,
            terms,
            si,
            di + 1,
        )
    } else {
        seg_results_from(docs, terms, si, di + 1)
    }
}

/// All matching document addresses, in (segment, document) order, from
/// segment `si` on.
pub open spec fn results_from(ss: Seq<SegmentView>, terms: Seq<TermView>, si: int) -> Seq<
    DocAddress,
>
    decreases ss.len() - si,
{
    if si < 0 || si >= ss.len() {
        Seq::empty()
    } else {
        seg_results_from(ss[si].docs, terms, si as u32, 0) + results_from(ss, terms, si + 1)
    }
}

pub open spec fn spec_search(ss: Seq<SegmentView>, terms: Seq<TermView>) -> Seq<DocAddress> {
    results_from(ss, terms, 0)
}

/// Whether the document matches any query term, computed.
fn doc_matches_any(doc: &TantivyDocument, terms: &Vec<Term>) -> (r: bool)
    requires
        doc_wf(doc@),
    ensures
        r == any_term_matches(doc@, terms_view(terms@)),
{
    let mut k: usize = 0;
    while k < terms.len()
        invariant
            k <= terms@.len(),
            doc_wf(doc@),
            forall|j: int| 0 <= j < k ==> !doc_matches(doc@, terms_view(terms@)[j]),
        decreases terms@.len() - k,
    {
        proof {
            assert(terms_view(terms@)[k as int] == terms@[k as int]@);
        }
        let f = term_freq_in_doc(doc, &terms[k]);
        if f > 0 {
            return true;
        }
        k += 1;
    }
    false
}

/// A searcher over a snapshot: all queries see the same segment list.
pub struct Searcher<'a> {
    pub schema: &'a Schema,
    pub segments: &'a Vec<Segment>,
}

impl<'a> Searcher<'a> {
    pub open spec fn wf(&self) -> bool {
        &&& segs_wf(segments_view(self.segments@))
        &&& total_docs(segments_view(self.segments@)) <= u32::MAX
        &&& self.schema@.len() < u32::MAX
    }

    /// Number of documents across all segments of the snapshot.
    pub fn num_docs(&self) -> (r: u64)
        requires
            self.wf(),
        ensures
            r == total_docs(segments_view(self.segments@)),
    {
        count_total_docs(self.segments)
    }

    /// How many documents contain the term.
    pub fn doc_freq(&self, term: &Term) -> (r: u64)
        requires
            self.wf(),
        ensures
            r == spec_doc_freq(segments_view(self.segments@), term@),
    {
        let ghost views = segments_view(self.segments@);
        let mut sum: u64 = 0;
        let mut i: usize = 0;
        proof {
            lemma_doc_freq_bounds(views, term@, 0);
        }
        while i < self.segments.len()
            invariant
                i <= self.segments@.len(),
                views == segments_view(self.segments@),
                segs_wf(views),
                total_docs(views) <= u32::MAX,
                sum + doc_freq_from(views, term@, i as int) == spec_doc_freq(views, term@),
                sum <= total_docs(views) - total_docs_from(views, i as int),
            decreases self.segments@.len() - i,
        {
            let seg = &self.segments[i];
            proof {
                assert(views[i as int] == self.segments@[i as int]@);
                lemma_total_docs_bounds(views, i as int);
                lemma_total_docs_nonneg_pub(views, i as int + 1);
            }
            let c = seg_match_count(seg, term);
            sum = sum + c;
            i += 1;
        }
        sum
    }

    /// A reader for one segment of the snapshot.
    pub fn segment_reader(&self, ord: u32) -> (r: SegmentReader<'a>)
        requires
            ord < self.segments@.len(),
        ensures
            r.segment@ == segments_view(self.segments@)[ord as int],
            r.schema@ == self.schema@,
    {
        let seg = &self.segments[ord as usize];
        proof {
            assert(segments_view(self.segments@)[ord as int] == self.segments@[ord as int]@);
        }
        SegmentReader { segment: seg, schema: self.schema }
    }

    /// All documents matching at least one query term, in address order.
    pub fn search(&self, query: &BooleanQuery) -> (r: Vec<DocAddress>)
        requires
            self.wf(),
        ensures
            r@ == spec_search(segments_view(self.segments@), terms_view(query.terms@)),
    {
        let ghost views = segments_view(self.segments@);
        let ghost terms = terms_view(query.terms@);
        let mut out: Vec<DocAddress> = Vec::new();
        let mut si: usize = 0;
        proof {
            assert(out@ + results_from(views, terms, 0) =~= spec_search(views, terms));
        }
        while si < self.segments.len()
            invariant
                si <= self.segments@.len(),
                self.segments@.len() <= u32::MAX,
                views == segments_view(self.segments@),
                terms == terms_view(query.terms@),
                segs_wf(views),
                out@ + results_from(views, terms, si as int) == spec_search(views, terms),
            decreases self.segments@.len() - si,
        {
            let seg = &self.segments[si];
            proof {
                assert(views[si as int] == self.segments@[si as int]@);
            }
            let mut di: usize = 0;
            while di < seg.docs.len()
                invariant
                    di <= seg.docs@.len(),
                    seg.docs@.len() <= u32::MAX,
                    si < self.segments@.len(),
                    self.segments@.len() <= u32::MAX,
                    views == segments_view(self.segments@),
                    terms == terms_view(query.terms@),
                    segs_wf(views),
                    seg@ == views[si as int],
                    out@ + seg_results_from(seg@.docs, terms, si as u32, di as int)
                        + results_from(views, terms, si as int + 1) == spec_search(views, terms),
                decreases seg.docs@.len() - di,
            {
                let ghost pre = out@;
                let doc = &seg.docs[di];
                proof {
                    assert(seg@.docs[di as int] == seg.docs@[di as int]@);
                    assert(doc_wf(doc@));
                }
                if doc_matches_any(doc, &query.terms) {
                    out.push(DocAddress { segment_ord: si as u32, doc_id: di as u32 });
                    proof {
                        assert(out@ =~= pre + seq![
                            DocAddress { segment_ord: si as u32, doc_id: di as u32 },
                        ]);
                        assert(pre + seq![
                            DocAddress { segment_ord: si as u32, doc_id: di as u32 },
                        ] + seg_results_from(seg@.docs, terms, si as u32, di as int + 1)
                            + results_from(views, terms, si as int + 1) =~= pre
                            + seg_results_from(seg@.docs, terms, si as u32, di as int)
                            + results_from(views, terms, si as int + 1));
                    }
                } else {
                    proof {
                        assert(seg_results_from(seg@.docs, terms, si as u32, di as int)
                            == seg_results_from(seg@.docs, terms, si as u32, di as int + 1));
                    }
                }
                di += 1;
            }
            proof {
                assert(seg_results_from(seg@.docs, terms, si as u32, seg.docs@.len() as int)
                    =~= Seq::<DocAddress>::empty());
                assert(out@ + results_from(views, terms, si as int + 1) =~= out@ + (
                seg_results_from(seg@.docs, terms, si as u32, seg.docs@.len() as int)
                    + results_from(views, terms, si as int + 1)));
            }
            si += 1;
        }
        proof {
            assert(out@ =~= spec_search(views, terms));
        }
        out
    }
}

/// How many documents of one segment match, from document `di` on.
pub open spec fn seg_match_count_from(docs: Seq<DocView>, term: TermView, di: int) -> int
    decreases docs.len() - di,
{
    if di < 0 || di >= docs.len() {
        0
    } else {
        (if doc_matches(docs[di], term) {
            1int
        } else {
            0int
        }) + seg_match_count_from(docs, term, di + 1)
    }
}

/// Document frequency of a term, summed over segments from `si` on.
pub open spec fn doc_freq_from(ss: Seq<SegmentView>, term: TermView, si: int) -> int
    decreases ss.len() - si,
{
    if si < 0 || si >= ss.len() {
        0
    } else {
        seg_match_count_from(ss[si].docs, term, 0) + doc_freq_from(ss, term, si + 1)
    }
}

pub open spec fn spec_doc_freq(ss: Seq<SegmentView>, term: TermView) -> int {
    doc_freq_from(ss, term, 0)
}

pub proof fn lemma_total_docs_nonneg_pub(ss: Seq<SegmentView>, i: int)
    ensures
        0 <= total_docs_from(ss, i),
    decreases ss.len() - i,
{
    if 0 <= i < ss.len() {
        lemma_total_docs_nonneg_pub(ss, i + 1);
    }
}

/// Per-segment match counts are bounded by the segment's size.
proof fn lemma_seg_match_count_bounds(docs: Seq<DocView>, term: TermView, di: int)
    requires
        0 <= di <= docs.len(),
    ensures
        0 <= seg_match_count_from(docs, term, di) <= docs.len() - di,
    decreases docs.len() - di,
{
    if di < docs.len() {
        lemma_seg_match_count_bounds(docs, term, di + 1);
    }
}

/// Document frequency from `si` on is bounded by the remaining documents.
proof fn lemma_doc_freq_bounds(ss: Seq<SegmentView>, term: TermView, si: int)
    requires
        0 <= si <= ss.len(),
    ensures
        0 <= doc_freq_from(ss, term, si) <= total_docs_from(ss, si),
    decreases ss.len() - si,
{
    if si < ss.len() {
        lemma_doc_freq_bounds(ss, term, si + 1);
        lemma_seg_match_count_bounds(ss[si].docs, term, 0);
    }
}

/// Count of matching documents in one segment, computed.
fn seg_match_count(seg: &Segment, term: &Term) -> (r: u64)
    requires
        seg_wf(seg@),
    ensures
        r == seg_match_count_from(seg@.docs, term@, 0),
        r <= seg@.docs.len(),
{
    let mut count: u64 = 0;
    let mut di: usize = 0;
    proof {
        lemma_seg_match_count_bounds(seg@.docs, term@, 0);
    }
    while di < seg.docs.len()
        invariant
            di <= seg.docs@.len(),
            seg_wf(seg@),
            seg@.docs.len() == seg.docs@.len(),
            count <= di,
            count + seg_match_count_from(seg@.docs, term@, di as int) == seg_match_count_from(
                seg@.docs,
                term@,
                0,
            ),
        decreases seg.docs@.len() - di,
    {
        let doc = &seg.docs[di];
        proof {
            assert(seg@.docs[di as int] == seg.docs@[di as int]@);
            lemma_seg_match_count_bounds(seg@.docs, term@, di as int + 1);
        }
        let f = term_freq_in_doc(doc, term);
        if f > 0 {
            count += 1;
        }
        di += 1;
    }
    proof {
        lemma_seg_match_count_bounds(seg@.docs, term@, 0);
    }
    count
}

/// A view over one segment.
pub struct SegmentReader<'a> {
    pub segment: &'a Segment,
    pub schema: &'a Schema,
}

impl<'a> SegmentReader<'a> {
    pub fn max_doc(&self) -> (r: u32)
        ensures
            r == self.segment@.max_doc,
    {
        self.segment.meta.max_doc
    }

    /// The per-field postings reader.
    pub fn inverted_index(&self, field: Field) -> (r: InvertedIndexReader<'a>)
        ensures
            r.segment@ == self.segment@,
            r.field == field,
    {
        InvertedIndexReader { segment: self.segment, field }
    }
}

/// Reads the postings of one field of one segment.
pub struct InvertedIndexReader<'a> {
    pub segment: &'a Segment,
    pub field: Field,
}

/// Matching document ids of one segment for one term, ascending, from
/// document `di` on.
pub open spec fn matching_docs_from(docs: Seq<DocView>, term: TermView, di: int) -> Seq<u32>
    decreases docs.len() - di,
{
    if di < 0 || di >= docs.len() {
        Seq::empty()
    } else if doc_matches(docs[di], term) {
        seq![di as u32] + matching_docs_from(docs, term, di + 1)
    } else {
        matching_docs_from(docs, term, di + 1)
    }
}

/// Matching document ids are in range and strictly increasing.
pub proof fn lemma_matching_docs_props(docs: Seq<DocView>, term: TermView, di: int)
    requires
        0 <= di,
        docs.len() <= u32::MAX,
    ensures
        forall|k: int|
            0 <= k < matching_docs_from(docs, term, di).len() ==> di <= #[trigger] matching_docs_from(
                docs,
                term,
                di,
            )[k] < docs.len(),
        forall|a: int, b: int|
            0 <= a < b < matching_docs_from(docs, term, di).len() ==> matching_docs_from(
                docs,
                term,
                di,
            )[a] < matching_docs_from(docs, term, di)[b],
    decreases docs.len() - di,
{
    if di < docs.len() {
        lemma_matching_docs_props(docs, term, di + 1);
        let rest = matching_docs_from(docs, term, di + 1);
        let whole = matching_docs_from(docs, term, di);
        if doc_matches(docs[di], term) {
            assert(whole == seq![di as u32] + rest);
            assert forall|k: int| 0 <= k < whole.len() implies di <= #[trigger] whole[k]
                < docs.len() by {
                if k == 0 {
                    assert(whole[0] == di as u32);
                } else {
                    assert(whole[k] == rest[k - 1]);
                }
            }
            assert forall|a: int, b: int| 0 <= a < b < whole.len() implies whole[a] < whole[b]
                by {
                assert(whole[b] == rest[b - 1]);
                assert(di + 1 <= rest[b - 1]);
                if a == 0 {
                    assert(whole[0] == di as u32);
                } else {
                    assert(whole[a] == rest[a - 1]);
                }
            }
        } else {
            assert(whole == rest);
            assert forall|k: int| 0 <= k < whole.len() implies di <= #[trigger] whole[k]
                < docs.len() by {
                assert(whole[k] == rest[k]);
            }
        }
    }
}

/// What a postings option asks the reader to materialize. This in-memory
/// reader always keeps frequencies and positions at hand.
#[derive(Clone, Copy, PartialEq, Eq, Structural, Debug)]
pub enum IndexRecordOption {
    Basic,
    WithFreqs,
    WithFreqsAndPositions,
}

impl<'a> InvertedIndexReader<'a> {
    /// The postings of a term: `None` when no document of the segment
    /// contains it, otherwise a cursor positioned on the first matching
    /// document.
    pub fn read_postings(&self, term: &Term, _option: IndexRecordOption) -> (r: Option<
        SegmentPostings,
    >)
        requires
            seg_wf(self.segment@),
            term@.field == self.field,
        ensures
            match r {
                Some(p) => {
                    &&& p.wf()
                    &&& p.cursor == 0
                    &&& p.docs@ == matching_docs_from(self.segment@.docs, term@, 0)
                    &&& p.docs@.len() > 0
                    &&& forall|j: int|
                        0 <= j < p.docs@.len() ==> #[trigger] p.freqs@[j] == spec_term_freq(
                            self.segment@.docs[p.docs@[j] as int],
                            term@,
                        )
                    &&& forall|j: int|
                        0 <= j < p.docs@.len() ==> (#[trigger] p.position_lists@[j])@
                            == spec_term_positions(self.segment@.docs[p.docs@[j] as int], term@)
                },
                None => matching_docs_from(self.segment@.docs, term@, 0) == Seq::<u32>::empty(),
            },
    {
        let ghost docs = self.segment@.docs;
        let mut out_docs: Vec<u32> = Vec::new();
        let mut out_freqs: Vec<u64> = Vec::new();
        let mut out_positions: Vec<Vec<u32>> = Vec::new();
        let mut di: usize = 0;
        proof {
            assert(out_docs@ + matching_docs_from(docs, term@, 0) =~= matching_docs_from(
                docs,
                term@,
                0,
            ));
        }
        while di < self.segment.docs.len()
            invariant
                di <= self.segment.docs@.len(),
                docs == self.segment@.docs,
                docs.len() == self.segment.docs@.len(),
                seg_wf(self.segment@),
                out_docs@ + matching_docs_from(docs, term@, di as int) == matching_docs_from(
                    docs,
                    term@,
                    0,
                ),
                out_freqs@.len() == out_docs@.len(),
                out_positions@.len() == out_docs@.len(),
                forall|j: int|
                    0 <= j < out_docs@.len() ==> #[trigger] out_docs@[j] < di,
                forall|j: int|
                    0 <= j < out_docs@.len() ==> #[trigger] out_freqs@[j] == spec_term_freq(
                        docs[out_docs@[j] as int],
                        term@,
                    ),
                forall|j: int|
                    0 <= j < out_docs@.len() ==> (#[trigger] out_positions@[j])@
                        == spec_term_positions(docs[out_docs@[j] as int], term@),
            decreases self.segment.docs@.len() - di,
        {
            let ghost pre = out_docs@;
            let doc = &self.segment.docs[di];
            proof {
                assert(docs[di as int] == self.segment.docs@[di as int]@);
                assert(doc_wf(doc@));
            }
            let f = term_freq_in_doc(doc, term);
            if f > 0 {
                out_docs.push(di as u32);
                out_freqs.push(f);
                let plist = term_positions_in_doc(doc, term);
                out_positions.push(plist);
                proof {
                    assert(out_docs@ =~= pre + seq![di as u32]);
                    assert(pre + seq![di as u32] + matching_docs_from(docs, term@, di as int + 1)
                        =~= pre + matching_docs_from(docs, term@, di as int));
                }
            } else {
                proof {
                    assert(matching_docs_from(docs, term@, di as int) == matching_docs_from(
                        docs,
                        term@,
                        di as int + 1,
                    ));
                }
            }
            di += 1;
        }
        proof {
            assert(out_docs@ =~= matching_docs_from(docs, term@, 0));
            lemma_matching_docs_props(docs, term@, 0);
        }
        if out_docs.len() == 0 {
            None
        } else {
            Some(
                SegmentPostings {
                    docs: out_docs,
                    freqs: out_freqs,
                    position_lists: out_positions,
                    cursor: 0,
                },
            )
        }
    }
}

/// The token positions a text term matches in a document; empty for a
/// numeric term.
pub open spec fn spec_term_positions(doc: DocView, term: TermView) -> Seq<u32> {
    match term.value {
        TermValueView::Bytes(b) => spec_positions(field_tokens(doc, term.field), b),
        _ => Seq::empty(),
    }
}

/// The positions of a term within one document, computed.
fn term_positions_in_doc(doc: &TantivyDocument, term: &Term) -> (r: Vec<u32>)
    requires
        doc_wf(doc@),
    ensures
        r@ == spec_term_positions(doc@, term@),
{
    match &term.value {
        crate::schema::TermValue::Bytes(b) => {
            let toks = field_token_stream(doc, term.field);
            proof {
                lemma_field_tokens_bound(doc@, term.field, 0);
            }
            positions_in_stream(&toks, b)
        },
        _ => {
            let r: Vec<u32> = Vec::new();
            proof {
                assert(r@ =~= spec_term_positions(doc@, term@));
            }
            r
        },
    }
}

/// Per-document token counts of one field, used for length-normalized
/// scoring.
pub struct FieldNormReader {
    pub norms: Vec<u32>,
}

/// The compressed id of a fieldnorm: the norm itself for small counts,
/// saturated at 255.
pub open spec fn norm_to_id(n: u32) -> u8 {
    if n < 256 {
        n as u8
    } else {
        255
    }
}

impl FieldNormReader {
    /// The token count of the field in one document.
    pub fn fieldnorm(&self, doc_id: u32) -> (r: u32)
        requires
            doc_id < self.norms@.len(),
        ensures
            r == self.norms@[doc_id as int],
    {
        self.norms[doc_id as usize]
    }

    /// The bucketed id of the token count.
    pub fn fieldnorm_id(&self, doc_id: u32) -> (r: u8)
        requires
            doc_id < self.norms@.len(),
        ensures
            r == norm_to_id(self.norms@[doc_id as int]),
    {
        let n = self.norms[doc_id as usize];
        if n < 256 {
            n as u8
        } else {
            255
        }
    }
}

/// A columnar field: the first value of the field per document, if any.
pub struct Column<T> {
    pub values: Vec<Option<T>>,
}

impl<T: Copy> Column<T> {
    /// The value of one document.
    pub fn first(&self, doc_id: u32) -> (r: Option<T>)
        requires
            doc_id < self.values@.len(),
        ensures
            r == self.values@[doc_id as int],
    {
        self.values[doc_id as usize]
    }
}

/// The first `u64` value of a field in a document, from entry `i` on.
pub open spec fn first_u64_from(doc: DocView, f: Field, i: int) -> Option<u64>
    decreases doc.len() - i,
{
    if i < 0 || i >= doc.len() {
        None
    } else if doc[i].0 == f && doc[i].1 is U64 {
        Some(doc[i].1->U64_0)
    } else {
        first_u64_from(doc, f, i + 1)
    }
}

/// The first `i64` value of a field in a document, from entry `i` on.
pub open spec fn first_i64_from(doc: DocView, f: Field, i: int) -> Option<i64>
    decreases doc.len() - i,
{
    if i < 0 || i >= doc.len() {
        None
    } else if doc[i].0 == f && doc[i].1 is I64 {
        Some(doc[i].1->I64_0)
    } else {
        first_i64_from(doc, f, i + 1)
    }
}

/// The first float-bits value of a field in a document, from entry `i`
/// on.
pub open spec fn first_float_bits_from(doc: DocView, f: Field, i: int) -> Option<u64>
    decreases doc.len() - i,
{
    if i < 0 || i >= doc.len() {
        None
    } else if doc[i].0 == f && doc[i].1 is FloatBits {
        Some(doc[i].1->FloatBits_0)
    } else {
        first_float_bits_from(doc, f, i + 1)
    }
}

fn first_u64_in_doc(doc: &TantivyDocument, f: Field) -> (r: Option<u64>)
    ensures
        r == first_u64_from(doc@, f, 0),
{
    let mut i: usize = 0;
    while i < doc.field_values.len()
        invariant
            i <= doc.field_values@.len(),
            doc@.len() == doc.field_values@.len(),
            first_u64_from(doc@, f, i as int) == first_u64_from(doc@, f, 0),
        decreases doc.field_values@.len() - i,
    {
        let pair = &doc.field_values[i];
        proof {
            assert(doc@[i as int] == (doc.field_values@[i as int].0,
            doc.field_values@[i as int].1@));
        }
        if pair.0.id == f.id {
            if let Value::U64(v) = &pair.1 {
                proof {
                    assert(pair.0 == f);
                }
                return Some(*v);
            }
        }
        i += 1;
    }
    None
}

fn first_i64_in_doc(doc: &TantivyDocument, f: Field) -> (r: Option<i64>)
    ensures
        r == first_i64_from(doc@, f, 0),
{
    let mut i: usize = 0;
    while i < doc.field_values.len()
        invariant
            i <= doc.field_values@.len(),
            doc@.len() == doc.field_values@.len(),
            first_i64_from(doc@, f, i as int) == first_i64_from(doc@, f, 0),
        decreases doc.field_values@.len() - i,
    {
        let pair = &doc.field_values[i];
        proof {
            assert(doc@[i as int] == (doc.field_values@[i as int].0,
            doc.field_values@[i as int].1@));
        }
        if pair.0.id == f.id {
            if let Value::I64(v) = &pair.1 {
                proof {
                    assert(pair.0 == f);
                }
                return Some(*v);
            }
        }
        i += 1;
    }
    None
}

fn first_float_bits_in_doc(doc: &TantivyDocument, f: Field) -> (r: Option<u64>)
    ensures
        r == first_float_bits_from(doc@, f, 0),
{
    let mut i: usize = 0;
    while i < doc.field_values.len()
        invariant
            i <= doc.field_values@.len(),
            doc@.len() == doc.field_values@.len(),
            first_float_bits_from(doc@, f, i as int) == first_float_bits_from(doc@, f, 0),
        decreases doc.field_values@.len() - i,
    {
        let pair = &doc.field_values[i];
        proof {
            assert(doc@[i as int] == (doc.field_values@[i as int].0,
            doc.field_values@[i as int].1@));
        }
        if pair.0.id == f.id {
            if let Value::FloatBits(v) = &pair.1 {
                proof {
                    assert(pair.0 == f);
                }
                return Some(*v);
            }
        }
        i += 1;
    }
    None
}

/// Whether the schema lets this field be read as a column of the given
/// kind.
pub open spec fn column_lookup(
    schema: Seq<FieldEntryView>,
    name: Seq<u8>,
    kind: FieldKind,
) -> Result<int, IndexError> {
    match crate::schema::spec_find_field(schema, name, 0) {
        Some(fi) => if schema[fi].kind == kind && schema[fi].option == IndexingOption::Column {
            Ok(fi)
        } else {
            Err(IndexError::WrongFieldType)
        },
        None => Err(IndexError::FieldNotFound),
    }
}

/// Columnar access to one segment.
pub struct ColumnFieldReaders<'a> {
    pub segment: &'a Segment,
    pub schema: &'a Schema,
}

impl<'a> SegmentReader<'a> {
    /// The per-document token counts of a field. A document without the
    /// field has norm zero.
    pub fn get_fieldnorms_reader(&self, field: Field) -> (r: FieldNormReader)
        requires
            seg_wf(self.segment@),
        ensures
            r.norms@.len() == self.segment@.docs.len(),
            forall|d: int|
                0 <= d < self.segment@.docs.len() ==> #[trigger] r.norms@[d] == field_tokens(
                    self.segment@.docs[d],
                    field,
                ).len(),
    {
        let mut norms: Vec<u32> = Vec::new();
        let mut d: usize = 0;
        while d < self.segment.docs.len()
            invariant
                d <= self.segment.docs@.len(),
                seg_wf(self.segment@),
                self.segment@.docs.len() == self.segment.docs@.len(),
                norms@.len() == d,
                forall|j: int|
                    0 <= j < d ==> #[trigger] norms@[j] == field_tokens(
                        self.segment@.docs[j],
                        field,
                    ).len(),
            decreases self.segment.docs@.len() - d,
        {
            let doc = &self.segment.docs[d];
            proof {
                assert(self.segment@.docs[d as int] == self.segment.docs@[d as int]@);
                assert(doc_wf(doc@));
                lemma_field_tokens_bound(doc@, field, 0);
            }
            let toks = field_token_stream(doc, field);
            norms.push(toks.len() as u32);
            d += 1;
        }
        FieldNormReader { norms }
    }

    pub fn column_fields(&self) -> (r: ColumnFieldReaders<'a>)
        ensures
            r.segment@ == self.segment@,
            r.schema@ == self.schema@,
    {
        ColumnFieldReaders { segment: self.segment, schema: self.schema }
    }
}

impl<'a> ColumnFieldReaders<'a> {
    /// The `u64` column of a field; an error when the field is missing,
    /// of another kind, or not columnar.
    pub fn u64(&self, name: &str) -> (r: Result<Column<u64>, IndexError>)
        requires
            self.schema@.len() < u32::MAX,
            seg_wf(self.segment@),
        ensures
            match r {
                Ok(col) => {
                    &&& column_lookup(self.schema@, name.spec_bytes(), FieldKind::U64) is Ok
                    &&& col.values@.len() == self.segment@.docs.len()
                    &&& forall|d: int|
                        0 <= d < self.segment@.docs.len() ==> #[trigger] col.values@[d]
                            == first_u64_from(
                            self.segment@.docs[d],
                            Field {
                                id: column_lookup(
                                    self.schema@,
                                    name.spec_bytes(),
                                    FieldKind::U64,
                                )->Ok_0 as u32,
                            },
                            0,
                        )
                },
                Err(e) => column_lookup(self.schema@, name.spec_bytes(), FieldKind::U64)
                    == Result::<int, IndexError>::Err(e),
            },
    {
        let field = match self.schema.get_field(name) {
            Some(f) => f,
            None => {
                return Err(IndexError::FieldNotFound);
            },
        };
        let entry = self.schema.entry(field);
        if !(matches!(entry.kind, FieldKind::U64) && matches!(
            entry.option,
            IndexingOption::Column,
        )) {
            return Err(IndexError::WrongFieldType);
        }
        let mut values: Vec<Option<u64>> = Vec::new();
        let mut d: usize = 0;
        while d < self.segment.docs.len()
            invariant
                d <= self.segment.docs@.len(),
                self.segment@.docs.len() == self.segment.docs@.len(),
                values@.len() == d,
                forall|j: int|
                    0 <= j < d ==> #[trigger] values@[j] == first_u64_from(
                        self.segment@.docs[j],
                        field,
                        0,
                    ),
            decreases self.segment.docs@.len() - d,
        {
            let doc = &self.segment.docs[d];
            proof {
                assert(self.segment@.docs[d as int] == self.segment.docs@[d as int]@);
            }
            let v = first_u64_in_doc(doc, field);
            values.push(v);
            d += 1;
        }
        Ok(Column { values })
    }

    /// The `i64` column of a field.
    pub fn i64(&self, name: &str) -> (r: Result<Column<i64>, IndexError>)
        requires
            self.schema@.len() < u32::MAX,
            seg_wf(self.segment@),
        ensures
            match r {
                Ok(col) => {
                    &&& column_lookup(self.schema@, name.spec_bytes(), FieldKind::I64) is Ok
                    &&& col.values@.len() == self.segment@.docs.len()
                    &&& forall|d: int|
                        0 <= d < self.segment@.docs.len() ==> #[trigger] col.values@[d]
                            == first_i64_from(
                            self.segment@.docs[d],
                            Field {
                                id: column_lookup(
                                    self.schema@,
                                    name.spec_bytes(),
                                    FieldKind::I64,
                                )->Ok_0 as u32,
                            },
                            0,
                        )
                },
                Err(e) => column_lookup(self.schema@, name.spec_bytes(), FieldKind::I64)
                    == Result::<int, IndexError>::Err(e),
            },
    {
        let field = match self.schema.get_field(name) {
            Some(f) => f,
            None => {
                return Err(IndexError::FieldNotFound);
            },
        };
        let entry = self.schema.entry(field);
        if !(matches!(entry.kind, FieldKind::I64) && matches!(
            entry.option,
            IndexingOption::Column,
        )) {
            return Err(IndexError::WrongFieldType);
        }
        let mut values: Vec<Option<i64>> = Vec::new();
        let mut d: usize = 0;
        while d < self.segment.docs.len()
            invariant
                d <= self.segment.docs@.len(),
                self.segment@.docs.len() == self.segment.docs@.len(),
                values@.len() == d,
                forall|j: int|
                    0 <= j < d ==> #[trigger] values@[j] == first_i64_from(
                        self.segment@.docs[j],
                        field,
                        0,
                    ),
            decreases self.segment.docs@.len() - d,
        {
            let doc = &self.segment.docs[d];
            proof {
                assert(self.segment@.docs[d as int] == self.segment.docs@[d as int]@);
            }
            let v = first_i64_in_doc(doc, field);
            values.push(v);
            d += 1;
        }
        Ok(Column { values })
    }

    /// The float column of a field, as the caller-supplied 64-bit
    /// encodings.
    pub fn float_bits(&self, name: &str) -> (r: Result<Column<u64>, IndexError>)
        requires
            self.schema@.len() < u32::MAX,
            seg_wf(self.segment@),
        ensures
            match r {
                Ok(col) => {
                    &&& column_lookup(self.schema@, name.spec_bytes(), FieldKind::Float) is Ok
                    &&& col.values@.len() == self.segment@.docs.len()
                    &&& forall|d: int|
                        0 <= d < self.segment@.docs.len() ==> #[trigger] col.values@[d]
                            == first_float_bits_from(
                            self.segment@.docs[d],
                            Field {
                                id: column_lookup(
                                    self.schema@,
                                    name.spec_bytes(),
                                    FieldKind::Float,
                                )->Ok_0 as u32,
                            },
                            0,
                        )
                },
                Err(e) => column_lookup(self.schema@, name.spec_bytes(), FieldKind::Float)
                    == Result::<int, IndexError>::Err(e),
            },
    {
        let field = match self.schema.get_field(name) {
            Some(f) => f,
            None => {
                return Err(IndexError::FieldNotFound);
            },
        };
        let entry = self.schema.entry(field);
        if !(matches!(entry.kind, FieldKind::Float) && matches!(
            entry.option,
            IndexingOption::Column,
        )) {
            return Err(IndexError::WrongFieldType);
        }
        let mut values: Vec<Option<u64>> = Vec::new();
        let mut d: usize = 0;
        while d < self.segment.docs.len()
            invariant
                d <= self.segment.docs@.len(),
                self.segment@.docs.len() == self.segment.docs@.len(),
                values@.len() == d,
                forall|j: int|
                    0 <= j < d ==> #[trigger] values@[j] == first_float_bits_from(
                        self.segment@.docs[j],
                        field,
                        0,
                    ),
            decreases self.segment.docs@.len() - d,
        {
            let doc = &self.segment.docs[d];
            proof {
                assert(self.segment@.docs[d as int] == self.segment.docs@[d as int]@);
            }
            let v = first_float_bits_in_doc(doc, field);
            values.push(v);
            d += 1;
        }
        Ok(Column { values })
    }
}

/// The library's version record.
#[derive(Clone, Copy, PartialEq, Eq, Structural, Debug)]
pub struct Version {
    pub major: u32,
    pub minor: u32,
    pub patch: u32,
    pub index_format_version: u32,
}

/// The version this build of the index speaks.
pub fn version() -> (r: Version)
    ensures
        r == (Version { major: 0, minor: 1, patch: 0, index_format_version: 1 }),
{
    Version { major: 0, minor: 1, patch: 0, index_format_version: 1 }
}

/// A human-readable rendering of [`version`].
pub fn version_string() -> (r: String)
    ensures
        r@ == "index v0.1.0, index_format v1"@,
{
    let s = "index v0.1.0, index_format v1";
    s.to_owned()
}

/// A token, seen as a text term value.
pub open spec fn tokens_as_terms(ts: Seq<Seq<u8>>) -> Seq<TermValueView> {
    ts.map_values(|t: Seq<u8>| TermValueView::Bytes(t))
}

/// The ghost image of a term-value list.
pub open spec fn term_values_view(s: Seq<TermValue>) -> Seq<TermValueView> {
    s.map_values(|t: TermValue| t@)
}

/// Every term value one entry of a document contributes to a field: the
/// tokens of a text value, or the exact numeric value.
pub open spec fn entry_term_values(e: (Field, ValueView), f: Field) -> Seq<TermValueView> {
    if e.0 == f {
        match e.1 {
            ValueView::Str(b) => tokens_as_terms(spec_tokens(b)),
            ValueView::U64(v) => seq![TermValueView::U64(v)],
            ValueView::I64(v) => seq![TermValueView::I64(v)],
            ValueView::FloatBits(v) => seq![TermValueView::FloatBits(v)],
        }
    } else {
        Seq::empty()
    }
}

/// All term values of a field in one document, from entry `i` on.
pub open spec fn doc_term_values_from(doc: DocView, f: Field, i: int) -> Seq<TermValueView>
    decreases doc.len() - i,
{
    if i < 0 || i >= doc.len() {
        Seq::empty()
    } else {
        entry_term_values(doc[i], f) + doc_term_values_from(doc, f, i + 1)
    }
}

/// All term values of a field in a segment, from document `d` on.
pub open spec fn seg_term_values_from(docs: Seq<DocView>, f: Field, d: int) -> Seq<TermValueView>
    decreases docs.len() - d,
{
    if d < 0 || d >= docs.len() {
        Seq::empty()
    } else {
        doc_term_values_from(docs[d], f, 0) + seg_term_values_from(docs, f, d + 1)
    }
}

/// The number of distinct terms of a field in a segment.
pub open spec fn spec_num_terms(docs: Seq<DocView>, f: Field) -> nat {
    seg_term_values_from(docs, f, 0).to_set().len()
}

/// Compares two term values.
fn term_value_eq(a: &TermValue, b: &TermValue) -> (r: bool)
    ensures
        r == (a@ == b@),
{
    match (a, b) {
        (TermValue::Bytes(x), TermValue::Bytes(y)) => crate::schema::bytes_eq(x, y),
        (TermValue::U64(x), TermValue::U64(y)) => *x == *y,
        (TermValue::I64(x), TermValue::I64(y)) => *x == *y,
        (TermValue::FloatBits(x), TermValue::FloatBits(y)) => *x == *y,
        _ => false,
    }
}

/// Whether a term value occurs in a list.
fn term_values_contain(s: &Vec<TermValue>, x: &TermValue) -> (r: bool)
    ensures
        r == term_values_view(s@).contains(x@),
{
    let mut i: usize = 0;
    while i < s.len()
        invariant
            i <= s@.len(),
            forall|j: int| 0 <= j < i ==> term_values_view(s@)[j] != x@,
        decreases s@.len() - i,
    {
        proof {
            assert(term_values_view(s@)[i as int] == s@[i as int]@);
        }
        if term_value_eq(&s[i], x) {
            proof {
                assert(term_values_view(s@)[i as int] == x@);
            }
            return true;
        }
        i += 1;
    }
    proof {
        assert forall|j: int|
            0 <= j < term_values_view(s@).len() implies term_values_view(s@)[j] != x@ by {}
    }
    false
}

/// Counts the distinct values in a list of term values.
fn count_distinct_term_values(all: Vec<TermValue>) -> (r: usize)
    ensures
        r == term_values_view(all@).to_set().len(),
{
    let ghost whole = term_values_view(all@);
    let mut uniq: Vec<TermValue> = Vec::new();
    let mut i: usize = 0;
    proof {
        assert(term_values_view(uniq@) =~= Seq::<TermValueView>::empty());
        assert(term_values_view(uniq@).to_set() =~= whole.take(0).to_set());
    }
    while i < all.len()
        invariant
            i <= all@.len(),
            whole == term_values_view(all@),
            term_values_view(uniq@).no_duplicates(),
            term_values_view(uniq@).to_set() == whole.take(i as int).to_set(),
        decreases all@.len() - i,
    {
        let ghost uv = term_values_view(uniq@);
        proof {
            assert(whole[i as int] == all@[i as int]@);
            assert(whole.take(i as int + 1) == whole.take(i as int).push(whole[i as int]));
            assert forall|y: TermValueView| whole.take(i as int + 1).to_set().contains(y) implies
                whole.take(i as int).to_set().contains(y) || y == whole[i as int] by {
                let k = choose|k: int|
                    0 <= k < whole.take(i as int + 1).len() && #[trigger] whole.take(
                        i as int + 1,
                    )[k] == y;
                if k < i {
                    assert(whole.take(i as int)[k] == y);
                }
            }
        }
        let x = &all[i];
        if !term_values_contain(&uniq, x) {
            let copied = clone_term_value(x);
            uniq.push(copied);
            proof {
                assert(term_values_view(uniq@) =~= uv.push(whole[i as int]));
                assert(!uv.contains(whole[i as int]));
                assert forall|a: int, b: int|
                    0 <= a < b < term_values_view(uniq@).len() implies term_values_view(uniq@)[a]
                        != term_values_view(uniq@)[b] by {
                    if b < uv.len() {
                        assert(term_values_view(uniq@)[a] == uv[a]);
                        assert(term_values_view(uniq@)[b] == uv[b]);
                    } else {
                        assert(term_values_view(uniq@)[a] == uv[a]);
                        assert(uv.contains(uv[a]));
                    }
                }
                assert(term_values_view(uniq@).to_set() =~= whole.take(i as int + 1).to_set()) by {
                    let x = whole[i as int];
                    assert(uv.push(x).to_set() =~= uv.to_set().insert(x)) by {
                        assert forall|y: TermValueView| uv.push(x).contains(y) implies uv.contains(
                            y,
                        ) || y == x by {
                            let k = choose|k: int|
                                0 <= k < uv.push(x).len() && #[trigger] uv.push(x)[k] == y;
                            if k < uv.len() {
                                assert(uv[k] == y);
                            }
                        }
                        assert forall|y: TermValueView| uv.contains(y) implies uv.push(
                            x,
                        ).contains(y) by {
                            let k = choose|k: int| 0 <= k < uv.len() && #[trigger] uv[k] == y;
                            assert(uv.push(x)[k] == y);
                        }
                        assert(uv.push(x)[uv.len() as int] == x);
                        assert(uv.push(x).contains(x));
                    }
                    assert(whole.take(i as int + 1).to_set() =~= whole.take(
                        i as int,
                    ).to_set().insert(whole[i as int])) by {
                        assert(whole.take(i as int + 1).contains(whole[i as int])) by {
                            assert(whole.take(i as int + 1)[i as int] == whole[i as int]);
                        }
                        assert forall|y: TermValueView|
                            whole.take(i as int).to_set().contains(y) implies whole.take(
                            i as int + 1,
                        ).to_set().contains(y) by {
                            let k = choose|k: int|
                                0 <= k < whole.take(i as int).len() && #[trigger] whole.take(
                                    i as int,
                                )[k] == y;
                            assert(whole.take(i as int + 1)[k] == y);
                        }
                    }
                }
            }
        } else {
            proof {
                assert(uv.to_set().contains(whole[i as int]));
                assert(term_values_view(uniq@).to_set() =~= whole.take(i as int + 1).to_set()) by {
                    assert(whole.take(i as int + 1).contains(whole[i as int])) by {
                        assert(whole.take(i as int + 1)[i as int] == whole[i as int]);
                    }
                    assert forall|y: TermValueView|
                        whole.take(i as int).to_set().contains(y) implies whole.take(
                        i as int + 1,
                    ).to_set().contains(y) by {
                        let k = choose|k: int|
                            0 <= k < whole.take(i as int).len() && #[trigger] whole.take(
                                i as int,
                            )[k] == y;
                        assert(whole.take(i as int + 1)[k] == y);
                    }
                }
            }
        }
        i += 1;
    }
    proof {
        assert(whole.take(whole.len() as int) == whole);
        term_values_view(uniq@).unique_seq_to_set();
    }
    uniq.len()
}

/// Copies a term value.
fn clone_term_value(t: &TermValue) -> (r: TermValue)
    ensures
        r@ == t@,
{
    match t {
        TermValue::Bytes(b) => TermValue::Bytes(b.clone()),
        TermValue::U64(v) => TermValue::U64(*v),
        TermValue::I64(v) => TermValue::I64(*v),
        TermValue::FloatBits(v) => TermValue::FloatBits(*v),
    }
}

/// The term values of a field in one document, computed.
fn doc_term_values(doc: &TantivyDocument, f: Field) -> (r: Vec<TermValue>)
    ensures
        term_values_view(r@) == doc_term_values_from(doc@, f, 0),
{
    let mut out: Vec<TermValue> = Vec::new();
    let mut i: usize = 0;
    proof {
        assert(term_values_view(out@) + doc_term_values_from(doc@, f, 0) =~= doc_term_values_from(
            doc@,
            f,
            0,
        ));
    }
    while i < doc.field_values.len()
        invariant
            i <= doc.field_values@.len(),
            doc@.len() == doc.field_values@.len(),
            term_values_view(out@) + doc_term_values_from(doc@, f, i as int)
                == doc_term_values_from(doc@, f, 0),
        decreases doc.field_values@.len() - i,
    {
        let ghost pre = term_values_view(out@);
        let pair = &doc.field_values[i];
        proof {
            assert(doc@[i as int] == (doc.field_values@[i as int].0,
            doc.field_values@[i as int].1@));
        }
        if pair.0.id == f.id {
            proof {
                assert(pair.0 == f);
            }
            match &pair.1 {
                Value::Str(bytes) => {
                    let toks = tokenize_bytes(bytes);
                    let ghost added = tokens_as_terms(spec_tokens(bytes@));
                    let mut k: usize = 0;
                    proof {
                        assert(added.len() == deep_bytes(toks@).len());
                    }
                    while k < toks.len()
                        invariant
                            k <= toks@.len(),
                            added == tokens_as_terms(deep_bytes(toks@)),
                            added.len() == toks@.len(),
                            term_values_view(out@) == pre + added.take(k as int),
                        decreases toks@.len() - k,
                    {
                        let ghost mid = term_values_view(out@);
                        let tok = toks[k].clone();
                        out.push(TermValue::Bytes(tok));
                        proof {
                            assert(term_values_view(out@) =~= mid.push(
                                TermValueView::Bytes(toks@[k as int]@),
                            ));
                            assert(added[k as int] == TermValueView::Bytes(
                                deep_bytes(toks@)[k as int],
                            ));
                            assert(mid.push(added[k as int]) =~= pre + added.take(k as int + 1));
                        }
                        k += 1;
                    }
                    proof {
                        assert(added.take(added.len() as int) == added);
                        assert(entry_term_values(doc@[i as int], f) == added);
                        assert(term_values_view(out@) + doc_term_values_from(doc@, f, i as int + 1)
                            =~= pre + (entry_term_values(doc@[i as int], f)
                            + doc_term_values_from(doc@, f, i as int + 1)));
                    }
                },
                Value::U64(v) => {
                    out.push(TermValue::U64(*v));
                    proof {
                        assert(term_values_view(out@) =~= pre + seq![TermValueView::U64(
                            doc@[i as int].1->U64_0,
                        )]);
                        assert(term_values_view(out@) + doc_term_values_from(doc@, f, i as int + 1)
                            =~= pre + doc_term_values_from(doc@, f, i as int));
                    }
                },
                Value::I64(v) => {
                    out.push(TermValue::I64(*v));
                    proof {
                        assert(term_values_view(out@) =~= pre + seq![TermValueView::I64(
                            doc@[i as int].1->I64_0,
                        )]);
                        assert(term_values_view(out@) + doc_term_values_from(doc@, f, i as int + 1)
                            =~= pre + doc_term_values_from(doc@, f, i as int));
                    }
                },
                Value::FloatBits(v) => {
                    out.push(TermValue::FloatBits(*v));
                    proof {
                        assert(term_values_view(out@) =~= pre + seq![TermValueView::FloatBits(
                            doc@[i as int].1->FloatBits_0,
                        )]);
                        assert(term_values_view(out@) + doc_term_values_from(doc@, f, i as int + 1)
                            =~= pre + doc_term_values_from(doc@, f, i as int));
                    }
                },
            }
        } else {
            proof {
                assert(pair.0 != f);
                assert(entry_term_values(doc@[i as int], f) =~= Seq::<TermValueView>::empty());
                assert(pre + doc_term_values_from(doc@, f, i as int) =~= pre + (entry_term_values(
                    doc@[i as int],
                    f,
                ) + doc_term_values_from(doc@, f, i as int + 1)));
            }
        }
        i += 1;
    }
    proof {
        assert(term_values_view(out@) =~= doc_term_values_from(doc@, f, 0));
    }
    out
}

/// The term dictionary of one field of a segment.
pub struct TermDict {
    pub count: usize,
}

impl TermDict {
    /// How many distinct terms the field has in this segment.
    pub fn num_terms(&self) -> (r: usize)
        ensures
            r == self.count,
    {
        self.count
    }
}

impl<'a> InvertedIndexReader<'a> {
    /// The term dictionary of the reader's field.
    pub fn terms(&self) -> (r: TermDict)
        requires
            seg_wf(self.segment@),
        ensures
            r.count == spec_num_terms(self.segment@.docs, self.field),
    {
        let ghost docs = self.segment@.docs;
        let mut all: Vec<TermValue> = Vec::new();
        let mut d: usize = 0;
        proof {
            assert(term_values_view(all@) + seg_term_values_from(docs, self.field, 0)
                =~= seg_term_values_from(docs, self.field, 0));
        }
        while d < self.segment.docs.len()
            invariant
                d <= self.segment.docs@.len(),
                docs == self.segment@.docs,
                docs.len() == self.segment.docs@.len(),
                term_values_view(all@) + seg_term_values_from(docs, self.field, d as int)
                    == seg_term_values_from(docs, self.field, 0),
            decreases self.segment.docs@.len() - d,
        {
            let ghost pre = term_values_view(all@);
            let doc = &self.segment.docs[d];
            proof {
                assert(docs[d as int] == self.segment.docs@[d as int]@);
            }
            let mut dv = doc_term_values(doc, self.field);
            let ghost dvv = term_values_view(dv@);
            let mut k: usize = 0;
            while k < dv.len()
                invariant
                    k <= dv@.len(),
                    dvv == term_values_view(dv@),
                    dvv.len() == dv@.len(),
                    term_values_view(all@) == pre + dvv.take(k as int),
                decreases dv@.len() - k,
            {
                let ghost mid = term_values_view(all@);
                let item = clone_term_value(&dv[k]);
                all.push(item);
                proof {
                    assert(term_values_view(all@) =~= mid.push(dv@[k as int]@));
                    assert(dvv[k as int] == dv@[k as int]@);
                    assert(mid.push(dvv[k as int]) =~= pre + dvv.take(k as int + 1));
                }
                k += 1;
            }
            proof {
                assert(dvv.take(dvv.len() as int) == dvv);
                assert(term_values_view(all@) + seg_term_values_from(docs, self.field, d as int + 1)
                    =~= pre + (doc_term_values_from(docs[d as int], self.field, 0)
                    + seg_term_values_from(docs, self.field, d as int + 1)));
            }
            d += 1;
        }
        proof {
            assert(term_values_view(all@) =~= seg_term_values_from(docs, self.field, 0));
        }
        let count = count_distinct_term_values(all);
        TermDict { count }
    }
}

} // verus!



