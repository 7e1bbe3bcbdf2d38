//! The search engine's document index: a thin lifecycle layer over the
//! segmented [`crate::index`]. A writer is prepared once (idempotently),
//! documents are appended, and `commit` turns the pending batch into a
//! new immutable segment. Merging and deleting operate on whole segments.

use vstd::prelude::*;
use vstd::string::{StrSliceExecFns, StringSliceAdditionalSpecFns};
use crate::index::{
    docs_view, doc_matches, doc_wf, seg_wf, segments_view, text_len_from, total_docs,
    total_docs_from, DocAddress, DocView, Index, IndexError, IndexWriter, Segment, SegmentId,
    SegmentMeta, SegmentView,
};
use crate::schema::{
    Field, IndexingOption, Schema, TantivyDocument, TermValueView, TermView, ValueView,
};

verus! {

/// The text field holding a page's title.
pub open spec fn title_field() -> Field {
    Field { id: 0 }
}

/// The text field holding a page's clean body text.
pub open spec fn body_field() -> Field {
    Field { id: 1 }
}

/// The text field holding a page's URL.
pub open spec fn url_field() -> Field {
    Field { id: 2 }
}

/// A parsed web page, reduced to the values the index stores. The HTML
/// parsing that produces these lives outside the library.
#[derive(Debug)]
pub struct Webpage {
    pub title: Vec<u8>,
    pub body: Vec<u8>,
    pub url: Vec<u8>,
}

impl Webpage {
    /// A page the index accepts: bounded total text.
    pub open spec fn wf(&self) -> bool {
        self.title@.len() + self.body@.len() + self.url@.len() <= u32::MAX
    }

    /// The document this page turns into.
    pub open spec fn spec_doc(&self) -> DocView {
        seq![
            (title_field(), ValueView::Str(self.title@)),
            (body_field(), ValueView::Str(self.body@)),
            (url_field(), ValueView::Str(self.url@)),
        ]
    }

    pub fn new(title: &str, body: &str, url: &str) -> (r: Webpage)
        ensures
            r.title@ == title.spec_bytes(),
            r.body@ == body.spec_bytes(),
            r.url@ == url.spec_bytes(),
    {
        Webpage {
            title: title.as_bytes_vec(),
            body: body.as_bytes_vec(),
            url: url.as_bytes_vec(),
        }
    }
}

/// What a search returns: the addresses of the matching documents, in
/// address order.
pub struct InvertedIndexSearchResult {
    pub documents: Vec<DocAddress>,
}

/// Whether a document contains the token in any of its text fields.
pub open spec fn token_matches_doc(doc: DocView, tok: Seq<u8>) -> bool {
    ||| doc_matches(doc, TermView { field: title_field(), value: TermValueView::Bytes(tok) })
    ||| doc_matches(doc, TermView { field: body_field(), value: TermValueView::Bytes(tok) })
    ||| doc_matches(doc, TermView { field: url_field(), value: TermValueView::Bytes(tok) })
}

/// Whether a document contains every token of the query.
pub open spec fn all_tokens_match(doc: DocView, toks: Seq<Seq<u8>>) -> bool {
    forall|k: int| 0 <= k < toks.len() ==> token_matches_doc(doc, #[trigger] toks[k])
}

/// The matching documents of one segment under AND semantics, from
/// document `di` on.
pub open spec fn and_results_from(
    docs: Seq<DocView>,
    toks: Seq<Seq<u8>>,
    si: u32,
    di: int,
) -> Seq<DocAddress>
    decreases docs.len() - di,
{
    if di < 0 || di >= docs.len() {
        Seq::empty()
    } else if all_tokens_match(docs[di], toks) {
        seq![DocAddress { segment_ord: si, doc_id: di as u32 }] + and_results_from(
            docs,
            toks,
            si,
            di + 1,
        )
    } else {
        and_results_from(docs, toks, si, di + 1)
    }
}

/// All matching addresses under AND semantics, from segment `si` on.
pub open spec fn and_search_from(ss: Seq<SegmentView>, toks: Seq<Seq<u8>>, si: int) -> Seq<
    DocAddress,
>
    decreases ss.len() - si,
{
    if si < 0 || si >= ss.len() {
        Seq::empty()
    } else {
        and_results_from(ss[si].docs, toks, si as u32, 0) + and_search_from(ss, toks, si + 1)
    }
}

/// The documents whose every query token occurs in some text field, in
/// address order.
pub open spec fn spec_and_search(ss: Seq<SegmentView>, toks: Seq<Seq<u8>>) -> Seq<DocAddress> {
    and_search_from(ss, toks, 0)
}

/// The segment ids, in segment order.
pub open spec fn seg_ids(ss: Seq<SegmentView>) -> Seq<SegmentId> {
    ss.map_values(|s: SegmentView| s.id)
}

/// An index with its (optional) writer. Readers see the committed
/// segments; the writer buffers documents until `commit`.
pub struct InvertedIndex {
    pub index: Index,
    pub writer: Option<IndexWriter>,
    pub auto_merge: bool,
}

impl InvertedIndex {
    pub open spec fn wf(&self) -> bool {
        &&& self.index.wf()
        &&& match self.writer {
            Some(w) => w.wf(),
            None => true,
        }
    }

    /// The committed segments.
    pub open spec fn seg_views(&self) -> Seq<SegmentView> {
        segments_view(self.index.segments@)
    }

    fn standard_schema() -> (r: Schema)
        ensures
            r@.len() == 3,
    {
        let mut builder = Schema::builder();
        builder.add_text_field("title", IndexingOption::Text);
        builder.add_text_field("body", IndexingOption::Text);
        builder.add_text_field("url", IndexingOption::Text);
        builder.build()
    }

    /// A fresh, empty in-memory index. Never fails; the `Result` mirrors
    /// the signature of an index that opens storage.
    pub fn temporary() -> (r: Result<InvertedIndex, IndexError>)
        ensures
            r is Ok,
            r->Ok_0.wf(),
            r->Ok_0.seg_views() == Seq::<SegmentView>::empty(),
            r->Ok_0.index.next_segment_id == 0,
            r->Ok_0.writer is None,
    {
        let schema = Self::standard_schema();
        let index = Index::create_in_ram(schema);
        Ok(InvertedIndex { index, writer: None, auto_merge: false })
    }

    /// Creates the writer when none exists yet; an existing writer (and
    /// everything else) is left exactly as it is.
    pub fn prepare_writer(&mut self) -> (r: Result<(), IndexError>)
        requires
            old(self).wf(),
        ensures
            r is Ok,
            final(self).wf(),
            final(self).writer is Some,
            final(self).index == old(self).index,
            final(self).auto_merge == old(self).auto_merge,
            old(self).writer is Some ==> *final(self) == *old(self),
            old(self).writer is None ==> final(self).writer->0.buffer@.len() == 0,
    {
        if self.writer.is_none() {
            let w = self.index.writer_for_tests();
            self.writer = Some(w);
        }
        Ok(())
    }

    /// Switches future merging to the automatic policy. The writer must
    /// have been prepared.
    pub fn set_auto_merge_policy(&mut self)
        requires
            old(self).wf(),
            old(self).writer is Some,
        ensures
            final(self).wf(),
            final(self).auto_merge,
            final(self).index == old(self).index,
            final(self).writer == old(self).writer,
    {
        self.auto_merge = true;
    }

    /// Appends a page to the pending batch. The writer must have been
    /// prepared.
    pub fn insert(&mut self, webpage: &Webpage) -> (r: Result<(), IndexError>)
        requires
            old(self).wf(),
            old(self).writer is Some,
            webpage.wf(),
            old(self).writer->0.buffer@.len() < u64::MAX,
        ensures
            r is Ok,
            final(self).wf(),
            final(self).index == old(self).index,
            final(self).writer is Some,
            docs_view(final(self).writer->0.buffer@) == docs_view(
                old(self).writer->0.buffer@,
            ).push(webpage.spec_doc()),
    {
        let title = Field { id: 0 };
        let body = Field { id: 1 };
        let url = Field { id: 2 };
        let mut fv: Vec<(Field, crate::schema::Value)> = Vec::new();
        fv.push((title, crate::schema::Value::Str(clone_bytes(&webpage.title))));
        fv.push((body, crate::schema::Value::Str(clone_bytes(&webpage.body))));
        fv.push((url, crate::schema::Value::Str(clone_bytes(&webpage.url))));
        let doc = TantivyDocument { field_values: fv };
        proof {
            assert(doc.field_values@.len() == 3);
            assert(doc@[0] == (title_field(), ValueView::Str(webpage.title@)));
            assert(doc@[1] == (body_field(), ValueView::Str(webpage.body@)));
            assert(doc@[2] == (url_field(), ValueView::Str(webpage.url@)));
            assert(doc@ =~= webpage.spec_doc());
            assert(text_len_from(doc@, 3) == 0);
            assert(text_len_from(doc@, 2) == webpage.url@.len() + text_len_from(doc@, 3));
            assert(text_len_from(doc@, 1) == webpage.body@.len() + text_len_from(doc@, 2));
            assert(text_len_from(doc@, 0) == webpage.title@.len() + text_len_from(doc@, 1));
        }
        match &mut self.writer {
            Some(w) => {
                w.add_document(doc);
            },
            None => {},
        }
        Ok(())
    }

    /// Flushes the pending batch into a new segment; the new documents
    /// become searchable. Fails only when the documents no longer fit
    /// the index's document or id space, leaving everything unchanged.
    pub fn commit(&mut self) -> (r: Result<(), IndexError>)
        requires
            old(self).wf(),
        ensures
            final(self).wf(),
            final(self).writer is Some,
            r is Ok <==> (old(self).spec_pending().len() == 0 || (total_docs(old(self).seg_views())
                + old(self).spec_pending().len() <= u32::MAX && old(self).index.next_segment_id
                < u64::MAX)),
            r is Ok ==> final(self).spec_pending().len() == 0,
            r is Ok && old(self).spec_pending().len() == 0 ==> final(self).seg_views() == old(self).seg_views(),
            r is Ok && old(self).spec_pending().len() > 0 ==> final(self).seg_views() == old(self).seg_views().push(
                SegmentView {
                    id: SegmentId { raw: old(self).index.next_segment_id },
                    max_doc: old(self).spec_pending().len() as u32,
                    docs: old(self).spec_pending(),
                },
            ),
            r is Err ==> final(self).seg_views() == old(self).seg_views() && final(self).spec_pending() == old(self).spec_pending() && r == Result::<(), IndexError>::Err(
                IndexError::IndexFull,
            ),
            final(self).index.next_segment_id == if r is Ok && old(self).spec_pending().len()
                > 0 {
                old(self).index.next_segment_id + 1
            } else {
                old(self).index.next_segment_id as int
            },
            total_docs(final(self).seg_views()) == if r is Ok {
                total_docs(old(self).seg_views()) + old(self).spec_pending().len()
            } else {
                total_docs(old(self).seg_views())
            },
    {
        let _ = self.prepare_writer();
        let mut w_opt: Option<IndexWriter> = None;
        core::mem::swap(&mut self.writer, &mut w_opt);
        match w_opt {
            Some(mut w) => {
                let res = w.commit(&mut self.index);
                self.writer = Some(w);
                proof {
                    if res is Ok && old(self).spec_pending().len() > 0 {
                        crate::index::lemma_total_docs_push(
                            old(self).seg_views(),
                            self.seg_views().last(),
                        );
                        assert(self.seg_views() =~= old(self).seg_views().push(
                            self.seg_views().last(),
                        ));
                    }
                }
                match res {
                    Ok(_) => Ok(()),
                    Err(e) => Err(e),
                }
            },
            None => Ok(()),  // unreachable: the writer was just prepared
        }
    }

    /// The documents waiting in the writer, in insertion order.
    pub open spec fn spec_pending(&self) -> Seq<DocView> {
        match self.writer {
            Some(w) => docs_view(w.buffer@),
            None => Seq::empty(),
        }
    }

    /// The ids of the committed segments, in order.
    pub fn segment_ids(&self) -> (r: Vec<SegmentId>)
        ensures
            r@ == seg_ids(self.seg_views()),
    {
        let mut out: Vec<SegmentId> = Vec::new();
        let mut i: usize = 0;
        while i < self.index.segments.len()
            invariant
                i <= self.index.segments@.len(),
                out@.len() == i,
                forall|j: int| 0 <= j < i ==> #[trigger] out@[j] == self.seg_views()[j].id,
            decreases self.index.segments@.len() - i,
        {
            let id = self.index.segments[i].meta.id;
            proof {
                assert(self.seg_views()[i as int] == self.index.segments@[i as int]@);
            }
            out.push(id);
            i += 1;
        }
        proof {
            assert(out@ =~= seg_ids(self.seg_views()));
        }
        out
    }

    /// Shuts the writer down, abandoning any uncommitted documents. The
    /// writer must have been prepared.
    pub fn stop(self)
        requires
            self.writer is Some,
    {
    }

    /// Searches the committed segments for documents containing every
    /// token of the query, in address order. An empty result is not an
    /// error; a query with no tokens matches every document.
    pub fn search(&self, query: &str) -> (r: InvertedIndexSearchResult)
        requires
            self.wf(),
        ensures
            r.documents@ == spec_and_search(
                self.seg_views(),
                crate::tokenize::spec_tokens(query.spec_bytes()),
            ),
    {
        let qbytes = query.as_bytes_vec();
        let toks = crate::tokenize::tokenize_bytes(&qbytes);
        let ghost tv = crate::tokenize::deep_bytes(toks@);
        let ghost views = self.seg_views();
        let mut out: Vec<DocAddress> = Vec::new();
        let mut si: usize = 0;
        proof {
            assert(out@ + and_search_from(views, tv, 0) =~= spec_and_search(views, tv));
        }
        while si < self.index.segments.len()
            invariant
                si <= self.index.segments@.len(),
                self.wf(),
                views == self.seg_views(),
                tv == crate::tokenize::deep_bytes(toks@),
                toks@.len() == tv.len(),
                out@ + and_search_from(views, tv, si as int) == spec_and_search(views, tv),
            decreases self.index.segments@.len() - si,
        {
            let seg = &self.index.segments[si];
            proof {
                assert(views[si as int] == self.index.segments@[si as int]@);
                assert(seg_wf(seg@));
            }
            let mut di: usize = 0;
            while di < seg.docs.len()
                invariant
                    di <= seg.docs@.len(),
                    si < self.index.segments@.len(),
                    self.index.segments@.len() <= u32::MAX,
                    views == self.seg_views(),
                    tv == crate::tokenize::deep_bytes(toks@),
                    toks@.len() == tv.len(),
                    seg@ == views[si as int],
                    seg_wf(seg@),
                    seg@.docs.len() == seg.docs@.len(),
                    out@ + and_results_from(seg@.docs, tv, si as u32, di as int) + and_search_from(
                        views,
                        tv,
                        si as int + 1,
                    ) == spec_and_search(views, tv),
                decreases seg.docs@.len() - di,
            {
                let ghost pre = out@;
                let doc = &seg.docs[di];
                proof {
                    assert(seg@.docs[di as int] == seg.docs@[di as int]@);
                    assert(doc_wf(doc@));
                }
                if doc_matches_all_tokens(doc, &toks) {
                    out.push(DocAddress { segment_ord: si as u32, doc_id: di as u32 });
                    proof {
                        assert(out@ =~= pre + seq![
                            DocAddress { segment_ord: si as u32, doc_id: di as u32 },
                        ]);
                        assert(pre + seq![
                            DocAddress { segment_ord: si as u32, doc_id: di as u32 },
                        ] + and_results_from(seg@.docs, tv, si as u32, di as int + 1)
                            + and_search_from(views, tv, si as int + 1) =~= pre
                            + and_results_from(seg@.docs, tv, si as u32, di as int)
                            + and_search_from(views, tv, si as int + 1));
                    }
                } else {
                    proof {
                        assert(and_results_from(seg@.docs, tv, si as u32, di as int)
                            == and_results_from(seg@.docs, tv, si as u32, di as int + 1));
                    }
                }
                di += 1;
            }
            proof {
                assert(and_results_from(seg@.docs, tv, si as u32, seg.docs@.len() as int)
                    =~= Seq::<DocAddress>::empty());
                assert(out@ + and_search_from(views, tv, si as int + 1) =~= out@ + (
                and_results_from(seg@.docs, tv, si as u32, seg.docs@.len() as int)
                    + and_search_from(views, tv, si as int + 1)));
            }
            si += 1;
        }
        proof {
            assert(out@ =~= spec_and_search(views, tv));
        }
        InvertedIndexSearchResult { documents: out }
    }
}

/// The documents of all segments, in segment order, from segment `i` on.
pub open spec fn all_docs_from(ss: Seq<SegmentView>, i: int) -> Seq<DocView>
    decreases ss.len() - i,
{
    if i < 0 || i >= ss.len() {
        Seq::empty()
    } else {
        ss[i].docs + all_docs_from(ss, i + 1)
    }
}

/// The whole document collection of an index, renumbered by position.
pub open spec fn all_docs(ss: Seq<SegmentView>) -> Seq<DocView> {
    all_docs_from(ss, 0)
}

/// The document tail from `k` has as many documents as the segment sizes
/// say, and every one is well-formed.
pub proof fn lemma_all_docs_props(ss: Seq<SegmentView>, i: int)
    requires
        0 <= i <= ss.len(),
        forall|k: int| 0 <= k < ss.len() ==> seg_wf(#[trigger] ss[k]),
    ensures
        all_docs_from(ss, i).len() == total_docs_from(ss, i),
        forall|j: int| 0 <= j < all_docs_from(ss, i).len() ==> doc_wf(
            #[trigger] all_docs_from(ss, i)[j],
        ),
    decreases ss.len() - i,
{
    if i < ss.len() {
        lemma_all_docs_props(ss, i + 1);
        let whole = all_docs_from(ss, i);
        let rest = all_docs_from(ss, i + 1);
        assert forall|j: int| 0 <= j < whole.len() implies doc_wf(#[trigger] whole[j]) by {
            if j < ss[i].docs.len() {
                assert(whole[j] == ss[i].docs[j]);
            } else {
                assert(whole[j] == rest[j - ss[i].docs.len()]);
            }
        }
    }
}

/// Splitting the segment list splits its document collection.
pub proof fn lemma_all_docs_split(ss: Seq<SegmentView>, i: int, k: int)
    requires
        0 <= i <= k <= ss.len(),
    ensures
        all_docs_from(ss.take(k), i) + all_docs_from(ss, k) == all_docs_from(ss, i),
    decreases k - i,
{
    if i < k {
        lemma_all_docs_split(ss, i + 1, k);
        assert(ss.take(k)[i] == ss[i]);
        assert(ss[i].docs + (all_docs_from(ss.take(k), i + 1) + all_docs_from(ss, k)) =~= (
        ss[i].docs + all_docs_from(ss.take(k), i + 1)) + all_docs_from(ss, k));
    } else {
        assert(all_docs_from(ss.take(k), i) =~= Seq::<DocView>::empty());
        assert(Seq::<DocView>::empty() + all_docs_from(ss, k) =~= all_docs_from(ss, k));
    }
}

/// Appending one segment appends its documents.
pub proof fn lemma_all_docs_push(ss: Seq<SegmentView>, s: SegmentView, i: int)
    requires
        0 <= i <= ss.len(),
    ensures
        all_docs_from(ss.push(s), i) == all_docs_from(ss, i) + s.docs,
    decreases ss.len() - i,
{
    if i < ss.len() {
        lemma_all_docs_push(ss, s, i + 1);
        assert(ss.push(s)[i] == ss[i]);
        assert(ss[i].docs + (all_docs_from(ss, i + 1) + s.docs) =~= (ss[i].docs + all_docs_from(
            ss,
            i + 1,
        )) + s.docs);
    } else {
        assert(ss.push(s)[i] == s);
        assert(all_docs_from(ss.push(s), ss.len() as int + 1) =~= Seq::<DocView>::empty());
        assert(s.docs + Seq::<DocView>::empty() =~= s.docs);
        assert(all_docs_from(ss, i) + s.docs =~= s.docs);
    }
}

/// The segments kept after deleting a set of ids, from segment `i` on.
pub open spec fn keep_from(ss: Seq<SegmentView>, ids: Seq<SegmentId>, i: int) -> Seq<SegmentView>
    decreases ss.len() - i,
{
    if i < 0 || i >= ss.len() {
        Seq::empty()
    } else if ids.contains(ss[i].id) {
        keep_from(ss, ids, i + 1)
    } else {
        seq![ss[i]] + keep_from(ss, ids, i + 1)
    }
}

/// Deleting segments only ever shrinks the document count.
proof fn lemma_keep_total(ss: Seq<SegmentView>, ids: Seq<SegmentId>, i: int)
    requires
        0 <= i <= ss.len(),
    ensures
        total_docs(keep_from(ss, ids, i)) <= total_docs_from(ss, i),
        keep_from(ss, ids, i).len() <= ss.len() - i,
    decreases ss.len() - i,
{
    if i < ss.len() {
        lemma_keep_total(ss, ids, i + 1);
        crate::index::lemma_total_docs_nonneg_pub(ss, i + 1);
        if !ids.contains(ss[i].id) {
            let rest = keep_from(ss, ids, i + 1);
            let whole = seq![ss[i]] + rest;
            assert(whole.drop_first() =~= rest);
            assert(total_docs(whole) == ss[i].docs.len() + total_docs_from(rest, 0)) by {
                lemma_total_docs_first(whole);
            }
        }
    }
}

/// Unfolds the document total at the front of a non-empty list.
proof fn lemma_total_docs_first(ss: Seq<SegmentView>)
    requires
        ss.len() > 0,
    ensures
        total_docs(ss) == ss[0].docs.len() + total_docs(ss.drop_first()),
    decreases ss.len(),
{
    lemma_total_docs_first_from(ss, 0);
}

proof fn lemma_total_docs_first_from(ss: Seq<SegmentView>, i: int)
    requires
        0 <= i < ss.len(),
    ensures
        total_docs_from(ss, i + 1) == total_docs_from(ss.drop_first(), i),
    decreases ss.len() - i,
{
    if i + 1 < ss.len() {
        lemma_total_docs_first_from(ss, i + 1);
        assert(ss.drop_first()[i] == ss[i + 1]);
    }
}

/// A two-phase merge in flight: which segments it consumes.
pub struct MergeOperation {
    pub segment_ids: Vec<SegmentId>,
}

/// The merged segment a finished merge installs.
pub struct SegmentEntry {
    pub docs: Vec<TantivyDocument>,
}

/// The concatenated documents of the segments a merge consumes, from
/// segment `i` on.
pub open spec fn merged_docs_from(ss: Seq<SegmentView>, ids: Seq<SegmentId>, i: int) -> Seq<
    DocView,
>
    decreases ss.len() - i,
{
    if i < 0 || i >= ss.len() {
        Seq::empty()
    } else if ids.contains(ss[i].id) {
        ss[i].docs + merged_docs_from(ss, ids, i + 1)
    } else {
        merged_docs_from(ss, ids, i + 1)
    }
}

impl InvertedIndex {
    /// Collapses the committed segments into at most `max_num_segments`:
    /// the tail of the segment list is merged into one new segment whose
    /// documents are their concatenation, renumbered by position. Fails
    /// only when the segment-id space is exhausted.
    pub fn merge_into_max_segments(&mut self, max_num_segments: u64) -> (r: Result<
        (),
        IndexError,
    >)
        requires
            old(self).wf(),
            max_num_segments >= 1,
        ensures
            final(self).wf(),
            final(self).spec_pending() == old(self).spec_pending(),
            r is Ok <==> (old(self).seg_views().len() <= max_num_segments || old(self).index.next_segment_id < u64::MAX),
            old(self).seg_views().len() <= max_num_segments ==> final(self).seg_views() == old(self).seg_views(),
            r is Err ==> final(self).seg_views() == old(self).seg_views() && r == Result::<
                (),
                IndexError,
            >::Err(IndexError::IndexFull),
            r is Ok && old(self).seg_views().len() > max_num_segments ==> {
                let k = max_num_segments - 1;
                final(self).seg_views() == old(self).seg_views().take(k as int).push(
                    SegmentView {
                        id: SegmentId { raw: old(self).index.next_segment_id },
                        max_doc: total_docs_from(old(self).seg_views(), k as int) as u32,
                        docs: all_docs_from(old(self).seg_views(), k as int),
                    },
                )
            },
            r is Ok ==> all_docs(final(self).seg_views()) == all_docs(old(self).seg_views()),
            r is Ok ==> final(self).seg_views().len() == if old(self).seg_views().len()
                <= max_num_segments {
                old(self).seg_views().len() as int
            } else {
                max_num_segments as int
            },
            final(self).index.next_segment_id == if r is Ok && old(self).seg_views().len()
                > max_num_segments {
                old(self).index.next_segment_id + 1
            } else {
                old(self).index.next_segment_id as int
            },
    {
        let ghost old_views = self.seg_views();
        let len = self.index.segments.len();
        if (len as u64) <= max_num_segments {
            proof {
                assert(all_docs(old_views) == all_docs(old_views));
            }
            return Ok(());
        }
        if self.index.next_segment_id == u64::MAX {
            return Err(IndexError::IndexFull);
        }
        // max_num_segments < len <= u32::MAX, so it fits a usize.
        let k = (max_num_segments - 1) as usize;
        let mut merged: Vec<TantivyDocument> = Vec::new();
        let mut si: usize = k;
        proof {
            assert(docs_view(merged@) + all_docs_from(old_views, k as int) =~= all_docs_from(
                old_views,
                k as int,
            ));
        }
        while si < self.index.segments.len()
            invariant
                k <= si <= self.index.segments@.len(),
                self.wf(),
                old_views == self.seg_views(),
                docs_view(merged@) + all_docs_from(old_views, si as int) == all_docs_from(
                    old_views,
                    k as int,
                ),
            decreases self.index.segments@.len() - si,
        {
            let ghost pre = docs_view(merged@);
            let seg = &self.index.segments[si];
            proof {
                assert(old_views[si as int] == self.index.segments@[si as int]@);
            }
            let mut di: usize = 0;
            while di < seg.docs.len()
                invariant
                    di <= seg.docs@.len(),
                    si < self.index.segments@.len(),
                    old_views == self.seg_views(),
                    seg@ == old_views[si as int],
                    seg@.docs.len() == seg.docs@.len(),
                    docs_view(merged@) == pre + seg@.docs.take(di as int),
                decreases seg.docs@.len() - di,
            {
                let ghost mid = docs_view(merged@);
                let d = seg.docs[di].clone();
                merged.push(d);
                proof {
                    assert(docs_view(merged@) =~= mid.push(seg@.docs[di as int]));
                    assert(mid.push(seg@.docs[di as int]) =~= pre + seg@.docs.take(di as int + 1));
                }
                di += 1;
            }
            proof {
                assert(seg@.docs.take(seg@.docs.len() as int) == seg@.docs);
                assert(docs_view(merged@) + all_docs_from(old_views, si as int + 1) =~= pre + (
                seg@.docs + all_docs_from(old_views, si as int + 1)));
            }
            si += 1;
        }
        proof {
            assert(all_docs_from(old_views, self.index.segments@.len() as int)
                =~= Seq::<DocView>::empty());
            assert(docs_view(merged@) + Seq::<DocView>::empty() =~= docs_view(merged@));
            assert(docs_view(merged@) =~= all_docs_from(old_views, k as int));
            lemma_all_docs_props(old_views, k as int);
            crate::index::lemma_total_docs_bounds(old_views, k as int);
        }
        let merged_len = merged.len();
        let new_id = self.index.next_segment_id;
        let seg = Segment {
            meta: SegmentMeta { id: SegmentId { raw: new_id }, max_doc: merged_len as u32 },
            docs: merged,
        };
        self.index.segments.truncate(k);
        self.index.segments.push(seg);
        self.index.next_segment_id = new_id + 1;
        proof {
            let nv = SegmentView {
                id: SegmentId { raw: new_id },
                max_doc: total_docs_from(old_views, k as int) as u32,
                docs: all_docs_from(old_views, k as int),
            };
            assert(self.index.segments@.last()@ == nv);
            assert forall|j: int| 0 <= j < k implies #[trigger] self.seg_views()[j] == old_views[j]
                by {
                assert(self.index.segments@[j]@ == old_views[j]);
            }
            assert(self.seg_views() =~= old_views.take(k as int).push(nv));
            lemma_all_docs_split(old_views, 0, k as int);
            lemma_all_docs_push(old_views.take(k as int), nv, 0);
            assert(all_docs(self.seg_views()) == all_docs(old_views));
            // well-formedness of the shrunk list
            assert forall|j: int| 0 <= j < self.seg_views().len() implies seg_wf(
                #[trigger] self.seg_views()[j],
            ) && self.seg_views()[j].docs.len() >= 1 && self.seg_views()[j].id.raw
                < self.index.next_segment_id by {
                if j < k {
                    assert(self.seg_views()[j] == old_views[j]);
                } else {
                    assert(self.seg_views()[j] == nv);
                    assert(old_views[k as int].docs.len() >= 1);
                    assert(all_docs_from(old_views, k as int).len() >= old_views[
                        k as int].docs.len()) by {
                        lemma_all_docs_props(old_views, k as int + 1);
                        crate::index::lemma_total_docs_nonneg_pub(old_views, k as int + 1);
                    }
                }
            }
            assert forall|a: int, b: int|
                0 <= a < b < self.seg_views().len() implies (#[trigger] self.seg_views()[a]).id
                != (#[trigger] self.seg_views()[b]).id by {
                if b < k {
                    assert(self.seg_views()[a] == old_views[a]);
                    assert(self.seg_views()[b] == old_views[b]);
                } else {
                    assert(self.seg_views()[a] == old_views[a]);
                    assert(old_views[a].id.raw < new_id);
                }
            }
            lemma_total_docs_split(old_views, 0, k as int);
            crate::index::lemma_total_docs_push(old_views.take(k as int), nv);
            assert(total_docs(self.seg_views()) == total_docs(old_views));
            assert(self.seg_views().len() == k + 1);
        }
        Ok(())
    }

    /// Removes the named segments from the index; their documents become
    /// unsearchable. Ids that match nothing are ignored.
    pub fn delete_segments_by_id(&mut self, segment_ids: &Vec<SegmentId>) -> (r: Result<
        (),
        IndexError,
    >)
        requires
            old(self).wf(),
        ensures
            r is Ok,
            final(self).wf(),
            final(self).spec_pending() == old(self).spec_pending(),
            final(self).index.next_segment_id == old(self).index.next_segment_id,
            final(self).seg_views() == keep_from(old(self).seg_views(), segment_ids@, 0),
    {
        let ghost old_views = self.seg_views();
        let ghost ids = segment_ids@;
        let mut kept: Vec<Segment> = Vec::new();
        let mut i: usize = 0;
        proof {
            assert(segments_view(kept@) + keep_from(old_views, ids, 0) =~= keep_from(
                old_views,
                ids,
                0,
            ));
        }
        while i < self.index.segments.len()
            invariant
                i <= self.index.segments@.len(),
                self.wf(),
                old_views == self.seg_views(),
                ids == segment_ids@,
                segments_view(kept@) + keep_from(old_views, ids, i as int) == keep_from(
                    old_views,
                    ids,
                    0,
                ),
                forall|a: int|
                    0 <= a < kept@.len() ==> exists|j: int|
                        0 <= j < i && (#[trigger] kept@[a])@ == old_views[j],
            decreases self.index.segments@.len() - i,
        {
            let ghost pre = segments_view(kept@);
            let seg = &self.index.segments[i];
            proof {
                assert(old_views[i as int] == self.index.segments@[i as int]@);
            }
            if !contains_segment_id(segment_ids, seg.meta.id) {
                let copied = seg.clone();
                kept.push(copied);
                proof {
                    assert(segments_view(kept@) =~= pre + seq![old_views[i as int]]);
                    assert(pre + seq![old_views[i as int]] + keep_from(old_views, ids, i as int + 1)
                        =~= pre + keep_from(old_views, ids, i as int));
                    assert forall|a: int| 0 <= a < kept@.len() implies exists|j: int|
                        0 <= j < i + 1 && (#[trigger] kept@[a])@ == old_views[j] by {
                        if a < kept@.len() - 1 {
                            let j = choose|j: int| 0 <= j < i && kept@[a]@ == old_views[j];
                            assert(0 <= j < i + 1 && kept@[a]@ == old_views[j]);
                        } else {
                            assert(kept@[a]@ == old_views[i as int]);
                        }
                    }
                }
            } else {
                proof {
                    assert(keep_from(old_views, ids, i as int) == keep_from(
                        old_views,
                        ids,
                        i as int + 1,
                    ));
                }
            }
            i += 1;
        }
        proof {
            assert(keep_from(old_views, ids, self.index.segments@.len() as int)
                =~= Seq::<SegmentView>::empty());
            assert(segments_view(kept@) + Seq::<SegmentView>::empty() =~= segments_view(kept@));
            assert(segments_view(kept@) =~= keep_from(old_views, ids, 0));
            lemma_keep_total(old_views, ids, 0);
        }
        proof {
            let kv = segments_view(kept@);
            let n = self.index.segments@.len() as int;
            assert forall|j: int| 0 <= j < kv.len() implies seg_wf(#[trigger] kv[j])
                && kv[j].docs.len() >= 1 && kv[j].id.raw < self.index.next_segment_id by {
                assert(kv[j] == kept@[j]@);
                let m = choose|m: int| 0 <= m < n && kept@[j]@ == old_views[m];
                assert(seg_wf(old_views[m]));
            }
            lemma_keep_from_distinct(old_views, ids, 0);
        }
        self.index.segments = kept;
        proof {
            let kf = keep_from(old_views, ids, 0);
            assert forall|a: int, b: int|
                0 <= a < b < self.index.segments@.len() implies (
            #[trigger] self.index.segments@[a])@.id != (#[trigger] self.index.segments@[b])@.id by {
                assert(self.index.segments@[a]@ == self.seg_views()[a]);
                assert(self.index.segments@[b]@ == self.seg_views()[b]);
                assert(kf[a].id != kf[b].id);
            }
        }
        Ok(())
    }
}

/// Kept segments come from the list they were filtered from, and their
/// ids stay pairwise distinct.
proof fn lemma_keep_from_distinct(ss: Seq<SegmentView>, ids: Seq<SegmentId>, i: int)
    requires
        0 <= i <= ss.len(),
        forall|a: int, b: int|
            0 <= a < b < ss.len() ==> (#[trigger] ss[a]).id != (#[trigger] ss[b]).id,
    ensures
        forall|a: int|
            0 <= a < keep_from(ss, ids, i).len() ==> exists|j: int|
                i <= j < ss.len() && #[trigger] keep_from(ss, ids, i)[a] == ss[j],
        forall|a: int, b: int|
            0 <= a < b < keep_from(ss, ids, i).len() ==> (#[trigger] keep_from(ss, ids, i)[a]).id
                != (#[trigger] keep_from(ss, ids, i)[b]).id,
    decreases ss.len() - i,
{
    if i < ss.len() {
        lemma_keep_from_distinct(ss, ids, i + 1);
        let rest = keep_from(ss, ids, i + 1);
        if !ids.contains(ss[i].id) {
            let whole = seq![ss[i]] + rest;
            assert forall|a: int| 0 <= a < whole.len() implies exists|j: int|
                i <= j < ss.len() && #[trigger] whole[a] == ss[j] by {
                if a == 0 {
                    assert(whole[0] == ss[i]);
                } else {
                    assert(whole[a] == rest[a - 1]);
                    let j = choose|j: int| i + 1 <= j < ss.len() && rest[a - 1] == ss[j];
                    assert(i <= j < ss.len() && whole[a] == ss[j]);
                }
            }
            assert forall|a: int, b: int| 0 <= a < b < whole.len() implies (
            #[trigger] whole[a]).id != (#[trigger] whole[b]).id by {
                if a == 0 {
                    assert(whole[b] == rest[b - 1]);
                    let j = choose|j: int| i + 1 <= j < ss.len() && rest[b - 1] == ss[j];
                    assert(ss[i].id != ss[j].id);
                } else {
                    assert(whole[a] == rest[a - 1]);
                    assert(whole[b] == rest[b - 1]);
                }
            }
        }
    }
}

/// Splitting the segment list splits its document total.
proof fn lemma_total_docs_split(ss: Seq<SegmentView>, i: int, k: int)
    requires
        0 <= i <= k <= ss.len(),
    ensures
        total_docs_from(ss.take(k), i) + total_docs_from(ss, k) == total_docs_from(ss, i),
    decreases k - i,
{
    if i < k {
        lemma_total_docs_split(ss, i + 1, k);
        assert(ss.take(k)[i] == ss[i]);
    } else {
        assert(total_docs_from(ss.take(k), i) == 0);
    }
}

/// Checks whether the id is in the list.
fn contains_segment_id(ids: &Vec<SegmentId>, id: SegmentId) -> (r: bool)
    ensures
        r == ids@.contains(id),
{
    let mut i: usize = 0;
    while i < ids.len()
        invariant
            i <= ids@.len(),
            forall|j: int| 0 <= j < i ==> ids@[j] != id,
        decreases ids@.len() - i,
    {
        if ids[i].raw == id.raw {
            proof {
                assert(ids@[i as int] == id);
            }
            return true;
        }
        i += 1;
    }
    proof {
        assert(!ids@.contains(id));
    }
    false
}

impl InvertedIndex {
    /// First phase of an explicit merge: computes the merged segment for
    /// the named segments without touching the index. Fails exactly when
    /// no segments are named. The entry is `None` when the named ids
    /// match nothing.
    pub fn start_merge_segments_by_id(&self, segments: &Vec<SegmentId>) -> (r: Result<
        (Option<SegmentEntry>, MergeOperation),
        IndexError,
    >)
        requires
            self.wf(),
        ensures
            r is Ok <==> segments@.len() > 0,
            r is Err ==> r == Result::<(Option<SegmentEntry>, MergeOperation), IndexError>::Err(
                IndexError::NoSegments,
            ),
            r matches Ok((entry, op)) ==> {
                &&& op.segment_ids@ == segments@
                &&& match entry {
                    Some(e) => docs_view(e.docs@) == merged_docs_from(
                        self.seg_views(),
                        segments@,
                        0,
                    ) && e.docs@.len() > 0,
                    None => merged_docs_from(self.seg_views(), segments@, 0)
                        == Seq::<DocView>::empty(),
                }
            },
    {
        if segments.len() == 0 {
            return Err(IndexError::NoSegments);
        }
        let ghost views = self.seg_views();
        let ghost ids = segments@;
        let mut merged: Vec<TantivyDocument> = Vec::new();
        let mut si: usize = 0;
        proof {
            assert(docs_view(merged@) + merged_docs_from(views, ids, 0) =~= merged_docs_from(
                views,
                ids,
                0,
            ));
        }
        while si < self.index.segments.len()
            invariant
                si <= self.index.segments@.len(),
                self.wf(),
                views == self.seg_views(),
                ids == segments@,
                docs_view(merged@) + merged_docs_from(views, ids, si as int) == merged_docs_from(
                    views,
                    ids,
                    0,
                ),
            decreases self.index.segments@.len() - si,
        {
            let ghost pre = docs_view(merged@);
            let seg = &self.index.segments[si];
            proof {
                assert(views[si as int] == self.index.segments@[si as int]@);
            }
            if contains_segment_id(segments, seg.meta.id) {
                let mut di: usize = 0;
                while di < seg.docs.len()
                    invariant
                        di <= seg.docs@.len(),
                        si < self.index.segments@.len(),
                        views == self.seg_views(),
                        seg@ == views[si as int],
                        seg@.docs.len() == seg.docs@.len(),
                        docs_view(merged@) == pre + seg@.docs.take(di as int),
                    decreases seg.docs@.len() - di,
                {
                    let ghost mid = docs_view(merged@);
                    let d = seg.docs[di].clone();
                    merged.push(d);
                    proof {
                        assert(docs_view(merged@) =~= mid.push(seg@.docs[di as int]));
                        assert(mid.push(seg@.docs[di as int]) =~= pre + seg@.docs.take(
                            di as int + 1,
                        ));
                    }
                    di += 1;
                }
                proof {
                    assert(seg@.docs.take(seg@.docs.len() as int) == seg@.docs);
                    assert(docs_view(merged@) + merged_docs_from(views, ids, si as int + 1) =~= pre
                        + (seg@.docs + merged_docs_from(views, ids, si as int + 1)));
                }
            } else {
                proof {
                    assert(merged_docs_from(views, ids, si as int) == merged_docs_from(
                        views,
                        ids,
                        si as int + 1,
                    ));
                }
            }
            si += 1;
        }
        proof {
            assert(merged_docs_from(views, ids, self.index.segments@.len() as int)
                =~= Seq::<DocView>::empty());
            assert(docs_view(merged@) =~= merged_docs_from(views, ids, 0));
        }
        let op = MergeOperation { segment_ids: clone_segment_ids(segments) };
        if merged.len() == 0 {
            proof {
                assert(docs_view(merged@) =~= Seq::<DocView>::empty());
                assert(merged_docs_from(views, ids, 0) =~= Seq::<DocView>::empty());
            }
            Ok((None, op))
        } else {
            Ok((Some(SegmentEntry { docs: merged }), op))
        }
    }

    /// Second phase of an explicit merge: removes the consumed segments
    /// and installs the merged one; returns its id. Fails exactly when
    /// the merged segment no longer fits the document or id space, in
    /// which case nothing changes.
    pub fn end_merge_segments_by_id(
        &mut self,
        merge_operation: MergeOperation,
        segment_entry: Option<SegmentEntry>,
    ) -> (r: Result<Option<SegmentId>, IndexError>)
        requires
            old(self).wf(),
            match segment_entry {
                Some(e) => forall|j: int|
                    0 <= j < e.docs@.len() ==> doc_wf((#[trigger] e.docs@[j])@),
                None => true,
            },
        ensures
            final(self).wf(),
            final(self).spec_pending() == old(self).spec_pending(),
            final(self).index.next_segment_id == if r matches Ok(Some(_)) {
                old(self).index.next_segment_id + 1
            } else {
                old(self).index.next_segment_id as int
            },
            ({
                let kept = keep_from(old(self).seg_views(), merge_operation.segment_ids@, 0);
                match segment_entry {
                    None => r == Result::<Option<SegmentId>, IndexError>::Ok(None) && final(self).seg_views() == kept,
                    Some(e) => {
                        &&& e.docs@.len() == 0 ==> r == Result::<Option<SegmentId>, IndexError>::Ok(
                            None,
                        ) && final(self).seg_views() == kept
                        &&& e.docs@.len() > 0 ==> {
                            let fits = total_docs(kept) + e.docs@.len() <= u32::MAX && e.docs@.len()
                                <= u32::MAX && old(self).index.next_segment_id < u64::MAX;
                            &&& r is Ok <==> fits
                            &&& !fits ==> r == Result::<Option<SegmentId>, IndexError>::Err(
                                IndexError::IndexFull,
                            )
                            &&& fits ==> r == Result::<Option<SegmentId>, IndexError>::Ok(
                                Some(SegmentId { raw: old(self).index.next_segment_id }),
                            ) && final(self).seg_views() == kept.push(
                                SegmentView {
                                    id: SegmentId { raw: old(self).index.next_segment_id },
                                    max_doc: e.docs@.len() as u32,
                                    docs: docs_view(e.docs@),
                                },
                            )
                            &&& !fits ==> final(self).seg_views() == old(self).seg_views()
                        }
                    },
                }
            }),
    {
        let ghost old_views = self.seg_views();
        let ghost ids = merge_operation.segment_ids@;
        match segment_entry {
            None => {
                let _ = self.delete_segments_by_id(&merge_operation.segment_ids);
                Ok(None)
            },
            Some(e) => {
                if e.docs.len() == 0 {
                    let _ = self.delete_segments_by_id(&merge_operation.segment_ids);
                    return Ok(None);
                }
                // Check that the merged segment fits before changing
                // anything.
                if e.docs.len() as u64 > u32::MAX as u64
                    || self.index.next_segment_id == u64::MAX {
                    return Err(IndexError::IndexFull);
                }
                let ghost kept = keep_from(old_views, ids, 0);
                let kept_total = self.count_kept_total(&merge_operation.segment_ids);
                if e.docs.len() as u64 > (u32::MAX as u64) - kept_total {
                    return Err(IndexError::IndexFull);
                }
                let _ = self.delete_segments_by_id(&merge_operation.segment_ids);
                let new_id = self.index.next_segment_id;
                let n = e.docs.len();
                let ghost edocs = docs_view(e.docs@);
                let seg = Segment {
                    meta: SegmentMeta { id: SegmentId { raw: new_id }, max_doc: n as u32 },
                    docs: e.docs,
                };
                let ghost mid_views = self.seg_views();
                self.index.segments.push(seg);
                self.index.next_segment_id = new_id + 1;
                proof {
                    let nv = self.index.segments@.last()@;
                    assert(self.seg_views() =~= mid_views.push(nv));
                    assert(nv.docs == edocs);
                    crate::index::lemma_total_docs_push(mid_views, nv);
                    assert forall|k: int| 0 <= k < self.seg_views().len() implies seg_wf(
                        #[trigger] self.seg_views()[k],
                    ) && self.seg_views()[k].docs.len() >= 1 && self.seg_views()[k].id.raw
                        < self.index.next_segment_id by {
                        if k < mid_views.len() {
                            assert(self.seg_views()[k] == mid_views[k]);
                        }
                    }
                    assert forall|a: int, b: int|
                        0 <= a < b < self.seg_views().len() implies (
                    #[trigger] self.seg_views()[a]).id != (#[trigger] self.seg_views()[b]).id by {
                        if b < mid_views.len() {
                            assert(self.seg_views()[a] == mid_views[a]);
                            assert(self.seg_views()[b] == mid_views[b]);
                        } else {
                            assert(self.seg_views()[a] == mid_views[a]);
                        }
                    }
                    assert(total_docs(self.seg_views()) <= u32::MAX);
                    crate::index::lemma_seg_count_le_total(self.seg_views(), 0);
                    assert(self.seg_views().len() <= u32::MAX);
                }
                Ok(Some(SegmentId { raw: new_id }))
            },
        }
    }

    /// The document total of the segments that survive a deletion.
    fn count_kept_total(&self, ids: &Vec<SegmentId>) -> (r: u64)
        requires
            self.wf(),
        ensures
            r == total_docs(keep_from(self.seg_views(), ids@, 0)),
            r <= total_docs(self.seg_views()),
    {
        let ghost views = self.seg_views();
        let mut sum: u64 = 0;
        let mut i: usize = 0;
        proof {
            lemma_keep_total(views, ids@, 0);
            crate::index::lemma_total_docs_nonneg_pub(views, 0);
            crate::index::lemma_total_docs_nonneg_pub(keep_from(views, ids@, 0), 0);
        }
        while i < self.index.segments.len()
            invariant
                i <= self.index.segments@.len(),
                self.wf(),
                views == self.seg_views(),
                sum + total_docs(keep_from(views, ids@, i as int)) == total_docs(
                    keep_from(views, ids@, 0),
                ),
                sum <= total_docs(views),
            decreases self.index.segments@.len() - i,
        {
            let seg = &self.index.segments[i];
            proof {
                assert(views[i as int] == self.index.segments@[i as int]@);
                crate::index::lemma_total_docs_nonneg_pub(keep_from(views, ids@, i as int + 1), 0);
                lemma_keep_total(views, ids@, i as int + 1);
                crate::index::lemma_total_docs_bounds(views, i as int + 1);
                crate::index::lemma_total_docs_nonneg_pub(views, i as int + 1);
            }
            if !contains_segment_id(ids, seg.meta.id) {
                let n = seg.docs.len();
                proof {
                    let whole = seq![views[i as int]] + keep_from(views, ids@, i as int + 1);
                    assert(keep_from(views, ids@, i as int) == whole);
                    assert(whole.drop_first() =~= keep_from(views, ids@, i as int + 1));
                    lemma_total_docs_first(whole);
                    lemma_keep_total(views, ids@, 0);
                    assert(sum + n + total_docs(keep_from(views, ids@, i as int + 1))
                        == total_docs(keep_from(views, ids@, 0)));
                }
                sum = sum + (n as u64);
            } else {
                proof {
                    assert(keep_from(views, ids@, i as int) == keep_from(views, ids@, i as int + 1));
                }
            }
            i += 1;
        }
        proof {
            assert(keep_from(views, ids@, self.index.segments@.len() as int)
                =~= Seq::<SegmentView>::empty());
        }
        sum
    }
}

/// Copies a list of segment ids.
fn clone_segment_ids(ids: &Vec<SegmentId>) -> (r: Vec<SegmentId>)
    ensures
        r@ == ids@,
{
    let mut out: Vec<SegmentId> = Vec::new();
    let mut i: usize = 0;
    while i < ids.len()
        invariant
            i <= ids@.len(),
            out@ == ids@.take(i as int),
        decreases ids@.len() - i,
    {
        out.push(ids[i]);
        proof {
            assert(out@ =~= ids@.take(i as int + 1));
        }
        i += 1;
    }
    proof {
        assert(ids@.take(ids@.len() as int) == ids@);
    }
    out
}

/// Every page committed into a segment stays searchable: a query whose
/// tokens all occur in the document is answered with its address.
pub proof fn lemma_committed_doc_searchable(
    ss: Seq<SegmentView>,
    si: int,
    di: int,
    toks: Seq<Seq<u8>>,
)
    requires
        0 <= si < ss.len() <= u32::MAX,
        0 <= di < ss[si].docs.len() <= u32::MAX,
        all_tokens_match(ss[si].docs[di], toks),
    ensures
        spec_and_search(ss, toks).contains(
            DocAddress { segment_ord: si as u32, doc_id: di as u32 },
        ),
{
    let addr = DocAddress { segment_ord: si as u32, doc_id: di as u32 };
    lemma_seg_results_contains(ss[si].docs, toks, si as u32, 0, di);
    lemma_search_contains(ss, toks, 0, si, addr);
}

/// A matching document shows up in its segment's results.
proof fn lemma_seg_results_contains(
    docs: Seq<DocView>,
    toks: Seq<Seq<u8>>,
    si: u32,
    from: int,
    di: int,
)
    requires
        0 <= from <= di < docs.len() <= u32::MAX,
        all_tokens_match(docs[di], toks),
    ensures
        and_results_from(docs, toks, si, from).contains(
            DocAddress { segment_ord: si, doc_id: di as u32 },
        ),
    decreases di - from,
{
    let addr = DocAddress { segment_ord: si, doc_id: di as u32 };
    if from == di {
        let whole = seq![addr] + and_results_from(docs, toks, si, di + 1);
        assert(whole[0] == addr);
    } else {
        lemma_seg_results_contains(docs, toks, si, from + 1, di);
        let rest = and_results_from(docs, toks, si, from + 1);
        let k = choose|k: int| 0 <= k < rest.len() && #[trigger] rest[k] == addr;
        if all_tokens_match(docs[from], toks) {
            let whole = seq![
                DocAddress { segment_ord: si, doc_id: from as u32 },
            ] + rest;
            assert(whole[k + 1] == addr);
        }
    }
}

/// A segment's results show up in the whole search.
proof fn lemma_search_contains(
    ss: Seq<SegmentView>,
    toks: Seq<Seq<u8>>,
    from: int,
    si: int,
    addr: DocAddress,
)
    requires
        0 <= from <= si < ss.len(),
        and_results_from(ss[si].docs, toks, si as u32, 0).contains(addr),
    ensures
        and_search_from(ss, toks, from).contains(addr),
    decreases si - from,
{
    if from == si {
        let own = and_results_from(ss[si].docs, toks, si as u32, 0);
        let k = choose|k: int| 0 <= k < own.len() && #[trigger] own[k] == addr;
        let whole = own + and_search_from(ss, toks, si + 1);
        assert(whole[k] == addr);
    } else {
        lemma_search_contains(ss, toks, from + 1, si, addr);
        let rest = and_search_from(ss, toks, from + 1);
        let k = choose|k: int| 0 <= k < rest.len() && #[trigger] rest[k] == addr;
        let own = and_results_from(ss[from].docs, toks, from as u32, 0);
        let whole = own + rest;
        assert(whole[own.len() + k] == addr);
    }
}

/// The committed segments an index would have after flushing its
/// pending batch.
pub open spec fn after_commit_views(iv: InvertedIndex) -> Seq<SegmentView> {
    if iv.spec_pending().len() == 0 {
        iv.seg_views()
    } else {
        iv.seg_views().push(
            SegmentView {
                id: SegmentId { raw: iv.index.next_segment_id },
                max_doc: iv.spec_pending().len() as u32,
                docs: iv.spec_pending(),
            },
        )
    }
}

/// The segments of `bs` whose id is not already taken, from segment `i`
/// on.
pub open spec fn absorb_from(own_ids: Seq<SegmentId>, bs: Seq<SegmentView>, i: int) -> Seq<
    SegmentView,
>
    decreases bs.len() - i,
{
    if i < 0 || i >= bs.len() {
        Seq::empty()
    } else if own_ids.contains(bs[i].id) {
        absorb_from(own_ids, bs, i + 1)
    } else {
        seq![bs[i]] + absorb_from(own_ids, bs, i + 1)
    }
}

/// Inserts a segment into a list sorted by descending document count,
/// after any segment at least as large (stable).
pub open spec fn ins_seg(s: Seq<SegmentView>, x: SegmentView) -> Seq<SegmentView>
    decreases s.len(),
{
    if s.len() == 0 {
        seq![x]
    } else if x.max_doc > s[0].max_doc {
        seq![x] + s
    } else {
        seq![s[0]] + ins_seg(s.drop_first(), x)
    }
}

/// Stable sort by descending document count.
pub open spec fn sort_segs(s: Seq<SegmentView>) -> Seq<SegmentView>
    decreases s.len(),
{
    if s.len() == 0 {
        Seq::empty()
    } else {
        ins_seg(sort_segs(s.drop_last()), s.last())
    }
}

/// Sorted by descending document count.
pub open spec fn segs_sorted_desc(s: Seq<SegmentView>) -> bool {
    forall|i: int, j: int|
        0 <= i < j < s.len() ==> (#[trigger] s[i]).max_doc >= (#[trigger] s[j]).max_doc
}

/// How many segments of the list carry this id.
pub open spec fn seg_id_count(s: Seq<SegmentView>, id: SegmentId) -> int
    decreases s.len(),
{
    if s.len() == 0 {
        0
    } else {
        (if s[0].id == id {
            1int
        } else {
            0int
        }) + seg_id_count(s.drop_first(), id)
    }
}

proof fn lemma_ins_seg_at(s: Seq<SegmentView>, x: SegmentView, k: int)
    requires
        0 <= k <= s.len(),
        forall|j: int| 0 <= j < k ==> (#[trigger] s[j]).max_doc >= x.max_doc,
        k < s.len() ==> x.max_doc > s[k].max_doc,
    ensures
        ins_seg(s, x) == s.take(k) + seq![x] + s.skip(k),
    decreases k,
{
    if s.len() == 0 {
        assert(s.take(0) + seq![x] + s.skip(0) =~= seq![x]);
    } else if k == 0 {
        assert(s.take(0) + seq![x] + s.skip(0) =~= seq![x] + s);
    } else {
        lemma_ins_seg_at(s.drop_first(), x, k - 1);
        assert forall|j: int| 0 <= j < k - 1 implies (#[trigger] s.drop_first()[j]).max_doc
            >= x.max_doc by {
            assert(s.drop_first()[j] == s[j + 1]);
        }
        assert(ins_seg(s, x) == seq![s[0]] + ins_seg(s.drop_first(), x));
        assert(seq![s[0]] + (s.drop_first().take(k - 1) + seq![x] + s.drop_first().skip(k - 1))
            =~= s.take(k) + seq![x] + s.skip(k));
    }
}

/// Sorted insertion: one element longer, every element is the new one or
/// an old one, and the id counts add up.
proof fn lemma_ins_seg_elements(s: Seq<SegmentView>, x: SegmentView)
    ensures
        ins_seg(s, x).len() == s.len() + 1,
        forall|j: int|
            0 <= j < ins_seg(s, x).len() ==> #[trigger] ins_seg(s, x)[j] == x || s.contains(
                ins_seg(s, x)[j],
            ),
        forall|id: SegmentId|
            seg_id_count(ins_seg(s, x), id) == seg_id_count(s, id) + (if x.id == id {
                1int
            } else {
                0int
            }),
    decreases s.len(),
{
    let ins = ins_seg(s, x);
    if s.len() == 0 {
        assert(ins[0] == x);
        assert forall|id: SegmentId|
            seg_id_count(ins, id) == seg_id_count(s, id) + (if x.id == id {
                1int
            } else {
                0int
            }) by {
            assert(ins.drop_first() =~= Seq::<SegmentView>::empty());
            assert(seg_id_count(ins, id) == (if ins[0].id == id {
                1int
            } else {
                0int
            }) + seg_id_count(ins.drop_first(), id));
            assert(seg_id_count(ins.drop_first(), id) == 0);
            assert(seg_id_count(s, id) == 0);
        }
    } else if x.max_doc > s[0].max_doc {
        assert forall|j: int| 0 <= j < ins.len() implies #[trigger] ins[j] == x || s.contains(
            ins[j],
        ) by {
            if j > 0 {
                assert(ins[j] == s[j - 1]);
            }
        }
        assert forall|id: SegmentId|
            seg_id_count(ins, id) == seg_id_count(s, id) + (if x.id == id {
                1int
            } else {
                0int
            }) by {
            assert(ins.drop_first() =~= s);
            assert(ins[0] == x);
            assert(seg_id_count(ins, id) == (if ins[0].id == id {
                1int
            } else {
                0int
            }) + seg_id_count(ins.drop_first(), id));
        }
    } else {
        lemma_ins_seg_elements(s.drop_first(), x);
        let rest = ins_seg(s.drop_first(), x);
        assert(ins == seq![s[0]] + rest);
        assert forall|j: int| 0 <= j < ins.len() implies #[trigger] ins[j] == x || s.contains(
            ins[j],
        ) by {
            if j == 0 {
                assert(ins[0] == s[0]);
            } else {
                assert(ins[j] == rest[j - 1]);
                if rest[j - 1] != x {
                    assert(s.drop_first().contains(rest[j - 1]));
                    let m = choose|m: int|
                        0 <= m < s.drop_first().len() && #[trigger] s.drop_first()[m] == rest[j
                            - 1];
                    assert(s[m + 1] == rest[j - 1]);
                }
            }
        }
        assert forall|id: SegmentId|
            seg_id_count(ins, id) == seg_id_count(s, id) + (if x.id == id {
                1int
            } else {
                0int
            }) by {
            assert(ins.drop_first() =~= rest);
            assert(ins[0] == s[0]);
            assert(ins.len() == s.len() + 1);
            assert(seg_id_count(ins, id) == (if ins[0].id == id {
                1int
            } else {
                0int
            }) + seg_id_count(ins.drop_first(), id));
            assert(seg_id_count(s, id) == (if s[0].id == id {
                1int
            } else {
                0int
            }) + seg_id_count(s.drop_first(), id));
        }
    }
}

/// Sorted insertion into a size-descending list stays descending.
proof fn lemma_ins_seg_sorted(s: Seq<SegmentView>, x: SegmentView)
    requires
        segs_sorted_desc(s),
    ensures
        segs_sorted_desc(ins_seg(s, x)),
    decreases s.len(),
{
    lemma_ins_seg_elements(s, x);
    if s.len() == 0 {
    } else if x.max_doc > s[0].max_doc {
        let whole = seq![x] + s;
        assert forall|i: int, j: int| 0 <= i < j < whole.len() implies (
        #[trigger] whole[i]).max_doc >= (#[trigger] whole[j]).max_doc by {
            if i > 0 {
                assert(whole[i] == s[i - 1]);
                assert(whole[j] == s[j - 1]);
            } else {
                assert(whole[j] == s[j - 1]);
                assert(s[0].max_doc >= s[j - 1].max_doc || j == 1);
            }
        }
    } else {
        assert(segs_sorted_desc(s.drop_first())) by {
            assert forall|i: int, j: int| 0 <= i < j < s.drop_first().len() implies (
            #[trigger] s.drop_first()[i]).max_doc >= (#[trigger] s.drop_first()[j]).max_doc by {
                assert(s.drop_first()[i] == s[i + 1]);
                assert(s.drop_first()[j] == s[j + 1]);
            }
        }
        lemma_ins_seg_sorted(s.drop_first(), x);
        lemma_ins_seg_elements(s.drop_first(), x);
        let rest = ins_seg(s.drop_first(), x);
        let whole = seq![s[0]] + rest;
        assert forall|i: int, j: int| 0 <= i < j < whole.len() implies (
        #[trigger] whole[i]).max_doc >= (#[trigger] whole[j]).max_doc by {
            if i > 0 {
                assert(whole[i] == rest[i - 1]);
                assert(whole[j] == rest[j - 1]);
            } else {
                assert(whole[j] == rest[j - 1]);
                assert(rest[j - 1] == x || s.drop_first().contains(rest[j - 1]));
                if rest[j - 1] != x {
                    let m = choose|m: int|
                        0 <= m < s.drop_first().len() && #[trigger] s.drop_first()[m] == rest[j
                            - 1];
                    assert(s[m + 1] == rest[j - 1]);
                }
            }
        }
    }
}

/// A sort keeps lengths, id counts and elements, and sorts.
proof fn lemma_sort_segs_props(s: Seq<SegmentView>)
    ensures
        sort_segs(s).len() == s.len(),
        segs_sorted_desc(sort_segs(s)),
        forall|j: int|
            0 <= j < sort_segs(s).len() ==> s.contains(#[trigger] sort_segs(s)[j]),
        forall|id: SegmentId| seg_id_count(#[trigger] sort_segs(s), id) == seg_id_count(s, id),
    decreases s.len(),
{
    if s.len() > 0 {
        lemma_sort_segs_props(s.drop_last());
        lemma_ins_seg_sorted(sort_segs(s.drop_last()), s.last());
        lemma_ins_seg_elements(sort_segs(s.drop_last()), s.last());
        assert forall|j: int| 0 <= j < sort_segs(s).len() implies s.contains(
            #[trigger] sort_segs(s)[j],
        ) by {
            if sort_segs(s)[j] == s.last() {
                assert(s[s.len() - 1] == s.last());
            } else {
                assert(sort_segs(s.drop_last()).contains(sort_segs(s)[j]));
                assert(s.drop_last().contains(sort_segs(s)[j]));
                let m = choose|m: int|
                    0 <= m < s.drop_last().len() && #[trigger] s.drop_last()[m] == sort_segs(s)[j];
                assert(s[m] == sort_segs(s)[j]);
            }
        }
        assert forall|id: SegmentId|
            seg_id_count(#[trigger] sort_segs(s), id) == seg_id_count(s, id) by {
            lemma_id_count_drop_last(s, id);
        }
    }
}

/// Splitting the last element off splits its id count.
proof fn lemma_id_count_drop_last(s: Seq<SegmentView>, id: SegmentId)
    requires
        s.len() > 0,
    ensures
        seg_id_count(s, id) == seg_id_count(s.drop_last(), id) + (if s.last().id == id {
            1int
        } else {
            0int
        }),
    decreases s.len(),
{
    if s.len() == 1 {
        assert(s.drop_last() =~= Seq::<SegmentView>::empty());
        assert(s.drop_first() =~= Seq::<SegmentView>::empty());
    } else {
        lemma_id_count_drop_last(s.drop_first(), id);
        assert(s.drop_first().drop_last() =~= s.drop_last().drop_first());
        assert(s.drop_first().last() == s.last());
        assert(s.drop_last()[0] == s[0]);
    }
}

/// Two positions with the same id mean an id count of at least two.
proof fn lemma_two_positions_count(s: Seq<SegmentView>, a: int, b: int, id: SegmentId)
    requires
        0 <= a < b < s.len(),
        s[a].id == id,
        s[b].id == id,
    ensures
        seg_id_count(s, id) >= 2,
    decreases s.len(),
{
    lemma_id_count_nonneg(s.drop_first(), id);
    if a == 0 {
        lemma_one_position_count(s.drop_first(), b - 1, id);
    } else {
        lemma_two_positions_count(s.drop_first(), a - 1, b - 1, id);
    }
}

/// A position with the id means an id count of at least one.
proof fn lemma_one_position_count(s: Seq<SegmentView>, a: int, id: SegmentId)
    requires
        0 <= a < s.len(),
        s[a].id == id,
    ensures
        seg_id_count(s, id) >= 1,
    decreases s.len(),
{
    lemma_id_count_nonneg(s.drop_first(), id);
    if a > 0 {
        lemma_one_position_count(s.drop_first(), a - 1, id);
    }
}

proof fn lemma_id_count_nonneg(s: Seq<SegmentView>, id: SegmentId)
    ensures
        seg_id_count(s, id) >= 0,
    decreases s.len(),
{
    if s.len() > 0 {
        lemma_id_count_nonneg(s.drop_first(), id);
    }
}

/// Pairwise-distinct ids mean an id count of at most one.
proof fn lemma_distinct_count(s: Seq<SegmentView>, id: SegmentId)
    requires
        forall|a: int, b: int|
            0 <= a < b < s.len() ==> (#[trigger] s[a]).id != (#[trigger] s[b]).id,
    ensures
        seg_id_count(s, id) <= 1,
    decreases s.len(),
{
    if s.len() > 0 {
        assert forall|a: int, b: int|
            0 <= a < b < s.drop_first().len() implies (#[trigger] s.drop_first()[a]).id != (
        #[trigger] s.drop_first()[b]).id by {
            assert(s.drop_first()[a] == s[a + 1]);
            assert(s.drop_first()[b] == s[b + 1]);
        }
        lemma_distinct_count(s.drop_first(), id);
        if s[0].id == id {
            // no later element can carry the same id
            if seg_id_count(s.drop_first(), id) >= 1 {
                lemma_count_gives_position(s.drop_first(), id);
                let m = choose|m: int|
                    0 <= m < s.drop_first().len() && (#[trigger] s.drop_first()[m]).id == id;
                assert(s[m + 1].id == id);
                assert(s[0].id != s[m + 1].id);
                assert(false);
            }
        }
    }
}

/// A positive id count names a position.
proof fn lemma_count_gives_position(s: Seq<SegmentView>, id: SegmentId)
    requires
        seg_id_count(s, id) >= 1,
    ensures
        exists|m: int| 0 <= m < s.len() && (#[trigger] s[m]).id == id,
    decreases s.len(),
{
    if s.len() > 0 {
        if s[0].id == id {
            assert(s[0].id == id);
        } else {
            lemma_count_gives_position(s.drop_first(), id);
            let m = choose|m: int|
                0 <= m < s.drop_first().len() && (#[trigger] s.drop_first()[m]).id == id;
            assert(s[m + 1].id == id);
        }
    }
}

/// Concatenation adds document totals.
proof fn lemma_total_concat(a: Seq<SegmentView>, b: Seq<SegmentView>)
    ensures
        total_docs(a + b) == total_docs(a) + total_docs(b),
    decreases a.len(),
{
    if a.len() == 0 {
        assert(a + b =~= b);
    } else {
        assert((a + b).drop_first() =~= a.drop_first() + b);
        assert((a + b).len() > 0);
        lemma_total_docs_first(a + b);
        lemma_total_docs_first(a);
        lemma_total_concat(a.drop_first(), b);
        assert((a + b)[0] == a[0]);
    }
}

/// Concatenation adds id counts.
proof fn lemma_count_concat(a: Seq<SegmentView>, b: Seq<SegmentView>, id: SegmentId)
    ensures
        seg_id_count(a + b, id) == seg_id_count(a, id) + seg_id_count(b, id),
    decreases a.len(),
{
    if a.len() == 0 {
        assert(a + b =~= b);
    } else {
        assert((a + b).drop_first() =~= a.drop_first() + b);
        lemma_count_concat(a.drop_first(), b, id);
        assert((a + b)[0] == a[0]);
        assert(seg_id_count(a + b, id) == (if (a + b)[0].id == id {
            1int
        } else {
            0int
        }) + seg_id_count((a + b).drop_first(), id));
    }
}

/// Sorted insertion adds the new segment's documents to the total.
proof fn lemma_ins_seg_total(s: Seq<SegmentView>, x: SegmentView)
    ensures
        total_docs(ins_seg(s, x)) == total_docs(s) + x.docs.len(),
    decreases s.len(),
{
    let ins = ins_seg(s, x);
    if s.len() == 0 {
        lemma_total_docs_first(ins);
        assert(ins.drop_first() =~= Seq::<SegmentView>::empty());
    } else if x.max_doc > s[0].max_doc {
        lemma_total_docs_first(ins);
        assert(ins.drop_first() =~= s);
        assert(ins[0] == x);
    } else {
        lemma_ins_seg_total(s.drop_first(), x);
        lemma_total_docs_first(ins);
        lemma_total_docs_first(s);
        assert(ins.drop_first() =~= ins_seg(s.drop_first(), x));
        assert(ins[0] == s[0]);
    }
}

/// Sorting keeps the document total.
proof fn lemma_sort_segs_total(s: Seq<SegmentView>)
    ensures
        total_docs(sort_segs(s)) == total_docs(s),
    decreases s.len(),
{
    if s.len() > 0 {
        lemma_sort_segs_total(s.drop_last());
        lemma_ins_seg_total(sort_segs(s.drop_last()), s.last());
        assert(s.drop_last().push(s.last()) =~= s);
        crate::index::lemma_total_docs_push(s.drop_last(), s.last());
    }
}

/// What absorption keeps: segments of the other list whose id was free,
/// each one an element of that list, pairwise distinct when the source
/// was, never more documents than the source, and no id that was taken.
proof fn lemma_absorb_props(own_ids: Seq<SegmentId>, bs: Seq<SegmentView>, i: int)
    requires
        0 <= i <= bs.len(),
        forall|a: int, b: int|
            0 <= a < b < bs.len() ==> (#[trigger] bs[a]).id != (#[trigger] bs[b]).id,
    ensures
        forall|a: int|
            0 <= a < absorb_from(own_ids, bs, i).len() ==> exists|j: int|
                i <= j < bs.len() && #[trigger] absorb_from(own_ids, bs, i)[a] == bs[j],
        forall|a: int, b: int|
            0 <= a < b < absorb_from(own_ids, bs, i).len() ==> (#[trigger] absorb_from(
                own_ids,
                bs,
                i,
            )[a]).id != (#[trigger] absorb_from(own_ids, bs, i)[b]).id,
        forall|a: int|
            0 <= a < absorb_from(own_ids, bs, i).len() ==> !own_ids.contains(
                (#[trigger] absorb_from(own_ids, bs, i)[a]).id,
            ),
        total_docs(absorb_from(own_ids, bs, i)) <= total_docs_from(bs, i),
    decreases bs.len() - i,
{
    crate::index::lemma_total_docs_nonneg_pub(bs, i);
    if i < bs.len() {
        lemma_absorb_props(own_ids, bs, i + 1);
        let rest = absorb_from(own_ids, bs, i + 1);
        crate::index::lemma_total_docs_nonneg_pub(rest, 0);
        if !own_ids.contains(bs[i].id) {
            let whole = seq![bs[i]] + rest;
            assert forall|a: int| 0 <= a < whole.len() implies exists|j: int|
                i <= j < bs.len() && #[trigger] whole[a] == bs[j] by {
                if a == 0 {
                    assert(whole[0] == bs[i]);
                } else {
                    assert(whole[a] == rest[a - 1]);
                    let j = choose|j: int| i + 1 <= j < bs.len() && rest[a - 1] == bs[j];
                    assert(i <= j < bs.len() && whole[a] == bs[j]);
                }
            }
            assert forall|a: int, b: int| 0 <= a < b < whole.len() implies (
            #[trigger] whole[a]).id != (#[trigger] whole[b]).id by {
                if a == 0 {
                    assert(whole[b] == rest[b - 1]);
                    let j = choose|j: int| i + 1 <= j < bs.len() && rest[b - 1] == bs[j];
                    assert(bs[i].id != bs[j].id);
                } else {
                    assert(whole[a] == rest[a - 1]);
                    assert(whole[b] == rest[b - 1]);
                }
            }
            assert forall|a: int| 0 <= a < whole.len() implies !own_ids.contains(
                (#[trigger] whole[a]).id,
            ) by {
                if a > 0 {
                    assert(whole[a] == rest[a - 1]);
                    assert(rest.contains(rest[a - 1]) || true);
                    assert(!own_ids.contains(rest[a - 1].id));
                }
            }
            assert(whole.drop_first() =~= rest);
            lemma_total_docs_first(whole);
        }
    }
}

impl InvertedIndex {
    /// Offline union of two indices. Both flush their pending batches;
    /// the other's segments join this one's, skipping any segment whose
    /// id this index already holds; and the combined segment list is
    /// rewritten sorted by descending document count, as a reopened
    /// index would lay it out.
    #[verifier::rlimit(100)]
    pub fn merge(self, other: InvertedIndex) -> (r: Self)
        requires
            self.wf(),
            other.wf(),
            total_docs(self.seg_views()) + self.spec_pending().len() + total_docs(
                other.seg_views(),
            ) + other.spec_pending().len() <= u32::MAX,
            self.index.next_segment_id < u64::MAX,
            other.index.next_segment_id < u64::MAX,
        ensures
            r.wf(),
            r.spec_pending().len() == 0,
            segs_sorted_desc(r.seg_views()),
            r.seg_views() == sort_segs(
                after_commit_views(self) + absorb_from(
                    seg_ids(after_commit_views(self)),
                    after_commit_views(other),
                    0,
                ),
            ),
    {
        let mut this = self;
        let mut that = other;
        let ghost self0 = this;
        let ghost other0 = that;
        proof {
            crate::index::lemma_total_docs_nonneg_pub(this.seg_views(), 0);
            crate::index::lemma_total_docs_nonneg_pub(that.seg_views(), 0);
        }
        let c1 = this.commit();
        proof {
            assert(c1 is Ok);
        }
        let c2 = that.commit();
        proof {
            assert(c2 is Ok);
        }
        let ghost selfc = this.seg_views();
        let ghost otherc = that.seg_views();
        let ghost self_next = this.index.next_segment_id;
        let ghost other_next = that.index.next_segment_id;
        proof {
            assert(selfc == after_commit_views(self0));
            assert(otherc == after_commit_views(other0));
            if self0.spec_pending().len() == 0 {
                assert(total_docs(selfc) == total_docs(self0.seg_views()));
            } else {
                crate::index::lemma_total_docs_push(
                    self0.seg_views(),
                    selfc.last(),
                );
                assert(selfc =~= self0.seg_views().push(selfc.last()));
            }
            if other0.spec_pending().len() == 0 {
                assert(total_docs(otherc) == total_docs(other0.seg_views()));
            } else {
                crate::index::lemma_total_docs_push(
                    other0.seg_views(),
                    otherc.last(),
                );
                assert(otherc =~= other0.seg_views().push(otherc.last()));
            }
            assert(total_docs(selfc) + total_docs(otherc) <= u32::MAX);
        }
        let own_ids = this.segment_ids();
        let ghost ids0 = own_ids@;
        let mut combined: Vec<Segment> = Vec::new();
        core::mem::swap(&mut this.index.segments, &mut combined);
        let mut incoming: Vec<Segment> = Vec::new();
        core::mem::swap(&mut that.index.segments, &mut incoming);
        let ghost bs = segments_view(incoming@);
        proof {
            assert(bs == otherc);
            assert(segments_view(combined@) == selfc);
            assert(segments_view(combined@) + absorb_from(ids0, bs, 0) =~= selfc + absorb_from(
                ids0,
                bs,
                0,
            ));
        }
        while incoming.len() > 0
            invariant
                incoming@.len() <= bs.len(),
                segments_view(incoming@) == bs.skip(bs.len() - incoming@.len()),
                segments_view(combined@) + absorb_from(ids0, bs, bs.len() - incoming@.len())
                    == selfc + absorb_from(ids0, bs, 0),
                ids0 == own_ids@,
            decreases incoming@.len(),
        {
            let ghost done = bs.len() - incoming@.len();
            let ghost pre = segments_view(combined@);
            let ghost inc_pre = incoming@;
            let seg = incoming.remove(0);
            proof {
                assert(segments_view(inc_pre)[0] == inc_pre[0]@);
                assert(bs.skip(done)[0] == bs[done]);
                assert(seg@ == bs[done]);
                assert forall|y: int|
                    0 <= y < incoming@.len() implies segments_view(incoming@)[y] == bs[done + 1
                    + y] by {
                    assert(segments_view(incoming@)[y] == incoming@[y]@);
                    assert(incoming@[y] == inc_pre[y + 1]);
                    assert(segments_view(inc_pre)[y + 1] == inc_pre[y + 1]@);
                    assert(bs.skip(done)[y + 1] == bs[done + 1 + y]);
                }
                assert(segments_view(incoming@) =~= bs.skip(done + 1));
            }
            if !contains_segment_id(&own_ids, seg.meta.id) {
                combined.push(seg);
                proof {
                    assert(!ids0.contains(bs[done].id));
                    assert(segments_view(combined@) =~= pre + seq![bs[done]]);
                    assert(pre + seq![bs[done]] + absorb_from(ids0, bs, done + 1) =~= pre
                        + absorb_from(ids0, bs, done));
                }
            } else {
                proof {
                    assert(ids0.contains(bs[done].id));
                    assert(absorb_from(ids0, bs, done) == absorb_from(ids0, bs, done + 1));
                }
            }
        }
        let ghost absorbed = absorb_from(ids0, bs, 0);
        proof {
            assert(absorb_from(ids0, bs, bs.len() as int) =~= Seq::<SegmentView>::empty());
            assert(segments_view(combined@) =~= selfc + absorbed);
        }
        let ghost cmb = segments_view(combined@);
        let new_next = if this.index.next_segment_id >= that.index.next_segment_id {
            this.index.next_segment_id
        } else {
            that.index.next_segment_id
        };
        let mut out: Vec<Segment> = Vec::new();
        let mut rem = combined;
        proof {
            assert(segments_view(rem@) == cmb);
            assert(segments_view(out@) =~= sort_segs(cmb.take(0)));
        }
        while rem.len() > 0
            invariant
                rem@.len() <= cmb.len(),
                segments_view(rem@) == cmb.skip(cmb.len() - rem@.len()),
                segments_view(out@) == sort_segs(cmb.take(cmb.len() - rem@.len())),
            decreases rem@.len(),
        {
            let ghost done = cmb.len() - rem@.len();
            let ghost pre = segments_view(out@);
            let ghost rem_pre = rem@;
            let x = rem.remove(0);
            proof {
                assert(segments_view(rem_pre)[0] == rem_pre[0]@);
                assert(cmb.skip(done)[0] == cmb[done]);
                assert(x@ == cmb[done]);
                assert forall|y: int|
                    0 <= y < rem@.len() implies segments_view(rem@)[y] == cmb[done + 1 + y] by {
                    assert(segments_view(rem@)[y] == rem@[y]@);
                    assert(rem@[y] == rem_pre[y + 1]);
                    assert(segments_view(rem_pre)[y + 1] == rem_pre[y + 1]@);
                    assert(cmb.skip(done)[y + 1] == cmb[done + 1 + y]);
                }
                assert(segments_view(rem@) =~= cmb.skip(done + 1));
            }
            let mut k: usize = 0;
            while k < out.len() && out[k].meta.max_doc >= x.meta.max_doc
                invariant
                    k <= out@.len(),
                    forall|j: int|
                        0 <= j < k ==> (#[trigger] segments_view(out@)[j]).max_doc
                            >= x@.max_doc,
                    segments_view(out@) == pre,
                decreases out@.len() - k,
            {
                proof {
                    assert(segments_view(out@)[k as int] == out@[k as int]@);
                }
                k += 1;
            }
            proof {
                if k < out@.len() {
                    assert(segments_view(out@)[k as int] == out@[k as int]@);
                }
                lemma_ins_seg_at(pre, x@, k as int);
            }
            out.insert(k, x);
            proof {
                assert(segments_view(out@).len() == out@.len());
                assert forall|y: int|
                    0 <= y < segments_view(out@).len() implies segments_view(out@)[y] == (
                pre.take(k as int) + seq![cmb[done]] + pre.skip(k as int))[y] by {
                    assert(segments_view(out@)[y] == out@[y]@);
                    if y < k {
                        assert(out@[y]@ == pre[y]);
                    } else if y == k {
                    } else {
                        assert(out@[y]@ == pre[y - 1]);
                    }
                }
                assert(segments_view(out@) =~= pre.take(k as int) + seq![cmb[done]] + pre.skip(
                    k as int,
                ));
                assert(cmb.take(done + 1).drop_last() == cmb.take(done));
                assert(cmb.take(done + 1).last() == cmb[done]);
            }
        }
        proof {
            assert(cmb.take(cmb.len() as int) == cmb);
            assert(segments_view(out@) =~= sort_segs(cmb));
        }
        this.index.segments = out;
        this.index.next_segment_id = new_next;
        proof {
            let sorted = segments_view(this.index.segments@);
            assert(sorted == sort_segs(cmb));
            lemma_sort_segs_props(cmb);
            lemma_sort_segs_total(cmb);
            lemma_absorb_props(ids0, bs, 0);
            lemma_total_concat(selfc, absorbed);
            assert(total_docs(sorted) <= u32::MAX);
            assert forall|j: int|
                0 <= j < sorted.len() implies seg_wf(#[trigger] sorted[j]) && sorted[j].docs.len()
                >= 1 && sorted[j].id.raw < new_next by {
                assert(cmb.contains(sorted[j]));
                let m = choose|m: int| 0 <= m < cmb.len() && #[trigger] cmb[m] == sorted[j];
                if m < selfc.len() {
                    assert(cmb[m] == selfc[m]);
                } else {
                    assert(cmb[m] == absorbed[m - selfc.len()]);
                    let jj = choose|jj: int|
                        0 <= jj < bs.len() && #[trigger] absorbed[m - selfc.len()] == bs[jj];
                    assert(bs[jj] == otherc[jj]);
                }
            }
            crate::index::lemma_seg_count_le_total(sorted, 0);
            assert forall|a: int, b: int|
                0 <= a < b < sorted.len() implies (#[trigger] sorted[a]).id != (
            #[trigger] sorted[b]).id by {
                if sorted[a].id == sorted[b].id {
                    let id = sorted[a].id;
                    lemma_two_positions_count(sorted, a, b, id);
                    lemma_count_concat(selfc, absorbed, id);
                    lemma_distinct_count(selfc, id);
                    lemma_distinct_count(absorbed, id);
                    lemma_id_count_nonneg(selfc, id);
                    lemma_id_count_nonneg(absorbed, id);
                    if seg_id_count(selfc, id) >= 1 && seg_id_count(absorbed, id) >= 1 {
                        lemma_count_gives_position(selfc, id);
                        let ms = choose|ms: int|
                            0 <= ms < selfc.len() && (#[trigger] selfc[ms]).id == id;
                        assert(ids0[ms] == selfc[ms].id);
                        assert(ids0.contains(id));
                        lemma_count_gives_position(absorbed, id);
                        let ma = choose|ma: int|
                            0 <= ma < absorbed.len() && (#[trigger] absorbed[ma]).id == id;
                        assert(!ids0.contains(absorbed[ma].id));
                        assert(false);
                    }
                    assert(seg_id_count(sorted, id) <= 1);
                    assert(false);
                }
            }
            assert forall|i: int, j: int|
                0 <= i < j < this.index.segments@.len() implies (
            #[trigger] this.index.segments@[i])@.id != (#[trigger] this.index.segments@[j])@.id
                by {
                assert(this.index.segments@[i]@ == sorted[i]);
                assert(this.index.segments@[j]@ == sorted[j]);
            }
            assert forall|i: int|
                0 <= i < this.index.segments@.len() implies (
            #[trigger] this.index.segments@[i])@.id.raw < this.index.next_segment_id by {
                assert(this.index.segments@[i]@ == sorted[i]);
            }
        }
        this
    }
}

/// Copies a byte string.
fn clone_bytes(b: &Vec<u8>) -> (r: Vec<u8>)
    ensures
        r@ == b@,
{
    let r = b.clone();
    proof {
        assert(r@ =~= b@);
    }
    r
}

/// Whether the document contains every query token in some text field.
fn doc_matches_all_tokens(doc: &TantivyDocument, toks: &Vec<Vec<u8>>) -> (r: bool)
    requires
        doc_wf(doc@),
    ensures
        r == all_tokens_match(doc@, crate::tokenize::deep_bytes(toks@)),
{
    let ghost tv = crate::tokenize::deep_bytes(toks@);
    let mut k: usize = 0;
    while k < toks.len()
        invariant
            k <= toks@.len(),
            doc_wf(doc@),
            tv == crate::tokenize::deep_bytes(toks@),
            forall|j: int| 0 <= j < k ==> token_matches_doc(doc@, #[trigger] tv[j]),
        decreases toks@.len() - k,
    {
        proof {
            assert(tv[k as int] == toks@[k as int]@);
        }
        let tok = &toks[k];
        let title_term = crate::schema::Term {
            field: Field { id: 0 },
            value: crate::schema::TermValue::Bytes(clone_bytes(tok)),
        };
        let body_term = crate::schema::Term {
            field: Field { id: 1 },
            value: crate::schema::TermValue::Bytes(clone_bytes(tok)),
        };
        let url_term = crate::schema::Term {
            field: Field { id: 2 },
            value: crate::schema::TermValue::Bytes(clone_bytes(tok)),
        };
        let in_title = crate::index::term_freq_in_doc(doc, &title_term) > 0;
        let in_body = crate::index::term_freq_in_doc(doc, &body_term) > 0;
        let in_url = crate::index::term_freq_in_doc(doc, &url_term) > 0;
        if !(in_title || in_body || in_url) {
            return false;
        }
        k += 1;
    }
    true
}

} // verus!

