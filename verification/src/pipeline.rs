//! The ranking pipeline's collection logic: paging arithmetic, the bucket
//! collector that keeps candidates sorted by score, and derank-similar
//! collection. Scores arrive as order-preserving 64-bit encodings; the
//! numeric scorers (signal sums, model predictions) run outside the
//! library and hand their results in through the score field.

use vstd::prelude::*;
use std::collections::HashSet;
use crate::index::DocAddress;

verus! {

broadcast use vstd::std_specs::hash::group_hash_axioms;

/// The default number of results per page.
pub const NUM_RESULTS_PER_PAGE: usize = 20;

/// A user's search request, as the pipeline sees it.
#[derive(Debug)]
pub struct SearchQuery {
    pub query: String,
    pub page: usize,
    pub num_results: usize,
}

impl Default for SearchQuery {
    /// An empty query for the first page with the default page size.
    fn default() -> (r: Self)
        ensures
            r.query@.len() == 0,
            r.page == 0,
            r.num_results == NUM_RESULTS_PER_PAGE,
    {
        SearchQuery { query: String::new(), page: 0, num_results: 20 }
    }
}

/// The per-site, per-title and per-URL hashes used to spot near-identical
/// results.
#[derive(Clone, Copy, PartialEq, Eq, Structural, Debug)]
pub struct Hashes {
    pub site: u64,
    pub title: u64,
    pub url: u64,
    pub simhash: u64,
}

/// The first-stage score of a candidate.
#[derive(Clone, Copy, PartialEq, Eq, Structural, Debug)]
pub struct Score {
    pub total: u64,
}

/// The shard-local handle of a candidate: its address, first-stage score
/// and similarity hashes.
#[derive(Clone, Copy, PartialEq, Eq, Structural, Debug)]
pub struct WebsitePointer {
    pub score: Score,
    pub hashes: Hashes,
    pub address: DocAddress,
}

/// A candidate in the pipeline. `score` is an order-preserving 64-bit
/// encoding of the ranking score.
#[derive(Debug)]
pub struct RankingWebsite {
    pub pointer: WebsitePointer,
    pub title: Option<String>,
    pub clean_body: Option<String>,
    pub optic_boost: Option<u64>,
    pub score: u64,
}

impl RankingWebsite {
    /// A fresh candidate carrying its first-stage score.
    pub fn new(pointer: WebsitePointer) -> (r: Self)
        ensures
            r.pointer == pointer,
            r.score == pointer.score.total,
            r.title is None,
            r.clean_body is None,
            r.optic_boost is None,
    {
        RankingWebsite {
            pointer,
            title: None,
            clean_body: None,
            optic_boost: None,
            score: pointer.score.total,
        }
    }
}

/// A scorer rewrites the scores of a batch of candidates. The numeric
/// scorers (signal sums, cross-encoders) are implemented by the callers
/// of this library; the identity scorer leaves the batch as it is.
pub trait Scorer {
    fn score(&self, websites: &mut Vec<RankingWebsite>);

    fn set_query_info(&mut self, query: &SearchQuery);
}

/// The scorer that changes nothing.
pub struct IdentityScorer;

impl Scorer for IdentityScorer {
    fn score(&self, _websites: &mut Vec<RankingWebsite>) {
    }

    fn set_query_info(&mut self, _query: &SearchQuery) {
    }
}

/// Collector knobs; the in-memory collector needs none beyond the code's
/// own parameters.
#[derive(Clone, Copy, PartialEq, Eq, Structural, Debug)]
pub struct CollectorConfig {
    pub site_penalty: bool,
}

impl Default for CollectorConfig {
    fn default() -> (r: Self)
        ensures
            r.site_penalty,
    {
        CollectorConfig { site_penalty: true }
    }
}

/// Inserts a candidate into a score-descending list, after any candidate
/// with the same or a higher score (stable).
pub open spec fn ins_by_score(s: Seq<RankingWebsite>, x: RankingWebsite) -> Seq<RankingWebsite>
    decreases s.len(),
{
    if s.len() == 0 {
        seq![x]
    } else if x.score > s[0].score {
        seq![x] + s
    } else {
        seq![s[0]] + ins_by_score(s.drop_first(), x)
    }
}

/// Stable sort by descending score.
pub open spec fn sort_desc(s: Seq<RankingWebsite>) -> Seq<RankingWebsite>
    decreases s.len(),
{
    if s.len() == 0 {
        Seq::empty()
    } else {
        ins_by_score(sort_desc(s.drop_last()), s.last())
    }
}

/// The site hashes of a candidate list.
pub open spec fn sites_of(s: Seq<RankingWebsite>) -> Seq<u64> {
    s.map_values(|w: RankingWebsite| w.pointer.hashes.site)
}

/// The candidates whose site was not seen earlier in the list, in order.
pub open spec fn firsts_from(s: Seq<RankingWebsite>, i: int) -> Seq<RankingWebsite>
    decreases s.len() - i,
{
    if i < 0 || i >= s.len() {
        Seq::empty()
    } else if sites_of(s.take(i)).contains(s[i].pointer.hashes.site) {
        firsts_from(s, i + 1)
    } else {
        seq![s[i]] + firsts_from(s, i + 1)
    }
}

/// The candidates demoted for repeating an earlier site, in order.
pub open spec fn demoted_from(s: Seq<RankingWebsite>, i: int) -> Seq<RankingWebsite>
    decreases s.len() - i,
{
    if i < 0 || i >= s.len() {
        Seq::empty()
    } else if sites_of(s.take(i)).contains(s[i].pointer.hashes.site) {
        seq![s[i]] + demoted_from(s, i + 1)
    } else {
        demoted_from(s, i + 1)
    }
}

/// Derank-similar collection: each site's first (best) candidate keeps
/// its place; later candidates of an already-seen site move to the back,
/// in order.
pub open spec fn derank_similar(s: Seq<RankingWebsite>) -> Seq<RankingWebsite> {
    firsts_from(s, 0) + demoted_from(s, 0)
}

/// What the bucket collector holds after being fed a candidate list:
/// the candidates in descending score order (stable), never more than
/// its capacity — past it, the lowest-scored candidate falls out.
pub open spec fn capped_sort(s: Seq<RankingWebsite>, cap: int) -> Seq<RankingWebsite>
    decreases s.len(),
{
    if s.len() == 0 {
        Seq::empty()
    } else {
        let t = ins_by_score(capped_sort(s.drop_last(), cap), s.last());
        if t.len() > cap {
            t.drop_last()
        } else {
            t
        }
    }
}

/// What one ranking stage returns for a page: the candidates collected
/// into a bucket of capacity `cap`, sorted by descending score with
/// similar results deranked when asked, then the page cut out —
/// skipping `offset` and taking `top_n`.
pub open spec fn spec_stage_apply(
    s: Seq<RankingWebsite>,
    offset: int,
    top_n: int,
    cap: int,
    derank: bool,
) -> Seq<RankingWebsite> {
    let pool = if derank {
        derank_similar(capped_sort(s, cap))
    } else {
        capped_sort(s, cap)
    };
    let lo = if offset <= pool.len() {
        offset
    } else {
        pool.len() as int
    };
    let hi = if offset + top_n <= pool.len() {
        offset + top_n
    } else {
        pool.len() as int
    };
    pool.subrange(lo, hi)
}

/// Keeps up to `capacity` candidates sorted by descending score.
pub struct BucketCollector {
    pub capacity: usize,
    pub config: CollectorConfig,
    pub items: Vec<RankingWebsite>,
}

impl BucketCollector {
    pub fn new(capacity: usize, config: CollectorConfig) -> (r: Self)
        ensures
            r.capacity == capacity,
            r.config == config,
            r.items@.len() == 0,
    {
        BucketCollector { capacity, config, items: Vec::new() }
    }

    /// Inserts one candidate in score order; past the capacity, the
    /// lowest-scored candidate falls out. The scan runs from the back,
    /// so feeding already-ranked candidates costs no shifting.
    pub fn insert(&mut self, website: RankingWebsite)
        requires
            sorted_desc_by_score(old(self).items@),
        ensures
            final(self).capacity == old(self).capacity,
            final(self).config == old(self).config,
            final(self).items@ == if ins_by_score(old(self).items@, website).len() <= old(
                self,
            ).capacity {
                ins_by_score(old(self).items@, website)
            } else {
                ins_by_score(old(self).items@, website).drop_last()
            },
    {
        let mut k: usize = self.items.len();
        while k > 0 && self.items[k - 1].score < website.score
            invariant
                k <= self.items@.len(),
                forall|j: int|
                    k <= j < self.items@.len() ==> (#[trigger] self.items@[j]).score
                        < website.score,
            decreases k,
        {
            k -= 1;
        }
        proof {
            assert forall|j: int| 0 <= j < k implies (#[trigger] self.items@[j]).score
                >= website.score by {
                assert(self.items@[j].score >= self.items@[k - 1].score);
            }
            lemma_ins_score_at(self.items@, website, k as int);
        }
        self.items.insert(k, website);
        proof {
            assert(self.items@ =~= old(self).items@.take(k as int) + seq![website] + old(
                self,
            ).items@.skip(k as int));
        }
        if self.items.len() > self.capacity {
            let ghost pre = self.items@;
            let _ = self.items.pop();
            proof {
                assert(self.items@ =~= pre.drop_last());
            }
        }
    }

    /// The collected candidates, best first, with repeated sites moved
    /// back when asked.
    pub fn into_sorted_vec(self, derank: bool) -> (r: Vec<RankingWebsite>)
        requires
            sorted_desc_by_score(self.items@),
        ensures
            derank ==> r@ == derank_similar(self.items@),
            !derank ==> r@ == self.items@,
    {
        if !derank {
            return self.items;
        }
        let ghost sv = self.items@;
        // reverse the items onto a stack so they pop off in order
        let mut rest = self.items;
        let mut stack: Vec<RankingWebsite> = Vec::new();
        while rest.len() > 0
            invariant
                rest@ == sv.take(rest@.len() as int),
                stack@.len() + rest@.len() == sv.len(),
                forall|j: int|
                    0 <= j < stack@.len() ==> #[trigger] stack@[j] == sv[sv.len() - 1 - j],
            decreases rest@.len(),
        {
            let ghost rl = rest@.len() as int;
            let x = rest.pop().unwrap();
            proof {
                assert(x == sv.take(rl)[rl - 1]);
                assert(rest@ =~= sv.take(rl - 1));
            }
            stack.push(x);
        }
        let mut firsts: Vec<RankingWebsite> = Vec::new();
        let mut demoted: Vec<RankingWebsite> = Vec::new();
        let mut seen: HashSet<u64> = HashSet::new();
        proof {
            assert(firsts@ + firsts_from(sv, 0) =~= firsts_from(sv, 0));
            assert(demoted@ + demoted_from(sv, 0) =~= demoted_from(sv, 0));
            assert(seen@ =~= sites_of(sv.take(0)).to_set());
        }
        while stack.len() > 0
            invariant
                stack@.len() <= sv.len(),
                forall|j: int|
                    0 <= j < stack@.len() ==> #[trigger] stack@[j] == sv[sv.len() - 1 - j],
                firsts@ + firsts_from(sv, sv.len() - stack@.len()) == firsts_from(sv, 0),
                demoted@ + demoted_from(sv, sv.len() - stack@.len()) == demoted_from(sv, 0),
                seen@ == sites_of(sv.take(sv.len() - stack@.len())).to_set(),
            decreases stack@.len(),
        {
            let ghost sl = stack@.len() as int;
            let ghost i = sv.len() - sl;
            let ghost fpre = firsts@;
            let ghost dpre = demoted@;
            let ghost spre = seen@;
            let x = stack.pop().unwrap();
            proof {
                assert(x == sv[sv.len() - sl]);
                assert(x == sv[i]);
                assert(sites_of(sv.take(i + 1)) =~= sites_of(sv.take(i)).push(
                    sv[i].pointer.hashes.site,
                ));
            }
            let site = x.pointer.hashes.site;
            let dup = seen.contains(&site);
            proof {
                assert(dup == seen@.contains(site));
                assert(dup == sites_of(sv.take(i)).contains(site)) by {
                    if seen@.contains(site) {
                        assert(sites_of(sv.take(i)).to_set().contains(site));
                    }
                    if sites_of(sv.take(i)).contains(site) {
                        assert(sites_of(sv.take(i)).to_set().contains(site));
                    }
                }
            }
            if dup {
                demoted.push(x);
                proof {
                    assert(demoted@ =~= dpre + seq![sv[i]]);
                    assert(dpre + seq![sv[i]] + demoted_from(sv, i + 1) =~= dpre + demoted_from(
                        sv,
                        i,
                    ));
                    assert(firsts_from(sv, i) == firsts_from(sv, i + 1));
                    lemma_sites_take_step(sv, i, spre);
                }
            } else {
                let _ = seen.insert(site);
                firsts.push(x);
                proof {
                    assert(firsts@ =~= fpre + seq![sv[i]]);
                    assert(fpre + seq![sv[i]] + firsts_from(sv, i + 1) =~= fpre + firsts_from(
                        sv,
                        i,
                    ));
                    assert(demoted_from(sv, i) == demoted_from(sv, i + 1));
                    assert(seen@ =~= spre.insert(site));
                    lemma_sites_take_step_push(sv, i, spre, site);
                }
            }
        }
        proof {
            assert(firsts_from(sv, sv.len() as int) =~= Seq::<RankingWebsite>::empty());
            assert(demoted_from(sv, sv.len() as int) =~= Seq::<RankingWebsite>::empty());
            assert(firsts@ =~= firsts_from(sv, 0));
            assert(demoted@ =~= demoted_from(sv, 0));
        }
        let mut out = firsts;
        let ghost fv = out@;
        let ghost dv = demoted@;
        // the demoted results follow, in order, via the same reversal
        let mut drest = demoted;
        let mut dstack: Vec<RankingWebsite> = Vec::new();
        while drest.len() > 0
            invariant
                drest@ == dv.take(drest@.len() as int),
                dstack@.len() + drest@.len() == dv.len(),
                forall|j: int|
                    0 <= j < dstack@.len() ==> #[trigger] dstack@[j] == dv[dv.len() - 1 - j],
            decreases drest@.len(),
        {
            let ghost rl = drest@.len() as int;
            let y = drest.pop().unwrap();
            proof {
                assert(y == dv.take(rl)[rl - 1]);
                assert(drest@ =~= dv.take(rl - 1));
            }
            dstack.push(y);
        }
        while dstack.len() > 0
            invariant
                dstack@.len() <= dv.len(),
                forall|j: int|
                    0 <= j < dstack@.len() ==> #[trigger] dstack@[j] == dv[dv.len() - 1 - j],
                out@ == fv + dv.take(dv.len() - dstack@.len()),
            decreases dstack@.len(),
        {
            let ghost sl = dstack@.len() as int;
            let ghost k = dv.len() - sl;
            let ghost opre = out@;
            let y = dstack.pop().unwrap();
            proof {
                assert(y == dv[k]);
            }
            out.push(y);
            proof {
                assert(out@ =~= opre.push(dv[k]));
                assert(opre.push(dv[k]) =~= fv + dv.take(k + 1));
            }
        }
        proof {
            assert(dv.take(dv.len() as int) == dv);
            assert(out@ =~= fv + dv);
        }
        proof {
            assert(out@ =~= derank_similar(sv));
        }
        out
    }
}

/// A score-descending list.
pub open spec fn sorted_desc_by_score(s: Seq<RankingWebsite>) -> bool {
    forall|i: int, j: int| 0 <= i < j < s.len() ==> (#[trigger] s[i]).score >= (#[trigger] s[j]).score
}

proof fn lemma_sites_take_step(sv: Seq<RankingWebsite>, i: int, spre: Set<u64>)
    requires
        0 <= i < sv.len(),
        spre == sites_of(sv.take(i)).to_set(),
        sites_of(sv.take(i)).contains(sv[i].pointer.hashes.site),
    ensures
        spre == sites_of(sv.take(i + 1)).to_set(),
{
    let a = sites_of(sv.take(i));
    let b = sites_of(sv.take(i + 1));
    assert(b =~= a.push(sv[i].pointer.hashes.site));
    assert forall|y: u64| b.to_set().contains(y) implies a.to_set().contains(y) by {
        let k = choose|k: int| 0 <= k < b.len() && #[trigger] b[k] == y;
        if k < a.len() {
            assert(a[k] == y);
        } else {
            assert(y == sv[i].pointer.hashes.site);
        }
    }
    assert forall|y: u64| a.to_set().contains(y) implies b.to_set().contains(y) by {
        let k = choose|k: int| 0 <= k < a.len() && #[trigger] a[k] == y;
        assert(b[k] == y);
    }
    assert(spre =~= b.to_set());
}

proof fn lemma_sites_take_step_push(sv: Seq<RankingWebsite>, i: int, spre: Set<u64>, site: u64)
    requires
        0 <= i < sv.len(),
        spre == sites_of(sv.take(i)).to_set(),
        site == sv[i].pointer.hashes.site,
    ensures
        spre.insert(site) == sites_of(sv.take(i + 1)).to_set(),
{
    let a = sites_of(sv.take(i));
    let b = sites_of(sv.take(i + 1));
    assert(b =~= a.push(site));
    assert forall|y: u64| spre.insert(site).contains(y) implies b.to_set().contains(y) by {
        if y == site {
            assert(b[a.len() as int] == site);
        } else {
            assert(a.to_set().contains(y));
            let m = choose|m: int| 0 <= m < a.len() && #[trigger] a[m] == y;
            assert(b[m] == y);
        }
    }
    assert forall|y: u64| b.to_set().contains(y) implies spre.insert(site).contains(y) by {
        let k = choose|k: int| 0 <= k < b.len() && #[trigger] b[k] == y;
        if k < a.len() {
            assert(a[k] == y);
            assert(spre.contains(y));
        }
    }
    assert(spre.insert(site) =~= b.to_set());
}

proof fn lemma_ins_score_at(s: Seq<RankingWebsite>, x: RankingWebsite, k: int)
    requires
        0 <= k <= s.len(),
        forall|j: int| 0 <= j < k ==> (#[trigger] s[j]).score >= x.score,
        k < s.len() ==> x.score > s[k].score,
    ensures
        ins_by_score(s, x) == s.take(k) + seq![x] + s.skip(k),
    decreases k,
{
    if s.len() == 0 {
        assert(s.take(0) + seq![x] + s.skip(0) =~= seq![x]);
    } else if k == 0 {
        assert(s.take(0) + seq![x] + s.skip(0) =~= seq![x] + s);
    } else {
        lemma_ins_score_at(s.drop_first(), x, k - 1);
        assert forall|j: int| 0 <= j < k - 1 implies (#[trigger] s.drop_first()[j]).score
            >= x.score by {
            assert(s.drop_first()[j] == s[j + 1]);
        }
        assert(ins_by_score(s, x) == seq![s[0]] + ins_by_score(s.drop_first(), x));
        assert(seq![s[0]] + (s.drop_first().take(k - 1) + seq![x] + s.drop_first().skip(k - 1))
            =~= s.take(k) + seq![x] + s.skip(k));
    }
}

/// One ranking stage: how many results it keeps and whether similar
/// results are deranked.
#[derive(Clone, Copy, PartialEq, Eq, Structural, Debug)]
pub struct RankingStage {
    pub stage_top_n: usize,
    pub derank_similar: bool,
}

/// A pipeline: one stage plus the caller's paging.
#[derive(Debug)]
pub struct RankingPipeline {
    pub stage: RankingStage,
    pub page: usize,
    pub top_n: usize,
    pub collector_config: CollectorConfig,
}

impl RankingPipeline {
    /// Paging arithmetic stays within the machine word.
    pub open spec fn wf(&self) -> bool {
        self.top_n * self.page + (if self.stage.stage_top_n >= self.top_n {
            self.stage.stage_top_n as int
        } else {
            self.top_n as int
        }) <= usize::MAX
    }

    /// The re-ranking pipeline for a query: a stage of twenty, with
    /// derank-similar collection. Rewrites the query so that downstream
    /// collectors materialize enough candidates for this page.
    pub fn reranking_for_query(query: &mut SearchQuery) -> (r: Self)
        requires
            old(query).num_results * old(query).page + (if 20 >= old(query).num_results {
                20int
            } else {
                old(query).num_results as int
            }) <= usize::MAX,
        ensures
            r.wf(),
            r.stage == (RankingStage { stage_top_n: 20, derank_similar: true }),
            r.page == old(query).page,
            r.top_n == old(query).num_results,
            final(query).num_results == r.spec_collector_top_n(),
            final(query).page == 0,
            final(query).query@ == old(query).query@,
    {
        let stage = RankingStage { stage_top_n: 20, derank_similar: true };
        let mut pipeline = RankingPipeline {
            stage,
            page: 0,
            top_n: 0,
            collector_config: CollectorConfig { site_penalty: true },
        };
        pipeline.set_query_info(query);
        pipeline
    }

    /// The first-stage (learning-to-rank) pipeline: a stage of one
    /// hundred, with derank-similar collection.
    pub fn ltr_for_query(query: &mut SearchQuery) -> (r: Self)
        requires
            old(query).num_results * old(query).page + (if 100 >= old(query).num_results {
                100int
            } else {
                old(query).num_results as int
            }) <= usize::MAX,
        ensures
            r.wf(),
            r.stage == (RankingStage { stage_top_n: 100, derank_similar: true }),
            r.page == old(query).page,
            r.top_n == old(query).num_results,
            final(query).num_results == r.spec_collector_top_n(),
            final(query).page == 0,
            final(query).query@ == old(query).query@,
    {
        let stage = RankingStage { stage_top_n: 100, derank_similar: true };
        let mut pipeline = RankingPipeline {
            stage,
            page: 0,
            top_n: 0,
            collector_config: CollectorConfig { site_penalty: true },
        };
        pipeline.set_query_info(query);
        pipeline
    }

    /// Takes the paging over from the query and rewrites the query to
    /// fetch enough candidates for this page.
    fn set_query_info(&mut self, query: &mut SearchQuery)
        requires
            old(query).num_results * old(query).page + (if old(self).stage.stage_top_n >= old(
                query,
            ).num_results {
                old(self).stage.stage_top_n as int
            } else {
                old(query).num_results as int
            }) <= usize::MAX,
        ensures
            final(self).wf(),
            final(self).stage == old(self).stage,
            final(self).collector_config == old(self).collector_config,
            final(self).page == old(query).page,
            final(self).top_n == old(query).num_results,
            final(query).num_results == final(self).spec_collector_top_n(),
            final(query).page == 0,
            final(query).query@ == old(query).query@,
    {
        self.page = query.page;
        self.top_n = query.num_results;
        query.num_results = self.collector_top_n();
        query.page = 0;
    }

    /// Where this page's candidates start.
    pub open spec fn spec_offset(&self) -> int {
        self.top_n * self.page
    }

    pub fn offset(&self) -> (r: usize)
        requires
            self.wf(),
        ensures
            r == self.spec_offset(),
    {
        self.top_n * self.page
    }

    /// The candidate pool of one page: the stage size or the page size,
    /// whichever is larger.
    pub open spec fn spec_initial_top_n(&self) -> int {
        if self.stage.stage_top_n >= self.top_n {
            self.stage.stage_top_n as int
        } else {
            self.top_n as int
        }
    }

    pub fn initial_top_n(&self) -> (r: usize)
        ensures
            r == self.spec_initial_top_n(),
    {
        if self.stage.stage_top_n >= self.top_n {
            self.stage.stage_top_n
        } else {
            self.top_n
        }
    }

    /// How many candidates downstream collectors must materialize so
    /// this page can be served.
    pub open spec fn spec_collector_top_n(&self) -> int {
        self.spec_initial_top_n() + self.top_n * self.page
    }

    pub fn collector_top_n(&self) -> (r: usize)
        requires
            self.wf(),
        ensures
            r == self.spec_collector_top_n(),
    {
        self.initial_top_n() + self.top_n * self.page
    }

    /// Serves one page: skips the earlier pages' candidates, keeps the
    /// pool, and returns it sorted by descending score with similar
    /// results deranked. The scores are taken as they stand; numeric
    /// re-scoring happens outside, between the stages.
    pub fn apply(self, websites: Vec<RankingWebsite>) -> (r: Vec<RankingWebsite>)
        requires
            self.wf(),
        ensures
            r@ == spec_stage_apply(
                websites@,
                self.spec_offset(),
                self.top_n as int,
                self.spec_initial_top_n() + self.spec_offset(),
                self.stage.derank_similar,
            ),
    {
        let offset = self.offset();
        let cap = self.initial_top_n() + self.offset();
        let ghost wv = websites@;
        let mut collector = BucketCollector::new(cap, self.collector_config);
        // reverse onto a stack so the candidates pop off in order
        let mut rest = websites;
        let mut stack: Vec<RankingWebsite> = Vec::new();
        while rest.len() > 0
            invariant
                rest@ == wv.take(rest@.len() as int),
                stack@.len() + rest@.len() == wv.len(),
                forall|j: int|
                    0 <= j < stack@.len() ==> #[trigger] stack@[j] == wv[wv.len() - 1 - j],
            decreases rest@.len(),
        {
            let ghost rl = rest@.len() as int;
            let x = rest.pop().unwrap();
            proof {
                assert(x == wv.take(rl)[rl - 1]);
                assert(rest@ =~= wv.take(rl - 1));
            }
            stack.push(x);
        }
        let ghost mut fed: int = 0;
        proof {
            assert(collector.items@ =~= capped_sort(wv.take(0), cap as int));
        }
        while stack.len() > 0
            invariant
                0 <= fed,
                fed + stack@.len() == wv.len(),
                forall|j: int|
                    0 <= j < stack@.len() ==> #[trigger] stack@[j] == wv[wv.len() - 1 - j],
                collector.items@ == capped_sort(wv.take(fed), cap as int),
                collector.capacity == cap,
                collector.config == self.collector_config,
            decreases stack@.len(),
        {
            let ghost pre = collector.items@;
            let ghost sl = stack@.len() as int;
            let w = stack.pop().unwrap();
            proof {
                assert(w == wv[wv.len() - sl]);
                assert(w == wv[fed]);
                assert(wv.take(fed + 1).drop_last() == wv.take(fed));
                assert(wv.take(fed + 1).last() == wv[fed]);
                lemma_ins_len(pre, wv[fed]);
                lemma_capped_sort_sorted(wv.take(fed), cap as int);
            }
            collector.insert(w);
            proof {
                fed = fed + 1;
            }
        }
        proof {
            assert(wv.take(wv.len() as int) == wv);
            lemma_capped_sort_sorted(wv, cap as int);
        }
        let pool = collector.into_sorted_vec(self.stage.derank_similar);
        // the page: skip the earlier pages' results, take this one's
        let plen = pool.len();
        let lo = if offset <= plen {
            offset
        } else {
            plen
        };
        let mut page = pool;
        let tail = page.split_off(lo);
        let mut out = tail;
        out.truncate(self.top_n);
        proof {
            let ghost sp = spec_stage_apply(
                wv,
                self.spec_offset(),
                self.top_n as int,
                self.spec_initial_top_n() + self.spec_offset(),
                self.stage.derank_similar,
            );
            assert(out@ =~= sp);
        }
        out
    }
}

/// The collector's content is always sorted by descending score.
proof fn lemma_capped_sort_sorted(s: Seq<RankingWebsite>, cap: int)
    ensures
        sorted_desc_by_score(capped_sort(s, cap)),
    decreases s.len(),
{
    if s.len() > 0 {
        lemma_capped_sort_sorted(s.drop_last(), cap);
        lemma_ins_sorted(capped_sort(s.drop_last(), cap), s.last());
        let t = ins_by_score(capped_sort(s.drop_last(), cap), s.last());
        if t.len() > cap {
            assert forall|i: int, j: int|
                0 <= i < j < t.drop_last().len() implies (#[trigger] t.drop_last()[i]).score >= (
            #[trigger] t.drop_last()[j]).score by {
                assert(t.drop_last()[i] == t[i]);
                assert(t.drop_last()[j] == t[j]);
            }
        }
    }
}

/// Sorted insertion grows the list by exactly one./// Sorted insertion grows the list by exactly one.
proof fn lemma_ins_len(s: Seq<RankingWebsite>, x: RankingWebsite)
    ensures
        ins_by_score(s, x).len() == s.len() + 1,
    decreases s.len(),
{
    if s.len() > 0 && !(x.score > s[0].score) {
        lemma_ins_len(s.drop_first(), x);
    }
}

/// Sorting keeps the length.
proof fn lemma_sort_desc_len(s: Seq<RankingWebsite>)
    ensures
        sort_desc(s).len() == s.len(),
    decreases s.len(),
{
    if s.len() > 0 {
        lemma_sort_desc_len(s.drop_last());
        lemma_ins_len(sort_desc(s.drop_last()), s.last());
    }
}

/// Sorted insertion into a descending list stays descending.
proof fn lemma_ins_sorted(s: Seq<RankingWebsite>, x: RankingWebsite)
    requires
        sorted_desc_by_score(s),
    ensures
        sorted_desc_by_score(ins_by_score(s, x)),
    decreases s.len(),
{
    lemma_ins_len(s, x);
    if s.len() == 0 {
    } else if x.score > s[0].score {
        let whole = seq![x] + s;
        assert forall|i: int, j: int| 0 <= i < j < whole.len() implies (#[trigger] whole[i]).score
            >= (#[trigger] whole[j]).score by {
            if i > 0 {
                assert(whole[i] == s[i - 1]);
                assert(whole[j] == s[j - 1]);
            } else {
                assert(whole[j] == s[j - 1]);
                assert(s[0].score >= s[j - 1].score || j == 1);
            }
        }
    } else {
        assert(sorted_desc_by_score(s.drop_first())) by {
            assert forall|i: int, j: int| 0 <= i < j < s.drop_first().len() implies (
            #[trigger] s.drop_first()[i]).score >= (#[trigger] s.drop_first()[j]).score by {
                assert(s.drop_first()[i] == s[i + 1]);
                assert(s.drop_first()[j] == s[j + 1]);
            }
        }
        lemma_ins_sorted(s.drop_first(), x);
        lemma_ins_elements(s.drop_first(), x);
        let rest = ins_by_score(s.drop_first(), x);
        let whole = seq![s[0]] + rest;
        assert forall|i: int, j: int| 0 <= i < j < whole.len() implies (#[trigger] whole[i]).score
            >= (#[trigger] whole[j]).score by {
            if i > 0 {
                assert(whole[i] == rest[i - 1]);
                assert(whole[j] == rest[j - 1]);
            } else {
                assert(whole[j] == rest[j - 1]);
                // every inserted element is x or one of s's tail
                assert(rest[j - 1] == x || s.drop_first().contains(rest[j - 1]));
                if rest[j - 1] != x {
                    let m = choose|m: int|
                        0 <= m < s.drop_first().len() && #[trigger] s.drop_first()[m] == rest[j
                            - 1];
                    assert(s[m + 1] == rest[j - 1]);
                }
            }
        }
    }
}

/// Every element of a sorted insertion is the new element or one of the
/// old ones (and conversely).
proof fn lemma_ins_elements(s: Seq<RankingWebsite>, x: RankingWebsite)
    ensures
        ins_by_score(s, x).len() == s.len() + 1,
        forall|j: int|
            0 <= j < ins_by_score(s, x).len() ==> #[trigger] ins_by_score(s, x)[j] == x
                || s.contains(ins_by_score(s, x)[j]),
        ins_by_score(s, x).contains(x),
        forall|y: RankingWebsite| #[trigger] s.contains(y) ==> ins_by_score(s, x).contains(y),
    decreases s.len(),
{
    lemma_ins_len(s, x);
    let ins = ins_by_score(s, x);
    if s.len() == 0 {
        assert(ins[0] == x);
    } else if x.score > s[0].score {
        assert forall|j: int| 0 <= j < ins.len() implies #[trigger] ins[j] == x || s.contains(
            ins[j],
        ) by {
            if j > 0 {
                assert(ins[j] == s[j - 1]);
            }
        }
        assert(ins[0] == x);
        assert forall|y: RankingWebsite| s.contains(y) implies ins.contains(y) by {
            let k = choose|k: int| 0 <= k < s.len() && #[trigger] s[k] == y;
            assert(ins[k + 1] == y);
        }
    } else {
        lemma_ins_elements(s.drop_first(), x);
        let rest = ins_by_score(s.drop_first(), x);
        assert(ins == seq![s[0]] + rest);
        assert forall|j: int| 0 <= j < ins.len() implies #[trigger] ins[j] == x || s.contains(
            ins[j],
        ) by {
            if j == 0 {
                assert(ins[0] == s[0]);
            } else {
                assert(ins[j] == rest[j - 1]);
                if rest[j - 1] != x {
                    assert(s.drop_first().contains(rest[j - 1]));
                    let m = choose|m: int|
                        0 <= m < s.drop_first().len() && #[trigger] s.drop_first()[m] == rest[j
                            - 1];
                    assert(s[m + 1] == rest[j - 1]);
                }
            }
        }
        assert(rest.contains(x));
        let k = choose|k: int| 0 <= k < rest.len() && #[trigger] rest[k] == x;
        assert(ins[k + 1] == x);
        assert forall|y: RankingWebsite| s.contains(y) implies ins.contains(y) by {
            let m = choose|m: int| 0 <= m < s.len() && #[trigger] s[m] == y;
            if m == 0 {
                assert(ins[0] == y);
            } else {
                assert(s.drop_first()[m - 1] == y);
                assert(s.drop_first().contains(y));
                assert(rest.contains(y));
                let t = choose|t: int| 0 <= t < rest.len() && #[trigger] rest[t] == y;
                assert(ins[t + 1] == y);
            }
        }
    }
}

/// Sorting produces a descending list.
proof fn lemma_sort_desc_sorted(s: Seq<RankingWebsite>)
    ensures
        sorted_desc_by_score(sort_desc(s)),
    decreases s.len(),
{
    if s.len() > 0 {
        lemma_sort_desc_sorted(s.drop_last());
        lemma_ins_sorted(sort_desc(s.drop_last()), s.last());
    }
}

/// A collector that is never filled past its capacity is a plain
/// stable sort.
proof fn lemma_capped_no_trunc(s: Seq<RankingWebsite>, cap: int)
    requires
        s.len() <= cap,
    ensures
        capped_sort(s, cap) == sort_desc(s),
    decreases s.len(),
{
    if s.len() > 0 {
        lemma_capped_no_trunc(s.drop_last(), cap);
        lemma_sort_desc_len(s.drop_last());
        lemma_ins_len(sort_desc(s.drop_last()), s.last());
    }
}

/// Stable sorting leaves an already-descending list as it is.
proof fn lemma_sort_of_sorted(s: Seq<RankingWebsite>)
    requires
        sorted_desc_by_score(s),
    ensures
        sort_desc(s) == s,
    decreases s.len(),
{
    if s.len() > 0 {
        assert(sorted_desc_by_score(s.drop_last())) by {
            assert forall|i: int, j: int| 0 <= i < j < s.drop_last().len() implies (
            #[trigger] s.drop_last()[i]).score >= (#[trigger] s.drop_last()[j]).score by {
                assert(s.drop_last()[i] == s[i]);
                assert(s.drop_last()[j] == s[j]);
            }
        }
        lemma_sort_of_sorted(s.drop_last());
        assert forall|j: int| 0 <= j < s.drop_last().len() implies (
        #[trigger] s.drop_last()[j]).score >= s.last().score by {
            assert(s.drop_last()[j] == s[j]);
        }
        lemma_ins_score_at(s.drop_last(), s.last(), s.len() - 1);
        assert(s.drop_last().take(s.len() - 1) + seq![s.last()] + s.drop_last().skip(s.len() - 1)
            =~= s);
    }
}

/// With every candidate on its own site, derank-similar collection
/// changes nothing.
proof fn lemma_derank_identity(s: Seq<RankingWebsite>, i: int)
    requires
        0 <= i <= s.len(),
        forall|a: int, b: int|
            0 <= a < b < s.len() ==> (#[trigger] s[a]).pointer.hashes.site != (
            #[trigger] s[b]).pointer.hashes.site,
    ensures
        firsts_from(s, i) == s.skip(i),
        demoted_from(s, i) == Seq::<RankingWebsite>::empty(),
    decreases s.len() - i,
{
    if i < s.len() {
        lemma_derank_identity(s, i + 1);
        assert(!sites_of(s.take(i)).contains(s[i].pointer.hashes.site)) by {
            if sites_of(s.take(i)).contains(s[i].pointer.hashes.site) {
                let j = choose|j: int|
                    0 <= j < sites_of(s.take(i)).len() && #[trigger] sites_of(s.take(i))[j]
                        == s[i].pointer.hashes.site;
                assert(sites_of(s.take(i))[j] == s.take(i)[j].pointer.hashes.site);
                assert(s[j].pointer.hashes.site == s[i].pointer.hashes.site);
            }
        }
        assert(seq![s[i]] + s.skip(i + 1) =~= s.skip(i));
    } else {
        assert(s.skip(i) =~= Seq::<RankingWebsite>::empty());
    }
}

/// Two pages never show the same document: pages of one stable,
/// ranked candidate list with pairwise-distinct addresses and sites cut
/// disjoint index ranges out of the same order, whatever prefix of it
/// each page was given and however large each collector was. (With
/// repeated sites among the candidates, deranking pools of different
/// lengths can move a result across a page boundary; such inputs are
/// excluded here.)
pub proof fn lemma_pages_disjoint(
    s: Seq<RankingWebsite>,
    top_n: int,
    page1: int,
    page2: int,
    c1: int,
    c2: int,
    cap1: int,
    cap2: int,
    derank: bool,
)
    requires
        0 < top_n,
        0 <= page1 < page2,
        sorted_desc_by_score(s),
        forall|i: int, j: int|
            0 <= i < j < s.len() ==> (#[trigger] s[i]).pointer.address != (
            #[trigger] s[j]).pointer.address,
        forall|i: int, j: int|
            0 <= i < j < s.len() ==> (#[trigger] s[i]).pointer.hashes.site != (
            #[trigger] s[j]).pointer.hashes.site,
        0 <= c1 <= s.len(),
        0 <= c2 <= s.len(),
        c1 <= cap1,
        c2 <= cap2,
    ensures
        forall|a: RankingWebsite, b: RankingWebsite|
            #[trigger] spec_stage_apply(s.take(c1), top_n * page1, top_n, cap1, derank).contains(
                a,
            ) && #[trigger] spec_stage_apply(s.take(c2), top_n * page2, top_n, cap2, derank)
                .contains(b) ==> a.pointer.address != b.pointer.address,
{
    assert(0 <= top_n * page1) by (nonlinear_arith)
        requires
            0 < top_n,
            0 <= page1,
    ;
    assert(0 <= top_n * page2) by (nonlinear_arith)
        requires
            0 < top_n,
            0 <= page2,
    ;
    lemma_page_is_slice(s, top_n * page1, top_n, c1, cap1, derank);
    lemma_page_is_slice(s, top_n * page2, top_n, c2, cap2, derank);
    assert forall|a: RankingWebsite, b: RankingWebsite|
        #[trigger] spec_stage_apply(s.take(c1), top_n * page1, top_n, cap1, derank).contains(a)
            && #[trigger] spec_stage_apply(s.take(c2), top_n * page2, top_n, cap2, derank)
            .contains(b) implies a.pointer.address != b.pointer.address by {
        let off1 = top_n * page1;
        let off2 = top_n * page2;
        let p1 = spec_stage_apply(s.take(c1), off1, top_n, cap1, derank);
        let p2 = spec_stage_apply(s.take(c2), off2, top_n, cap2, derank);
        let k1 = choose|k: int| 0 <= k < p1.len() && #[trigger] p1[k] == a;
        let k2 = choose|k: int| 0 <= k < p2.len() && #[trigger] p2[k] == b;
        assert(a == s[off1 + k1]);
        assert(b == s[off2 + k2]);
        assert(k1 < top_n);
        assert(off1 + k1 < top_n * (page1 + 1)) by (nonlinear_arith)
            requires
                off1 == top_n * page1,
                0 <= k1 < top_n,
        ;
        assert(top_n * (page1 + 1) <= top_n * page2) by (nonlinear_arith)
            requires
                0 < top_n,
                page1 < page2,
        ;
        assert(off1 + k1 != off2 + k2);
    }
}

/// One page of a sorted, all-distinct-site candidate prefix is a slice
/// of the ranked order: its `k`-th result is the candidate at index
/// `offset + k`.
proof fn lemma_page_is_slice(
    s: Seq<RankingWebsite>,
    offset: int,
    top_n: int,
    c: int,
    cap: int,
    derank: bool,
)
    requires
        0 <= offset,
        0 < top_n,
        sorted_desc_by_score(s),
        forall|i: int, j: int|
            0 <= i < j < s.len() ==> (#[trigger] s[i]).pointer.hashes.site != (
            #[trigger] s[j]).pointer.hashes.site,
        0 <= c <= s.len(),
        c <= cap,
    ensures
        forall|k: int|
            0 <= k < spec_stage_apply(s.take(c), offset, top_n, cap, derank).len()
                ==> #[trigger] spec_stage_apply(s.take(c), offset, top_n, cap, derank)[k] == s[
                offset + k] && offset + k < s.len(),
        spec_stage_apply(s.take(c), offset, top_n, cap, derank).len() <= top_n,
{
    let sc = s.take(c);
    assert(sorted_desc_by_score(sc)) by {
        assert forall|i: int, j: int| 0 <= i < j < sc.len() implies (#[trigger] sc[i]).score >= (
        #[trigger] sc[j]).score by {
            assert(sc[i] == s[i]);
            assert(sc[j] == s[j]);
        }
    }
    lemma_capped_no_trunc(sc, cap);
    lemma_sort_of_sorted(sc);
    if derank {
        assert forall|i: int, j: int|
            0 <= i < j < sc.len() implies (#[trigger] sc[i]).pointer.hashes.site != (
        #[trigger] sc[j]).pointer.hashes.site by {
            assert(sc[i] == s[i]);
            assert(sc[j] == s[j]);
        }
        lemma_derank_identity(sc, 0);
        assert(sc.skip(0) == sc);
        assert(sc + Seq::<RankingWebsite>::empty() =~= sc);
    }
    let page = spec_stage_apply(sc, offset, top_n, cap, derank);
    assert forall|k: int| 0 <= k < page.len() implies #[trigger] page[k] == s[offset + k]
        && offset + k < s.len() by {
        assert(page[k] == sc[offset + k]);
        assert(sc[offset + k] == s[offset + k]);
    }
}

} // verus!