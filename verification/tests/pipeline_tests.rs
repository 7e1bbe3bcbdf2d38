//! The ranking pipeline's paging: pool sizes, ordering, page disjointness.

use stract::index::DocAddress;
use stract::pipeline::{
    Hashes, RankingPipeline, RankingWebsite, Score, SearchQuery, WebsitePointer,
};

/// `n` synthetic candidates with strictly falling scores, one site each.
fn sample_websites(n: usize) -> Vec<RankingWebsite> {
    (0..n)
        .map(|i| -> RankingWebsite {
            let pointer = WebsitePointer {
                score: Score { total: u64::MAX - i as u64 },
                hashes: Hashes { site: i as u64, title: 0, url: 0, simhash: 0 },
                address: DocAddress { segment_ord: 0, doc_id: i as u32 },
            };
            RankingWebsite::new(pointer)
        })
        .collect()
}

fn default_query() -> SearchQuery {
    SearchQuery { query: String::new(), page: 0, num_results: 20 }
}

#[test]
fn pipeline_simple() {
    let mut query = default_query();
    let pipeline = RankingPipeline::reranking_for_query(&mut query);
    assert_eq!(pipeline.collector_top_n(), 20);

    let sample = sample_websites(pipeline.collector_top_n());
    let res: Vec<_> = pipeline
        .apply(sample)
        .into_iter()
        .map(|w| w.pointer.address)
        .collect();

    let expected: Vec<_> = sample_websites(100)
        .into_iter()
        .take(20)
        .map(|w| w.pointer.address)
        .collect();

    assert_eq!(res, expected);
}

#[test]
fn top_n() {
    let num_results = 100;
    let mut query = SearchQuery { query: String::new(), page: 0, num_results };
    let pipeline = RankingPipeline::reranking_for_query(&mut query);

    let sample: Vec<_> = sample_websites(pipeline.collector_top_n());

    let expected: Vec<_> = sample_websites(pipeline.collector_top_n())
        .into_iter()
        .take(num_results)
        .map(|w| w.pointer.address)
        .collect();

    let res: Vec<_> = pipeline
        .apply(sample)
        .into_iter()
        .map(|w| w.pointer.address)
        .collect();

    assert_eq!(res.len(), num_results);
    assert_eq!(res, expected);
}

#[test]
fn offsets() {
    let num_results = 20;
    let mut query = SearchQuery { query: String::new(), page: 0, num_results };
    let pipeline = RankingPipeline::reranking_for_query(&mut query);

    let sample: Vec<_> = sample_websites(pipeline.collector_top_n());
    let mut prev: Vec<_> = pipeline.apply(sample);
    for p in 1..1_000 {
        let mut query = SearchQuery { query: String::new(), page: p, num_results };
        let pipeline = RankingPipeline::reranking_for_query(&mut query);

        let sample: Vec<_> = sample_websites(pipeline.collector_top_n());
        let res: Vec<_> = pipeline.apply(sample);

        assert_eq!(res.len(), num_results, "Every page should have {num_results} results");

        assert!(!prev
            .iter()
            .zip(res.iter())
            .any(|(a, b)| a.pointer.address.doc_id == b.pointer.address.doc_id));

        prev = res;
    }
}

#[test]
fn ltr_stage_pool_is_one_hundred() {
    let mut query = default_query();
    let pipeline = RankingPipeline::ltr_for_query(&mut query);
    assert_eq!(pipeline.initial_top_n(), 100);
    assert_eq!(pipeline.collector_top_n(), 100);
    assert_eq!(query.num_results, 100);
    assert_eq!(query.page, 0);
}

#[test]
fn derank_moves_repeated_sites_back() {
    let mut query = default_query();
    let pipeline = RankingPipeline::reranking_for_query(&mut query);
    let mut sample = sample_websites(4);
    // two best results share a site: the runner-up moves to the back
    sample[1].pointer.hashes.site = sample[0].pointer.hashes.site;
    let res: Vec<u32> = pipeline
        .apply(sample)
        .into_iter()
        .map(|w| w.pointer.address.doc_id)
        .collect();
    assert_eq!(res, vec![0, 2, 3, 1]);
}
