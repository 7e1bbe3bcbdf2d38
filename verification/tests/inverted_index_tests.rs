//! The index lifecycle: commit, segment deletion, segment merging.

use stract::inverted_index::{InvertedIndex, Webpage};

/// Reduces a test page to the values the index stores: the title tag's
/// text and the body text, as the engine's HTML front end would.
fn test_parse(html: &str, url: &str) -> Webpage {
    let title = match (html.find("<title>"), html.find("</title>")) {
        (Some(a), Some(b)) => html[a + "<title>".len()..b].trim().to_string(),
        _ => String::new(),
    };
    let body = match (html.find("<body>"), html.find("</body>")) {
        (Some(a), Some(b)) => html[a + "<body>".len()..b].trim().to_string(),
        _ => String::new(),
    };
    Webpage::new(&title, &body, url)
}

fn test_page() -> Webpage {
    test_parse(
        r#"
            <html>
                <head>
                    <title>Test website</title>
                </head>
                <body>
                    TEST
                </body>
            </html>
        "#,
        "https://www.example.com",
    )
}

#[test]
fn test_delete_segments() {
    let mut index = InvertedIndex::temporary().expect("Unable to open index");
    index.prepare_writer().unwrap();

    index.insert(&test_page()).expect("failed to insert webpage");
    index.commit().expect("failed to commit index");

    index.insert(&test_page()).expect("failed to insert webpage");
    index.commit().expect("failed to commit index");

    let segments = index.segment_ids();

    assert_eq!(segments.len(), 2);
    index.delete_segments_by_id(&segments).unwrap();

    let segments = index.segment_ids();
    assert!(segments.is_empty());

    let result = index.search("test");
    assert_eq!(result.documents.len(), 0);
}

#[test]
fn test_merge_into_max_segments() {
    let mut index = InvertedIndex::temporary().expect("Unable to open index");
    index.prepare_writer().unwrap();

    index.insert(&test_page()).expect("failed to insert webpage");
    index.commit().expect("failed to commit index");

    index.insert(&test_page()).expect("failed to insert webpage");
    index.commit().expect("failed to commit index");

    let segments = index.segment_ids();

    assert_eq!(segments.len(), 2);

    index.merge_into_max_segments(1).unwrap();

    let segments = index.segment_ids();
    assert_eq!(segments.len(), 1);
}

#[test]
fn commit_makes_page_searchable() {
    let mut index = InvertedIndex::temporary().unwrap();
    index.prepare_writer().unwrap();
    index.insert(&test_page()).unwrap();
    // not yet committed: nothing searchable
    assert_eq!(index.search("test").documents.len(), 0);
    index.commit().unwrap();
    let hits = index.search("test").documents;
    assert_eq!(hits.len(), 1);
    assert_eq!(hits[0].segment_ord, 0);
    assert_eq!(hits[0].doc_id, 0);
    // every token of the query must occur
    assert_eq!(index.search("test website").documents.len(), 1);
    assert_eq!(index.search("test missing").documents.len(), 0);
    // searching survives a second commit of a second page
    index.insert(&test_page()).unwrap();
    index.commit().unwrap();
    assert_eq!(index.search("test").documents.len(), 2);
}

#[test]
fn prepare_writer_is_idempotent() {
    let mut index = InvertedIndex::temporary().unwrap();
    index.prepare_writer().unwrap();
    index.insert(&test_page()).unwrap();
    // preparing again must not disturb the pending batch
    index.prepare_writer().unwrap();
    index.commit().unwrap();
    assert_eq!(index.search("test").documents.len(), 1);
    index.prepare_writer().unwrap();
    assert_eq!(index.segment_ids().len(), 1);
}

#[test]
fn two_phase_merge_replaces_segments() {
    let mut index = InvertedIndex::temporary().unwrap();
    index.prepare_writer().unwrap();
    index.insert(&test_page()).unwrap();
    index.commit().unwrap();
    index.insert(&test_page()).unwrap();
    index.commit().unwrap();
    let segments = index.segment_ids();
    assert_eq!(segments.len(), 2);
    let (entry, op) = index.start_merge_segments_by_id(&segments).unwrap();
    let merged = index.end_merge_segments_by_id(op, entry).unwrap();
    assert!(merged.is_some());
    assert_eq!(index.segment_ids().len(), 1);
    assert_eq!(index.search("test").documents.len(), 2);

    let empty: Vec<stract::index::SegmentId> = Vec::new();
    assert!(index.start_merge_segments_by_id(&empty).is_err());
}

#[test]
fn offline_merge_absorbs_new_segments() {
    // an index with two one-page segments
    let mut left = InvertedIndex::temporary().unwrap();
    left.prepare_writer().unwrap();
    left.insert(&test_page()).unwrap();
    left.commit().unwrap();
    left.insert(&test_page()).unwrap();
    left.commit().unwrap();

    // another index whose surviving segment has an id the left one does
    // not hold
    let mut right = InvertedIndex::temporary().unwrap();
    right.prepare_writer().unwrap();
    right.insert(&test_page()).unwrap();
    right.commit().unwrap();
    right.insert(&test_page()).unwrap();
    right.commit().unwrap();
    right.insert(&test_parse("<html><body>TEST extra words here</body></html>", "u")).unwrap();
    right.commit().unwrap();
    let first_two = right.segment_ids()[..2].to_vec();
    right.delete_segments_by_id(&first_two).unwrap();
    assert_eq!(right.segment_ids().len(), 1);

    let merged = left.merge(right);
    // the right index's remaining segment id (2) was new to the left
    assert_eq!(merged.segment_ids().len(), 3);
    assert_eq!(merged.search("test").documents.len(), 3);

    // segments whose id the target already holds are skipped
    let mut a = InvertedIndex::temporary().unwrap();
    a.prepare_writer().unwrap();
    a.insert(&test_page()).unwrap();
    a.commit().unwrap();
    let mut b = InvertedIndex::temporary().unwrap();
    b.prepare_writer().unwrap();
    b.insert(&test_page()).unwrap();
    b.commit().unwrap();
    let merged = a.merge(b);
    assert_eq!(merged.segment_ids().len(), 1);
}
