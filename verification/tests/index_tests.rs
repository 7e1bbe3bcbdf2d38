//! The index layer: writing, committing, postings, fieldnorms, columns.

use stract::index::{
    BooleanQuery, DocAddress, Index, IndexRecordOption, TERMINATED,
};
use stract::schema::{IndexingOption, Schema, TantivyDocument, Term};

/// The order-preserving 64-bit encoding of a float, as the columnar
/// store expects it.
fn f64_to_sortable_u64(value: f64) -> u64 {
    let bits = value.to_bits();
    if bits & (1 << 63) != 0 {
        !bits
    } else {
        bits | (1 << 63)
    }
}

fn sortable_u64_to_f64(code: u64) -> f64 {
    if code & (1 << 63) != 0 {
        f64::from_bits(code & !(1 << 63))
    } else {
        f64::from_bits(!code)
    }
}

fn text_doc(field: stract::schema::Field, text: &str) -> TantivyDocument {
    let mut doc = TantivyDocument::new();
    doc.add_text(field, text);
    doc
}

#[test]
fn test_indexing() {
    let mut schema_builder = Schema::builder();
    let text_field = schema_builder.add_text_field("text", IndexingOption::Text);
    let schema = schema_builder.build();
    let mut index = Index::create_in_ram(schema);
    let mut index_writer = index.writer_for_tests();
    index_writer.add_document(text_doc(text_field, "af b"));
    index_writer.add_document(text_doc(text_field, "a b c"));
    index_writer.add_document(text_doc(text_field, "a b c d"));
    index_writer.commit(&mut index).unwrap();
}

#[test]
fn test_docfreq1() {
    let mut schema_builder = Schema::builder();
    let text_field = schema_builder.add_text_field("text", IndexingOption::Text);
    let mut index = Index::create_in_ram(schema_builder.build());
    let mut index_writer = index.writer_for_tests();
    index_writer.add_document(text_doc(text_field, "a b c"));
    index_writer.commit(&mut index).unwrap();
    index_writer.add_document(text_doc(text_field, "a"));
    index_writer.add_document(text_doc(text_field, "a a"));
    index_writer.commit(&mut index).unwrap();
    index_writer.add_document(text_doc(text_field, "c"));
    index_writer.commit(&mut index).unwrap();
    let reader = index.reader();
    let searcher = reader.searcher();
    let term_a = Term::from_field_text(text_field, "a");
    assert_eq!(searcher.doc_freq(&term_a), 3);
    let term_b = Term::from_field_text(text_field, "b");
    assert_eq!(searcher.doc_freq(&term_b), 1);
    let term_c = Term::from_field_text(text_field, "c");
    assert_eq!(searcher.doc_freq(&term_c), 2);
    let term_d = Term::from_field_text(text_field, "d");
    assert_eq!(searcher.doc_freq(&term_d), 0);
}

#[test]
fn test_fieldnorm_no_docs_with_field() {
    let mut schema_builder = Schema::builder();
    let title_field = schema_builder.add_text_field("title", IndexingOption::Text);
    let text_field = schema_builder.add_text_field("text", IndexingOption::Text);
    let mut index = Index::create_in_ram(schema_builder.build());
    let mut index_writer = index.writer_for_tests();
    index_writer.add_document(text_doc(text_field, "a b c"));
    index_writer.commit(&mut index).unwrap();
    let index_reader = index.reader();
    let searcher = index_reader.searcher();
    let reader = searcher.segment_reader(0);
    {
        let fieldnorm_reader = reader.get_fieldnorms_reader(text_field);
        assert_eq!(fieldnorm_reader.fieldnorm(0), 3);
    }
    {
        let fieldnorm_reader = reader.get_fieldnorms_reader(title_field);
        assert_eq!(fieldnorm_reader.fieldnorm_id(0), 0);
    }
}

#[test]
fn test_fieldnorm() {
    let mut schema_builder = Schema::builder();
    let text_field = schema_builder.add_text_field("text", IndexingOption::Text);
    let mut index = Index::create_in_ram(schema_builder.build());
    let mut index_writer = index.writer_for_tests();
    index_writer.add_document(text_doc(text_field, "a b c"));
    index_writer.add_document(TantivyDocument::new());
    index_writer.add_document(text_doc(text_field, "a b"));
    index_writer.commit(&mut index).unwrap();
    let reader = index.reader();
    let searcher = reader.searcher();
    let segment_reader = searcher.segment_reader(0);
    let fieldnorms_reader = segment_reader.get_fieldnorms_reader(text_field);
    assert_eq!(fieldnorms_reader.fieldnorm(0), 3);
    assert_eq!(fieldnorms_reader.fieldnorm(1), 0);
    assert_eq!(fieldnorms_reader.fieldnorm(2), 2);
}

#[test]
fn test_indexed_u64() {
    let mut schema_builder = Schema::builder();
    let field = schema_builder.add_u64_field("value", IndexingOption::Indexed);
    let schema = schema_builder.build();
    let mut index = Index::create_in_ram(schema);
    let mut index_writer = index.writer_for_tests();
    let mut doc = TantivyDocument::new();
    doc.add_u64(field, 1u64);
    index_writer.add_document(doc);
    index_writer.commit(&mut index).unwrap();
    let reader = index.reader();
    let searcher = reader.searcher();
    let term = Term::from_field_u64(field, 1u64);
    let mut postings = searcher
        .segment_reader(0)
        .inverted_index(term.field())
        .read_postings(&term, IndexRecordOption::Basic)
        .unwrap();
    assert_eq!(postings.doc(), 0);
    assert_eq!(postings.advance(), TERMINATED);
}

#[test]
fn test_indexed_i64() {
    let mut schema_builder = Schema::builder();
    let value_field = schema_builder.add_i64_field("value", IndexingOption::Indexed);
    let schema = schema_builder.build();
    let mut index = Index::create_in_ram(schema);
    let mut index_writer = index.writer_for_tests();
    let negative_val = -1i64;
    let mut doc = TantivyDocument::new();
    doc.add_i64(value_field, negative_val);
    index_writer.add_document(doc);
    index_writer.commit(&mut index).unwrap();
    let reader = index.reader();
    let searcher = reader.searcher();
    let term = Term::from_field_i64(value_field, negative_val);
    let mut postings = searcher
        .segment_reader(0)
        .inverted_index(term.field())
        .read_postings(&term, IndexRecordOption::Basic)
        .unwrap();
    assert_eq!(postings.doc(), 0);
    assert_eq!(postings.advance(), TERMINATED);
}

#[test]
fn test_indexed_f64() {
    let mut schema_builder = Schema::builder();
    let value_field = schema_builder.add_float_field("value", IndexingOption::Indexed);
    let schema = schema_builder.build();
    let mut index = Index::create_in_ram(schema);
    let mut index_writer = index.writer_for_tests();
    let val = std::f64::consts::PI;
    let mut doc = TantivyDocument::new();
    doc.add_float_bits(value_field, f64_to_sortable_u64(val));
    index_writer.add_document(doc);
    index_writer.commit(&mut index).unwrap();
    let reader = index.reader();
    let searcher = reader.searcher();
    let term = Term::from_field_float_bits(value_field, f64_to_sortable_u64(val));
    let mut postings = searcher
        .segment_reader(0)
        .inverted_index(term.field())
        .read_postings(&term, IndexRecordOption::Basic)
        .unwrap();
    assert_eq!(postings.doc(), 0);
    assert_eq!(postings.advance(), TERMINATED);
}

#[test]
fn test_indexedfield_not_in_documents() {
    let mut schema_builder = Schema::builder();
    let text_field = schema_builder.add_text_field("text", IndexingOption::Text);
    let absent_field = schema_builder.add_text_field("absent_text", IndexingOption::Text);
    let schema = schema_builder.build();
    let mut index = Index::create_in_ram(schema);
    let mut index_writer = index.writer_for_tests();
    index_writer.add_document(text_doc(text_field, "a"));
    assert!(index_writer.commit(&mut index).is_ok());
    let reader = index.reader();
    let searcher = reader.searcher();
    let segment_reader = searcher.segment_reader(0);
    let inverted_index = segment_reader.inverted_index(absent_field);
    assert_eq!(inverted_index.terms().num_terms(), 0);
}

#[test]
fn test_termfreq() {
    let mut schema_builder = Schema::builder();
    let text_field = schema_builder.add_text_field("text", IndexingOption::Text);
    let schema = schema_builder.build();
    let mut index = Index::create_in_ram(schema);
    {
        let mut index_writer = index.writer_for_tests();
        index_writer.add_document(text_doc(text_field, "af af af bc bc"));
        index_writer.commit(&mut index).unwrap();
    }
    {
        let index_reader = index.reader();
        let searcher = index_reader.searcher();
        let reader = searcher.segment_reader(0);
        let inverted_index = reader.inverted_index(text_field);
        let term_abcd = Term::from_field_text(text_field, "abcd");
        assert!(inverted_index
            .read_postings(&term_abcd, IndexRecordOption::WithFreqsAndPositions)
            .is_none());
        let term_af = Term::from_field_text(text_field, "af");
        let postings = inverted_index
            .read_postings(&term_af, IndexRecordOption::WithFreqsAndPositions)
            .unwrap();
        assert_eq!(postings.doc(), 0);
        assert_eq!(postings.term_freq(), 3);
        let mut postings = postings;
        assert_eq!(postings.advance(), TERMINATED);
    }
}

#[test]
fn test_searcher_1() {
    let mut schema_builder = Schema::builder();
    let text_field = schema_builder.add_text_field("text", IndexingOption::Text);
    let schema = schema_builder.build();
    let mut index = Index::create_in_ram(schema);
    let mut reader = index.reader();
    let mut index_writer = index.writer_for_tests();
    index_writer.add_document(text_doc(text_field, "af af af b"));
    index_writer.add_document(text_doc(text_field, "a b c"));
    index_writer.add_document(text_doc(text_field, "a b c d"));
    index_writer.commit(&mut index).unwrap();
    reader.reload(&index);
    let searcher = reader.searcher();
    let get_doc_ids = |terms: Vec<Term>| -> Vec<DocAddress> {
        let query = BooleanQuery::new_multiterms_query(terms);
        searcher.search(&query)
    };
    assert_eq!(
        get_doc_ids(vec![Term::from_field_text(text_field, "a")]),
        vec![DocAddress::new(0, 1), DocAddress::new(0, 2)]
    );
    assert_eq!(
        get_doc_ids(vec![Term::from_field_text(text_field, "af")]),
        vec![DocAddress::new(0, 0)]
    );
    assert_eq!(
        get_doc_ids(vec![Term::from_field_text(text_field, "b")]),
        vec![
            DocAddress::new(0, 0),
            DocAddress::new(0, 1),
            DocAddress::new(0, 2)
        ]
    );
    assert_eq!(
        get_doc_ids(vec![Term::from_field_text(text_field, "c")]),
        vec![DocAddress::new(0, 1), DocAddress::new(0, 2)]
    );
    assert_eq!(
        get_doc_ids(vec![Term::from_field_text(text_field, "d")]),
        vec![DocAddress::new(0, 2)]
    );
    assert_eq!(
        get_doc_ids(vec![
            Term::from_field_text(text_field, "b"),
            Term::from_field_text(text_field, "a"),
        ]),
        vec![
            DocAddress::new(0, 0),
            DocAddress::new(0, 1),
            DocAddress::new(0, 2)
        ]
    );
}

#[test]
fn test_searcher_2() {
    let mut schema_builder = Schema::builder();
    let text_field = schema_builder.add_text_field("text", IndexingOption::Text);
    let schema = schema_builder.build();
    let mut index = Index::create_in_ram(schema);
    let mut reader = index.reader();
    assert_eq!(reader.searcher().num_docs(), 0u64);
    let mut index_writer = index.writer_for_tests();
    index_writer.add_document(text_doc(text_field, "af b"));
    index_writer.add_document(text_doc(text_field, "a b c"));
    index_writer.add_document(text_doc(text_field, "a b c d"));
    index_writer.commit(&mut index).unwrap();
    reader.reload(&index);
    assert_eq!(reader.searcher().num_docs(), 3u64);
}

#[test]
fn test_doc_macro() {
    let mut schema_builder = Schema::builder();
    let text_field = schema_builder.add_text_field("text", IndexingOption::Text);
    let other_text_field = schema_builder.add_text_field("text2", IndexingOption::Text);
    let mut document = TantivyDocument::new();
    document.add_text(text_field, "tantivy");
    document.add_text(text_field, "some other value");
    document.add_text(other_text_field, "short");
    assert_eq!(document.len(), 3);
    let values = document.get_all(text_field);
    assert_eq!(values.len(), 2);
    assert_eq!(values[0].as_str(), Some(&"tantivy".as_bytes().to_vec()));
    assert_eq!(values[1].as_str(), Some(&"some other value".as_bytes().to_vec()));
    let values = document.get_all(other_text_field);
    assert_eq!(values.len(), 1);
    assert_eq!(values[0].as_str(), Some(&"short".as_bytes().to_vec()));
}

#[test]
fn test_wrong_column_field_type() {
    let mut schema_builder = Schema::builder();
    let column_field_unsigned = schema_builder.add_u64_field("unsigned", IndexingOption::Column);
    let column_field_signed = schema_builder.add_i64_field("signed", IndexingOption::Column);
    let column_field_float = schema_builder.add_float_field("float", IndexingOption::Column);
    schema_builder.add_text_field("text", IndexingOption::Text);
    schema_builder.add_u64_field("stored_int", IndexingOption::Stored);
    let schema = schema_builder.build();
    let mut index = Index::create_in_ram(schema);
    let mut index_writer = index.writer_for_tests();
    {
        let mut document = TantivyDocument::new();
        document.add_u64(column_field_unsigned, 4u64);
        document.add_i64(column_field_signed, 4i64);
        document.add_float_bits(column_field_float, f64_to_sortable_u64(4f64));
        index_writer.add_document(document);
        index_writer.commit(&mut index).unwrap();
    }
    let reader = index.reader();
    let searcher = reader.searcher();
    let segment_reader = searcher.segment_reader(0);
    {
        let column_field_reader_res = segment_reader.column_fields().u64("text");
        assert!(column_field_reader_res.is_err());
    }
    {
        let column_field_reader_opt = segment_reader.column_fields().u64("stored_int");
        assert!(column_field_reader_opt.is_err());
    }
    {
        let column_field_reader_opt = segment_reader.column_fields().u64("signed");
        assert!(column_field_reader_opt.is_err());
    }
    {
        let column_field_reader_opt = segment_reader.column_fields().u64("float");
        assert!(column_field_reader_opt.is_err());
    }
    {
        let column_field_reader_opt = segment_reader.column_fields().u64("unsigned");
        assert!(column_field_reader_opt.is_ok());
        let column_field_reader = column_field_reader_opt.unwrap();
        assert_eq!(column_field_reader.first(0), Some(4u64))
    }
    {
        let column_field_reader_res = segment_reader.column_fields().i64("signed");
        assert!(column_field_reader_res.is_ok());
        let column_field_reader = column_field_reader_res.unwrap();
        assert_eq!(column_field_reader.first(0), Some(4i64))
    }
    {
        let column_field_reader_res = segment_reader.column_fields().float_bits("float");
        assert!(column_field_reader_res.is_ok());
        let column_field_reader = column_field_reader_res.unwrap();
        assert_eq!(column_field_reader.first(0).map(sortable_u64_to_f64), Some(4f64))
    }
}

#[test]
fn test_version_string() {
    assert_eq!(stract::index::version_string(), "index v0.1.0, index_format v1");
    let v = stract::index::version();
    assert_eq!(v.major, 0);
    assert_eq!(v.index_format_version, 1);
}
