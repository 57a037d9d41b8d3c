use pdf_eval::corpus::collect_documents;
use pdf_eval::embedded::build_info_json;
use pdf_eval::error::EvaluationError;
use pdf_eval::evaluate::{evaluate, score_field, Document, Evaluation, FieldScore};
use pdf_eval::flatten::{flatten, path_less, FlatField};
use pdf_eval::json::{JsonValue, Scalar};
use pdf_eval::similarity::{gestalt_match, longest_common_substring, similarity};
use pdf_eval::template::extraction_template_json;

fn chars(s: &str) -> Vec<char> {
    s.chars().collect()
}

fn num(s: &str) -> JsonValue {
    JsonValue::Number(s.to_string())
}

fn text(s: &str) -> JsonValue {
    JsonValue::Text(chars(s))
}

fn obj(entries: Vec<(&str, JsonValue)>) -> JsonValue {
    JsonValue::Object(entries.into_iter().map(|(k, v)| (chars(k), v)).collect())
}

fn doc(id: &str, fields: JsonValue) -> Document {
    Document { document_id: id.to_string(), fields }
}

fn path_of(f: &FlatField) -> String {
    f.path.iter().collect()
}

fn number_of(f: &FlatField) -> String {
    match &f.value {
        Scalar::Number(n) => n.clone(),
        other => panic!("not a number: {:?}", other),
    }
}

fn refs(list: &[pdf_eval::evaluate::FieldRef]) -> Vec<(String, String)> {
    list.iter().map(|r| (r.document_id.clone(), r.path.iter().collect())).collect()
}

fn sim(a: &str, b: &str) -> (u128, u128) {
    similarity(&chars(a), &chars(b))
}

#[test]
fn flatten_rejects_bare_scalar() {
    for v in [num("5"), text("x"), JsonValue::Null, JsonValue::Bool(true)] {
        assert!(matches!(flatten(&v), Err(EvaluationError::InvalidFieldStructure)));
    }
}

#[test]
fn flatten_orders_object_keys() {
    let v = obj(vec![("a", obj(vec![("z", num("1")), ("a", num("2"))]))]);
    let fs = flatten(&v).unwrap();
    let got: Vec<(String, String)> = fs.iter().map(|f| (path_of(f), number_of(f))).collect();
    assert_eq!(
        got,
        vec![("a.a".to_string(), "2".to_string()), ("a.z".to_string(), "1".to_string())]
    );
}

#[test]
fn flatten_uses_array_indices() {
    let v = obj(vec![("x", JsonValue::Array(vec![num("10"), num("20")]))]);
    let fs = flatten(&v).unwrap();
    let got: Vec<(String, String)> = fs.iter().map(|f| (path_of(f), number_of(f))).collect();
    assert_eq!(
        got,
        vec![("x.0".to_string(), "10".to_string()), ("x.1".to_string(), "20".to_string())]
    );
}

#[test]
fn flatten_top_level_array_and_empty_containers() {
    let v = JsonValue::Array(vec![
        text("a"),
        obj(vec![]),
        JsonValue::Array(vec![]),
        obj(vec![("k", JsonValue::Null)]),
    ]);
    let fs = flatten(&v).unwrap();
    let paths: Vec<String> = fs.iter().map(path_of).collect();
    assert_eq!(paths, vec!["0".to_string(), "3.k".to_string()]);
    assert!(flatten(&obj(vec![])).unwrap().is_empty());
}

#[test]
fn flatten_sorts_paths_as_text() {
    let items: Vec<JsonValue> = (0..12).map(|i| num(&i.to_string())).collect();
    let v = obj(vec![("b", num("1")), ("a", JsonValue::Array(items))]);
    let paths: Vec<String> = flatten(&v).unwrap().iter().map(path_of).collect();
    assert_eq!(paths[0], "a.0");
    assert_eq!(paths[1], "a.1");
    assert_eq!(paths[2], "a.10");
    assert_eq!(paths[3], "a.11");
    assert_eq!(paths[4], "a.2");
    assert_eq!(paths[12], "b");
}

#[test]
fn path_order_is_lexicographic() {
    assert!(path_less(&chars("a"), &chars("a.b")));
    assert!(path_less(&chars("a-"), &chars("a.x")));
    assert!(!path_less(&chars("b"), &chars("a.z")));
    assert!(!path_less(&chars("same"), &chars("same")));
}

#[test]
fn similarity_edge_values() {
    assert_eq!(sim("", ""), (1, 1));
    assert_eq!(sim("abc", "abc"), (6, 6));
    assert_eq!(sim("abc", "xyz"), (0, 6));
    assert_eq!(sim("", "abc"), (0, 3));
}

#[test]
fn similarity_alice_alicia() {
    assert_eq!(sim("Alice", "Alicia"), (8, 11));
    assert_eq!(longest_common_substring(&chars("Alice"), &chars("Alicia")), Some((0, 0, 4)));
}

#[test]
fn longest_common_substring_takes_first_of_equal_runs() {
    assert_eq!(longest_common_substring(&chars("abxcd"), &chars("cdyab")), Some((0, 3, 2)));
    assert_eq!(longest_common_substring(&chars("abc"), &chars("xyz")), None);
    assert_eq!(longest_common_substring(&chars(""), &chars("xyz")), None);
}

#[test]
fn gestalt_counts_prefix_and_suffix_matches() {
    // "WIKIMEDIA" / "WIKIMANIA": "WIKIM", then "IA" after it.
    assert_eq!(gestalt_match(&chars("WIKIMEDIA"), &chars("WIKIMANIA")), 7);
    assert_eq!(sim("WIKIMEDIA", "WIKIMANIA"), (14, 18));
    assert_eq!(gestalt_match(&chars("abcd"), &chars("bcda")), 3);
}

#[test]
fn numeric_score_keeps_both_numbers() {
    let r = score_field(&Scalar::Number("100".to_string()), Some(&Scalar::Number("90".to_string())));
    match r {
        FieldScore::Numeric { expected, predicted } => {
            assert_eq!(expected, "100");
            assert_eq!(predicted, Some("90".to_string()));
        }
        other => panic!("unexpected {:?}", other),
    }
}

#[test]
fn type_mismatch_scores_zero() {
    let r = score_field(&Scalar::Text(chars("abc")), Some(&Scalar::Number("1".to_string())));
    assert!(matches!(r, FieldScore::Text { matched: 0, total: 1 }));
    let r = score_field(&Scalar::Number("1".to_string()), Some(&Scalar::Text(chars("1"))));
    assert!(matches!(r, FieldScore::Numeric { predicted: None, .. }));
    let r = score_field(&Scalar::Number("1".to_string()), None);
    assert!(matches!(r, FieldScore::Numeric { predicted: None, .. }));
}

#[test]
fn non_string_reference_compares_its_literal() {
    let r = score_field(&Scalar::Bool(true), Some(&Scalar::Text(chars("true"))));
    assert!(matches!(r, FieldScore::Text { matched: 8, total: 8 }));
    let r = score_field(&Scalar::Null, Some(&Scalar::Text(chars("nul"))));
    assert!(matches!(r, FieldScore::Text { matched: 6, total: 7 }));
}

fn alice_corpora() -> (Vec<Document>, Vec<Document>) {
    let gt = vec![doc("doc1", obj(vec![("amount", num("100")), ("name", text("Alice"))]))];
    let pred = vec![doc("doc1", obj(vec![("amount", num("90")), ("name", text("Alicia"))]))];
    (gt, pred)
}

#[test]
fn end_to_end_single_document() {
    let (gt, pred) = alice_corpora();
    let e = evaluate(&gt, &pred).unwrap();
    assert_eq!(e.num_documents, 1);
    assert_eq!(e.documents_with_predictions, 1);
    assert_eq!(e.matched_fields, 2);
    assert_eq!(e.fields.len(), 2);
    assert!(e.fields.iter().all(|f| f.present));
    match &e.fields[0].score {
        FieldScore::Numeric { expected, predicted } => {
            assert_eq!(expected, "100");
            assert_eq!(predicted.as_deref(), Some("90"));
        }
        other => panic!("unexpected {:?}", other),
    }
    assert!(matches!(e.fields[1].score, FieldScore::Text { matched: 8, total: 11 }));
    assert!(e.missing_documents.is_empty());
    assert!(e.extra_documents.is_empty());
    assert!(e.missing_fields.is_empty());
    assert!(e.extra_fields.is_empty());
}

#[test]
fn empty_reference_corpus_is_rejected() {
    let (_, pred) = alice_corpora();
    assert!(matches!(evaluate(&vec![], &pred), Err(EvaluationError::EmptyInput)));
    assert!(matches!(evaluate(&vec![], &vec![]), Err(EvaluationError::EmptyInput)));
}

#[test]
fn bare_scalar_document_is_rejected() {
    let (gt, _) = alice_corpora();
    let pred = vec![doc("doc1", num("3"))];
    assert!(matches!(evaluate(&gt, &pred), Err(EvaluationError::InvalidFieldStructure)));
}

#[test]
fn unpredicted_document_is_all_missing() {
    let (mut gt, pred) = alice_corpora();
    gt.push(doc("doc2", obj(vec![("total", num("5")), ("who", text("Bob"))])));
    let e = evaluate(&gt, &pred).unwrap();
    assert_eq!(e.num_documents, 2);
    assert_eq!(e.documents_with_predictions, 1);
    assert_eq!(e.missing_documents, vec!["doc2".to_string()]);
    assert_eq!(
        refs(&e.missing_fields),
        vec![
            ("doc2".to_string(), "total".to_string()),
            ("doc2".to_string(), "who".to_string())
        ]
    );
    assert_eq!(e.fields.len(), 4);
    assert_eq!(e.matched_fields, 2);
    assert!(!e.fields[2].present);
    assert!(matches!(e.fields[2].score, FieldScore::Numeric { predicted: None, .. }));
    assert!(matches!(e.fields[3].score, FieldScore::Text { matched: 0, total: 1 }));
}

fn score_summary(e: &Evaluation) -> Vec<(String, bool, String)> {
    e.fields
        .iter()
        .map(|f| (f.path.iter().collect(), f.present, format!("{:?}", f.score)))
        .collect()
}

#[test]
fn extra_document_changes_no_score() {
    let (gt, pred) = alice_corpora();
    let base = evaluate(&gt, &pred).unwrap();
    let mut more = alice_corpora().1;
    more.push(doc("zzz", obj(vec![("p", obj(vec![("q", text("r"))]))])));
    let e = evaluate(&gt, &more).unwrap();
    assert_eq!(e.extra_documents, vec!["zzz".to_string()]);
    assert_eq!(refs(&e.extra_fields), vec![("zzz".to_string(), "p.q".to_string())]);
    assert_eq!(score_summary(&e), score_summary(&base));
    assert_eq!(e.documents_with_predictions, base.documents_with_predictions);
    assert_eq!(e.matched_fields, base.matched_fields);
}

#[test]
fn extra_and_missing_fields_of_a_matched_document() {
    let gt = vec![doc("d", obj(vec![("a", num("1")), ("b", text("x"))]))];
    let pred = vec![doc("d", obj(vec![("a", num("1")), ("c", text("x"))]))];
    let e = evaluate(&gt, &pred).unwrap();
    assert_eq!(refs(&e.missing_fields), vec![("d".to_string(), "b".to_string())]);
    assert_eq!(refs(&e.extra_fields), vec![("d".to_string(), "c".to_string())]);
    assert_eq!(e.matched_fields, 1);
}

#[test]
fn evaluation_is_repeatable() {
    let (gt, pred) = alice_corpora();
    let a = evaluate(&gt, &pred).unwrap();
    let b = evaluate(&gt, &pred).unwrap();
    assert_eq!(format!("{:?}", a), format!("{:?}", b));
}

#[test]
fn build_info_reports_schema_version() {
    assert!(build_info_json().contains("\"schema_version\":1"));
}

#[test]
fn template_lists_items() {
    let t = extraction_template_json();
    assert!(t.contains("\"items\""));
    assert!(t.contains("\"pending_description\""));
}

#[test]
fn colliding_paths_keep_the_leaf_visited_last() {
    let v = obj(vec![("a.b", num("1")), ("a", obj(vec![("b", num("2"))]))]);
    let fs = flatten(&v).unwrap();
    let got: Vec<(String, String)> = fs.iter().map(|f| (path_of(f), number_of(f))).collect();
    assert_eq!(got, vec![("a.b".to_string(), "1".to_string())]);
}

#[test]
fn object_keys_are_visited_in_order_whatever_their_storage() {
    let a = obj(vec![("b", num("1")), ("a", num("2")), ("c", num("3"))]);
    let b = obj(vec![("c", num("3")), ("a", num("2")), ("b", num("1"))]);
    let pa: Vec<(String, String)> = flatten(&a).unwrap().iter().map(|f| (path_of(f), number_of(f))).collect();
    let pb: Vec<(String, String)> = flatten(&b).unwrap().iter().map(|f| (path_of(f), number_of(f))).collect();
    assert_eq!(pa, pb);
    assert_eq!(pa[0].0, "a");
}

#[test]
fn corpus_rejects_empty_and_non_object_fields() {
    assert!(matches!(collect_documents(vec![]), Err(EvaluationError::EmptyInput)));
    let records = vec![
        doc("a", obj(vec![])),
        doc("b", JsonValue::Array(vec![])),
        doc("c", num("1")),
    ];
    match collect_documents(records) {
        Err(EvaluationError::InvalidFields(id)) => assert_eq!(id, "b"),
        other => panic!("unexpected {:?}", other),
    }
}

#[test]
fn corpus_orders_by_id_and_keeps_last_duplicate() {
    let records = vec![
        doc("doc2", obj(vec![("v", num("1"))])),
        doc("doc1", obj(vec![])),
        doc("doc2", obj(vec![("v", num("2"))])),
        doc("doc10", obj(vec![])),
    ];
    let docs = collect_documents(records).unwrap();
    let ids: Vec<&str> = docs.iter().map(|d| d.document_id.as_str()).collect();
    assert_eq!(ids, vec!["doc1", "doc10", "doc2"]);
    let fs = flatten(&docs[2].fields).unwrap();
    assert_eq!(number_of(&fs[0]), "2");
}

#[test]
fn corpus_rejects_empty_document_id() {
    let records = vec![doc("a", obj(vec![])), doc("", obj(vec![])), doc("c", num("1"))];
    match collect_documents(records) {
        Err(EvaluationError::InvalidFields(id)) => assert_eq!(id, ""),
        other => panic!("unexpected {:?}", other),
    }
    match collect_documents(vec![doc("", obj(vec![("k", num("1"))]))]) {
        Err(EvaluationError::InvalidFields(id)) => assert_eq!(id, ""),
        other => panic!("unexpected {:?}", other),
    }
}
