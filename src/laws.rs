use vstd::prelude::*;

use crate::evaluate::{
    absent_docs, absent_paths, all_extra, all_matched, all_missing, all_outcomes, covered,
    doc_flat, doc_index, doc_matched, doc_outcomes, has_doc, ids, outcomes_view,
    prediction_for, refs_view, reports, score_of, unique_ids, Document, Evaluation, FieldScoreV,
    Flat,
};
use crate::flatten::{
    entry_path, flat, flat_map, keep_last, lemma_sort_len, sort_by_path,
};
use crate::order::{chars_lt, keys_sorted, lemma_insert_ordered_sorted, lemma_lt_total, lemma_lt_trans};
use crate::json::{JsonValue, ScalarV};

verus! {

/// A tree that is a bare leaf, with no container around it, cannot be flattened.
pub proof fn lemma_bare_leaf_rejected(v: JsonValue)
    requires
        v.is_leaf(),
    ensures
        flat(v, seq![], true) is None,
{
}

/// A reference field with no prediction scores zero in its own class: a number scores
/// nothing, a text `0 / 1`.
pub proof fn lemma_score_without_prediction(expected: ScalarV)
    ensures
        score_of(expected, None) == match expected {
            ScalarV::Number(e) => FieldScoreV::Numeric(e, None),
            _ => FieldScoreV::Text(0, 1),
        },
{
}

/// A reference document without a prediction lists every one of its paths as missing,
/// matches none of them, and gives each field the score of a field with no prediction.
pub proof fn lemma_unpredicted_document(id: Seq<char>, g: Flat, k: nat)
    requires
        k <= g.len(),
    ensures
        absent_paths(id, g, None, k) == g.take(k as int).map_values(
            |e: (Seq<char>, ScalarV)| (id, e.0),
        ),
        doc_matched(g, None, k) == 0,
        doc_outcomes(g, None, k).len() == k,
        forall|i: int|
            0 <= i < k ==> #[trigger] doc_outcomes(g, None, k)[i] == (
                g[i].0,
                false,
                score_of(g[i].1, None),
            ),
    decreases k,
{
    if k > 0 {
        lemma_unpredicted_document(id, g, (k - 1) as nat);
        assert(g.take(k as int).map_values(|e: (Seq<char>, ScalarV)| (id, e.0)) =~= g.take(
            (k - 1) as int,
        ).map_values(|e: (Seq<char>, ScalarV)| (id, e.0)).push((id, g[k - 1].0)));
    } else {
        assert(g.take(0).map_values(|e: (Seq<char>, ScalarV)| (id, e.0)) =~= seq![]);
    }
}

proof fn lemma_prediction_unchanged(preds: Seq<Document>, d: Document, id: Seq<char>)
    requires
        unique_ids(preds.push(d)),
        id != d.document_id@,
    ensures
        has_doc(preds.push(d), id) == has_doc(preds, id),
        prediction_for(preds.push(d), id) == prediction_for(preds, id),
{
    let more = preds.push(d);
    if has_doc(preds, id) {
        let j = doc_index(preds, id);
        assert(more[j].document_id@ == id);
        assert(has_doc(more, id));
        let j2 = doc_index(more, id);
        assert(j2 == j);
    } else if has_doc(more, id) {
        let j2 = doc_index(more, id);
        assert(j2 < preds.len());
        assert(preds[j2].document_id@ == id);
    }
}

proof fn lemma_absent_docs_prefix(docs: Seq<Document>, d: Document, other: Seq<Document>, n: nat)
    requires
        n <= docs.len(),
    ensures
        absent_docs(docs.push(d), other, n) == absent_docs(docs, other, n),
    decreases n,
{
    if n > 0 {
        lemma_absent_docs_prefix(docs, d, other, (n - 1) as nat);
        assert(docs.push(d)[n - 1] == docs[n - 1]);
    }
}

proof fn lemma_all_extra_prefix(gt: Seq<Document>, preds: Seq<Document>, d: Document, n: nat)
    requires
        n <= preds.len(),
    ensures
        all_extra(gt, preds.push(d), n) == all_extra(gt, preds, n),
    decreases n,
{
    if n > 0 {
        lemma_all_extra_prefix(gt, preds, d, (n - 1) as nat);
        assert(preds.push(d)[n - 1] == preds[n - 1]);
    }
}

/// A predicted document whose id the reference corpus lacks changes none of what the
/// reference documents contribute (their scores, matches, coverage and missing
/// fields); it is listed among the extra documents, and all its fields among the
/// extra fields.
pub proof fn lemma_extra_document_neutral(gt: Seq<Document>, preds: Seq<Document>, d: Document)
    requires
        unique_ids(preds.push(d)),
        !has_doc(gt, d.document_id@),
    ensures
        all_outcomes(gt, preds.push(d), gt.len()) == all_outcomes(gt, preds, gt.len()),
        all_matched(gt, preds.push(d), gt.len()) == all_matched(gt, preds, gt.len()),
        covered(gt, preds.push(d), gt.len()) == covered(gt, preds, gt.len()),
        all_missing(gt, preds.push(d), gt.len()) == all_missing(gt, preds, gt.len()),
        absent_docs(gt, preds.push(d), gt.len()) == absent_docs(gt, preds, gt.len()),
        absent_docs(preds.push(d), gt, preds.len() + 1) == absent_docs(
            preds,
            gt,
            preds.len(),
        ).push(d.document_id@),
        all_extra(gt, preds.push(d), preds.len() + 1) == all_extra(gt, preds, preds.len())
            + absent_paths(d.document_id@, doc_flat(d), None, doc_flat(d).len()),
{
    lemma_reference_side_unchanged(gt, preds, d, gt.len());
    lemma_absent_docs_prefix(preds, d, gt, preds.len());
    lemma_all_extra_prefix(gt, preds, d, preds.len());
    assert(preds.push(d)[preds.len() as int] == d);
    assert(prediction_for(gt, d.document_id@) is None);
}

proof fn lemma_reference_side_unchanged(
    gt: Seq<Document>,
    preds: Seq<Document>,
    d: Document,
    n: nat,
)
    requires
        unique_ids(preds.push(d)),
        !has_doc(gt, d.document_id@),
        n <= gt.len(),
    ensures
        all_outcomes(gt, preds.push(d), n) == all_outcomes(gt, preds, n),
        all_matched(gt, preds.push(d), n) == all_matched(gt, preds, n),
        covered(gt, preds.push(d), n) == covered(gt, preds, n),
        all_missing(gt, preds.push(d), n) == all_missing(gt, preds, n),
        absent_docs(gt, preds.push(d), n) == absent_docs(gt, preds, n),
    decreases n,
{
    if n > 0 {
        lemma_reference_side_unchanged(gt, preds, d, (n - 1) as nat);
        let id = gt[n - 1].document_id@;
        assert(id != d.document_id@);
        lemma_prediction_unchanged(preds, d, id);
    }
}

proof fn lemma_unpredicted_in_corpus(gt: Seq<Document>, preds: Seq<Document>, n: nat, i: int)
    requires
        0 <= i < n <= gt.len(),
        !has_doc(preds, gt[i].document_id@),
    ensures
        absent_docs(gt, preds, n).contains(gt[i].document_id@),
        forall|k: int|
            0 <= k < doc_flat(gt[i]).len() ==> all_missing(gt, preds, n).contains(
                (gt[i].document_id@, #[trigger] doc_flat(gt[i])[k].0),
            ),
        forall|k: int|
            0 <= k < doc_flat(gt[i]).len() ==> all_outcomes(gt, preds, n).contains(
                (
                    #[trigger] doc_flat(gt[i])[k].0,
                    false,
                    score_of(doc_flat(gt[i])[k].1, None),
                ),
            ),
    decreases n,
{
    let id = gt[i].document_id@;
    let g = doc_flat(gt[i]);
    let pm = all_missing(gt, preds, (n - 1) as nat);
    let po = all_outcomes(gt, preds, (n - 1) as nat);
    let m = all_missing(gt, preds, n);
    let o = all_outcomes(gt, preds, n);
    if i == n - 1 {
        assert(prediction_for(preds, id) is None);
        lemma_unpredicted_document(id, g, g.len());
        let pd = absent_docs(gt, preds, (n - 1) as nat);
        assert(absent_docs(gt, preds, n) == pd.push(id));
        assert(absent_docs(gt, preds, n)[pd.len() as int] == id);
        assert forall|k: int| 0 <= k < g.len() implies m.contains((id, #[trigger] g[k].0)) by {
            assert(m[pm.len() + k] == absent_paths(id, g, None, g.len())[k]);
            assert(g.take(g.len() as int)[k] == g[k]);
        }
        assert forall|k: int| 0 <= k < g.len() implies o.contains(
            (#[trigger] g[k].0, false, score_of(g[k].1, None)),
        ) by {
            assert(o[po.len() + k] == doc_outcomes(g, None, g.len())[k]);
        }
    } else {
        lemma_unpredicted_in_corpus(gt, preds, (n - 1) as nat, i);
        let pd = absent_docs(gt, preds, (n - 1) as nat);
        let j = choose|j: int| 0 <= j < pd.len() && pd[j] == id;
        assert(absent_docs(gt, preds, n)[j] == id);
        assert forall|k: int| 0 <= k < g.len() implies m.contains((id, #[trigger] g[k].0)) by {
            let x = choose|x: int| 0 <= x < pm.len() && pm[x] == (id, g[k].0);
            assert(m[x] == pm[x]);
        }
        assert forall|k: int| 0 <= k < g.len() implies o.contains(
            (#[trigger] g[k].0, false, score_of(g[k].1, None)),
        ) by {
            let x = choose|x: int| 0 <= x < po.len() && po[x] == (g[k].0, false, score_of(g[k].1, None));
            assert(o[x] == po[x]);
        }
    }
}

/// In an evaluation, a reference document without a prediction is listed among the
/// missing documents, each of its paths among the missing fields, and each of its
/// fields as unmatched with the score of a field that has no prediction.
pub proof fn lemma_unpredicted_document_reported(
    e: Evaluation,
    gt: Seq<Document>,
    preds: Seq<Document>,
    i: int,
)
    requires
        reports(e, gt, preds),
        0 <= i < gt.len(),
        !has_doc(preds, gt[i].document_id@),
    ensures
        ids(e.missing_documents@).contains(gt[i].document_id@),
        forall|k: int|
            0 <= k < doc_flat(gt[i]).len() ==> refs_view(e.missing_fields@).contains(
                (gt[i].document_id@, #[trigger] doc_flat(gt[i])[k].0),
            ),
        forall|k: int|
            0 <= k < doc_flat(gt[i]).len() ==> outcomes_view(e.fields@).contains(
                (
                    #[trigger] doc_flat(gt[i])[k].0,
                    false,
                    score_of(doc_flat(gt[i])[k].1, None),
                ),
            ),
{
    lemma_unpredicted_in_corpus(gt, preds, gt.len(), i);
}

/// Adding a predicted document whose id the reference corpus lacks leaves every part of
/// the evaluation that the scores depend on unchanged; the document is appended to the
/// extra documents and each of its paths to the extra fields.
pub proof fn lemma_extra_document_reported(
    e1: Evaluation,
    e2: Evaluation,
    gt: Seq<Document>,
    preds: Seq<Document>,
    d: Document,
)
    requires
        reports(e1, gt, preds),
        reports(e2, gt, preds.push(d)),
        unique_ids(preds.push(d)),
        !has_doc(gt, d.document_id@),
    ensures
        e2.num_documents == e1.num_documents,
        e2.documents_with_predictions == e1.documents_with_predictions,
        e2.matched_fields == e1.matched_fields,
        outcomes_view(e2.fields@) == outcomes_view(e1.fields@),
        ids(e2.missing_documents@) == ids(e1.missing_documents@),
        refs_view(e2.missing_fields@) == refs_view(e1.missing_fields@),
        ids(e2.extra_documents@) == ids(e1.extra_documents@).push(d.document_id@),
        refs_view(e2.extra_fields@) == refs_view(e1.extra_fields@) + doc_flat(d).map_values(
            |x: (Seq<char>, ScalarV)| (d.document_id@, x.0),
        ),
{
    lemma_extra_document_neutral(gt, preds, d);
    let g = doc_flat(d);
    lemma_unpredicted_document(d.document_id@, g, g.len());
    assert(g.take(g.len() as int) =~= g);
}

/// Evaluating the same corpora twice reports the same result.
pub proof fn lemma_evaluation_deterministic(
    e1: Evaluation,
    e2: Evaluation,
    gt: Seq<Document>,
    preds: Seq<Document>,
)
    requires
        reports(e1, gt, preds),
        reports(e2, gt, preds),
    ensures
        e1.num_documents == e2.num_documents,
        e1.documents_with_predictions == e2.documents_with_predictions,
        e1.matched_fields == e2.matched_fields,
        outcomes_view(e1.fields@) == outcomes_view(e2.fields@),
        ids(e1.missing_documents@) == ids(e2.missing_documents@),
        ids(e1.extra_documents@) == ids(e2.extra_documents@),
        refs_view(e1.missing_fields@) == refs_view(e2.missing_fields@),
        refs_view(e1.extra_fields@) == refs_view(e2.extra_fields@),
{
}

/// Paths never decrease along `t`.
pub open spec fn paths_sorted(t: Seq<(Seq<char>, ScalarV)>) -> bool {
    forall|i: int, j: int| 0 <= i < j < t.len() ==> !chars_lt(#[trigger] t[j].0, #[trigger] t[i].0)
}

/// Paths strictly increase along `t`, so no path occurs twice.
pub open spec fn paths_strictly_sorted(t: Seq<(Seq<char>, ScalarV)>) -> bool {
    forall|i: int, j: int| 0 <= i < j < t.len() ==> chars_lt(#[trigger] t[i].0, #[trigger] t[j].0)
}

proof fn lemma_keep_last_strict(s: Seq<(Seq<char>, ScalarV)>, n: nat)
    requires
        paths_sorted(s),
        n <= s.len(),
    ensures
        paths_strictly_sorted(keep_last(s, n)),
        n > 0 ==> keep_last(s, n).len() > 0 && keep_last(s, n).last().0 == s[n - 1].0,
    decreases n,
{
    if n > 0 {
        lemma_keep_last_strict(s, (n - 1) as nat);
        let t = keep_last(s, (n - 1) as nat);
        let r = keep_last(s, n);
        let x = s[n - 1];
        if t.len() > 0 && t.last().0 == x.0 {
            assert forall|i: int, j: int| 0 <= i < j < r.len() implies chars_lt(
                #[trigger] r[i].0,
                #[trigger] r[j].0,
            ) by {
                assert(r[i] == t[i]);
                if j < r.len() - 1 {
                    assert(r[j] == t[j]);
                } else {
                    assert(chars_lt(t[i].0, t[t.len() - 1].0));
                }
            }
        } else {
            if t.len() > 0 {
                assert(!chars_lt(s[n - 1].0, s[n - 2].0));
                lemma_lt_total(t.last().0, x.0);
            }
            assert forall|i: int, j: int| 0 <= i < j < r.len() implies chars_lt(
                #[trigger] r[i].0,
                #[trigger] r[j].0,
            ) by {
                assert(r[i] == t[i]);
                if j < r.len() - 1 {
                    assert(r[j] == t[j]);
                } else if i < t.len() - 1 {
                    assert(chars_lt(t[i].0, t[t.len() - 1].0));
                    lemma_lt_trans(t[i].0, t[t.len() - 1].0, x.0);
                }
            }
        }
    }
}

proof fn lemma_sort_sorted(s: Seq<(Seq<char>, ScalarV)>)
    ensures
        paths_sorted(sort_by_path(s)),
    decreases s.len(),
{
    if s.len() > 0 {
        lemma_sort_sorted(s.drop_last());
        let t = sort_by_path(s.drop_last());
        assert(keys_sorted(t, entry_path()));
        lemma_insert_ordered_sorted(t, s.last(), entry_path());
        let r = sort_by_path(s);
        assert(keys_sorted(r, entry_path()));
        assert forall|i: int, j: int| 0 <= i < j < r.len() implies !chars_lt(#[trigger] r[j].0, #[trigger] r[i].0) by {
            assert(!chars_lt(entry_path()(r[j]), entry_path()(r[i])));
        }
    }
}

/// A flattened mapping holds each path once, in lexicographic order of the path text.
pub proof fn lemma_flat_map_strictly_ordered(s: Seq<(Seq<char>, ScalarV)>)
    ensures
        paths_strictly_sorted(flat_map(s)),
{
    lemma_sort_sorted(s);
    lemma_sort_len(s);
    lemma_keep_last_strict(sort_by_path(s), s.len());
}

} // verus!
