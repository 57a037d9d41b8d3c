use vstd::prelude::*;

use crate::error::EvaluationError;
use crate::flatten::{eq_path, flat, flat_map, flatten, views, FlatField};
use crate::json::{JsonValue, Scalar, ScalarV};
use crate::similarity::{similarity, similarity_fraction};

verus! {

/// A document of a corpus: its identity and its field tree.
#[derive(Debug)]
pub struct Document {
    pub document_id: String,
    pub fields: JsonValue,
}

/// The score of one reference field.
#[derive(Debug)]
pub enum FieldScore {
    /// A numeric reference value, with the predicted number if the prediction holds one there.
    Numeric { expected: String, predicted: Option<String> },
    /// A text reference value: the similarity `matched / total` with the predicted string,
    /// or `0 / 1` when no string was predicted there.
    Text { matched: u128, total: u128 },
}

/// The mathematical value of a field score.
pub ghost enum FieldScoreV {
    Numeric(String, Option<String>),
    Text(nat, nat),
}

impl View for FieldScore {
    type V = FieldScoreV;

    open spec fn view(&self) -> FieldScoreV {
        match self {
            FieldScore::Numeric { expected, predicted } => FieldScoreV::Numeric(*expected, *predicted),
            FieldScore::Text { matched, total } => FieldScoreV::Text(*matched as nat, *total as nat),
        }
    }
}

/// The outcome of one reference field: its path, whether the prediction has that path,
/// and its score.
#[derive(Debug)]
pub struct FieldOutcome {
    pub path: Vec<char>,
    pub present: bool,
    pub score: FieldScore,
}

/// A field of a named document.
#[derive(Debug)]
pub struct FieldRef {
    pub document_id: String,
    pub path: Vec<char>,
}

/// The exact result of comparing a predicted corpus with a reference corpus.
#[derive(Debug)]
pub struct Evaluation {
    /// Number of reference documents.
    pub num_documents: usize,
    /// Number of reference documents that have a prediction.
    pub documents_with_predictions: usize,
    /// Number of reference fields whose path the prediction has.
    pub matched_fields: usize,
    /// One outcome per reference field, document by document.
    pub fields: Vec<FieldOutcome>,
    /// Reference documents without a prediction.
    pub missing_documents: Vec<String>,
    /// Predicted documents without a reference.
    pub extra_documents: Vec<String>,
    /// Reference fields that the prediction lacks.
    pub missing_fields: Vec<FieldRef>,
    /// Predicted fields that the reference lacks.
    pub extra_fields: Vec<FieldRef>,
}

pub type Flat = Seq<(Seq<char>, ScalarV)>;

/// The view of one field outcome.
pub open spec fn outcome_view(o: FieldOutcome) -> (Seq<char>, bool, FieldScoreV) {
    (o.path@, o.present, o.score@)
}

/// The view of one field reference.
pub open spec fn ref_view(r: FieldRef) -> (Seq<char>, Seq<char>) {
    (r.document_id@, r.path@)
}

/// The ids of a list of document ids.
pub open spec fn ids(s: Seq<String>) -> Seq<Seq<char>> {
    s.map_values(|x: String| x@)
}

/// No two documents of the corpus share an id.
pub open spec fn unique_ids(docs: Seq<Document>) -> bool {
    forall|i: int, j: int|
        0 <= i < docs.len() && 0 <= j < docs.len() && i != j ==> docs[i].document_id@
            != docs[j].document_id@
}

/// Whether the corpus holds a document with id `id`.
pub open spec fn has_doc(docs: Seq<Document>, id: Seq<char>) -> bool {
    exists|i: int| 0 <= i < docs.len() && docs[i].document_id@ == id
}

/// The position of the document with id `id`.
pub open spec fn doc_index(docs: Seq<Document>, id: Seq<char>) -> int {
    choose|i: int| 0 <= i < docs.len() && docs[i].document_id@ == id
}

/// The flattened fields of a document (empty when it cannot be flattened).
pub open spec fn doc_flat(d: Document) -> Flat {
    match flat(d.fields, seq![], true) {
        Some(s) => flat_map(s),
        None => seq![],
    }
}

/// Every document of the corpus can be flattened.
pub open spec fn all_flatten(docs: Seq<Document>) -> bool {
    forall|i: int| 0 <= i < docs.len() ==> #[trigger] flat(docs[i].fields, seq![], true) is Some
}

/// The flattened prediction for the reference document with id `id`, if there is one.
pub open spec fn prediction_for(preds: Seq<Document>, id: Seq<char>) -> Option<Flat> {
    if has_doc(preds, id) {
        Some(doc_flat(preds[doc_index(preds, id)]))
    } else {
        None
    }
}

/// The value at `path` among flattened fields, the first one if several share the path.
pub open spec fn lookup(s: Flat, path: Seq<char>) -> Option<ScalarV>
    decreases s.len(),
{
    if s.len() == 0 {
        None
    } else if s[0].0 == path {
        Some(s[0].1)
    } else {
        lookup(s.drop_first(), path)
    }
}

/// The value at `path` in a prediction, if there is a prediction and it has the path.
pub open spec fn lookup_in(p: Option<Flat>, path: Seq<char>) -> Option<ScalarV> {
    match p {
        Some(s) => lookup(s, path),
        None => None,
    }
}

/// The text form of a leaf: a string as it is, other leaves as their literal.
pub open spec fn text_of(v: ScalarV) -> Seq<char> {
    match v {
        ScalarV::Text(t) => t,
        ScalarV::Bool(b) => if b {
            seq!['t', 'r', 'u', 'e']
        } else {
            seq!['f', 'a', 'l', 's', 'e']
        },
        ScalarV::Number(n) => n@,
        ScalarV::Null => seq!['n', 'u', 'l', 'l'],
    }
}

/// The score of a reference leaf against what was predicted at its path.
pub open spec fn score_of(expected: ScalarV, predicted: Option<ScalarV>) -> FieldScoreV {
    match expected {
        ScalarV::Number(e) => FieldScoreV::Numeric(
            e,
            match predicted {
                Some(ScalarV::Number(x)) => Some(x),
                _ => None,
            },
        ),
        _ => match predicted {
            Some(ScalarV::Text(t)) => {
                let f = similarity_fraction(text_of(expected), t);
                FieldScoreV::Text(f.0, f.1)
            },
            _ => FieldScoreV::Text(0, 1),
        },
    }
}

/// The outcomes of the first `k` reference fields `g` of a document against prediction `p`.
pub open spec fn doc_outcomes(g: Flat, p: Option<Flat>, k: nat) -> Seq<(Seq<char>, bool, FieldScoreV)>
    decreases k,
{
    if k == 0 || k > g.len() {
        seq![]
    } else {
        doc_outcomes(g, p, (k - 1) as nat).push(
            (
                g[k - 1].0,
                lookup_in(p, g[k - 1].0) is Some,
                score_of(g[k - 1].1, lookup_in(p, g[k - 1].0)),
            ),
        )
    }
}

/// The number of the first `k` reference fields `g` whose path the prediction `p` has.
pub open spec fn doc_matched(g: Flat, p: Option<Flat>, k: nat) -> nat
    decreases k,
{
    if k == 0 || k > g.len() {
        0
    } else {
        doc_matched(g, p, (k - 1) as nat) + if lookup_in(p, g[k - 1].0) is Some {
            1nat
        } else {
            0nat
        }
    }
}

/// The paths among the first `k` fields of `g` that `other` lacks, tagged with `id`.
pub open spec fn absent_paths(id: Seq<char>, g: Flat, other: Option<Flat>, k: nat) -> Seq<
    (Seq<char>, Seq<char>),
>
    decreases k,
{
    if k == 0 || k > g.len() {
        seq![]
    } else if lookup_in(other, g[k - 1].0) is Some {
        absent_paths(id, g, other, (k - 1) as nat)
    } else {
        absent_paths(id, g, other, (k - 1) as nat).push((id, g[k - 1].0))
    }
}

/// The outcomes of all fields of the first `n` reference documents.
pub open spec fn all_outcomes(gt: Seq<Document>, preds: Seq<Document>, n: nat) -> Seq<
    (Seq<char>, bool, FieldScoreV),
>
    decreases n,
{
    if n == 0 || n > gt.len() {
        seq![]
    } else {
        let d = gt[n - 1];
        let g = doc_flat(d);
        all_outcomes(gt, preds, (n - 1) as nat) + doc_outcomes(
            g,
            prediction_for(preds, d.document_id@),
            g.len(),
        )
    }
}

/// The number of matched fields of the first `n` reference documents.
pub open spec fn all_matched(gt: Seq<Document>, preds: Seq<Document>, n: nat) -> nat
    decreases n,
{
    if n == 0 || n > gt.len() {
        0
    } else {
        let d = gt[n - 1];
        let g = doc_flat(d);
        all_matched(gt, preds, (n - 1) as nat) + doc_matched(
            g,
            prediction_for(preds, d.document_id@),
            g.len(),
        )
    }
}

/// The number of the first `n` reference documents that have a prediction.
pub open spec fn covered(gt: Seq<Document>, preds: Seq<Document>, n: nat) -> nat
    decreases n,
{
    if n == 0 || n > gt.len() {
        0
    } else {
        covered(gt, preds, (n - 1) as nat) + if has_doc(preds, gt[n - 1].document_id@) {
            1nat
        } else {
            0nat
        }
    }
}

/// The ids of the first `n` documents of `docs` that `other` lacks.
pub open spec fn absent_docs(docs: Seq<Document>, other: Seq<Document>, n: nat) -> Seq<Seq<char>>
    decreases n,
{
    if n == 0 || n > docs.len() {
        seq![]
    } else if has_doc(other, docs[n - 1].document_id@) {
        absent_docs(docs, other, (n - 1) as nat)
    } else {
        absent_docs(docs, other, (n - 1) as nat).push(docs[n - 1].document_id@)
    }
}

/// The reference fields of the first `n` reference documents that the predictions lack.
pub open spec fn all_missing(gt: Seq<Document>, preds: Seq<Document>, n: nat) -> Seq<
    (Seq<char>, Seq<char>),
>
    decreases n,
{
    if n == 0 || n > gt.len() {
        seq![]
    } else {
        let d = gt[n - 1];
        let g = doc_flat(d);
        all_missing(gt, preds, (n - 1) as nat) + absent_paths(
            d.document_id@,
            g,
            prediction_for(preds, d.document_id@),
            g.len(),
        )
    }
}

/// The predicted fields of the first `n` predicted documents that the reference lacks;
/// every field of a predicted document without a reference counts.
pub open spec fn all_extra(gt: Seq<Document>, preds: Seq<Document>, n: nat) -> Seq<
    (Seq<char>, Seq<char>),
>
    decreases n,
{
    if n == 0 || n > preds.len() {
        seq![]
    } else {
        let d = preds[n - 1];
        let p = doc_flat(d);
        all_extra(gt, preds, (n - 1) as nat) + absent_paths(
            d.document_id@,
            p,
            prediction_for(gt, d.document_id@),
            p.len(),
        )
    }
}

/// The view of a list of field outcomes.
pub open spec fn outcomes_view(s: Seq<FieldOutcome>) -> Seq<(Seq<char>, bool, FieldScoreV)> {
    s.map_values(|o: FieldOutcome| outcome_view(o))
}

/// The view of a list of field references.
pub open spec fn refs_view(s: Seq<FieldRef>) -> Seq<(Seq<char>, Seq<char>)> {
    s.map_values(|r: FieldRef| ref_view(r))
}

/// Position of the document with id `id`.
pub(crate) fn find_doc(docs: &Vec<Document>, id: &String) -> (r: Option<usize>)
    ensures
        match r {
            Some(i) => i < docs@.len() && docs@[i as int].document_id@ == id@,
            None => !has_doc(docs@, id@),
        },
{
    let mut i: usize = 0;
    while i < docs.len()
        invariant
            i <= docs@.len(),
            forall|k: int| 0 <= k < i ==> docs@[k].document_id@ != id@,
        decreases docs@.len() - i,
    {
        if docs[i].document_id == *id {
            return Some(i);
        }
        i = i + 1;
    }
    None
}

proof fn lemma_doc_index(docs: Seq<Document>, i: int)
    requires
        unique_ids(docs),
        0 <= i < docs.len(),
    ensures
        has_doc(docs, docs[i].document_id@),
        doc_index(docs, docs[i].document_id@) == i,
{
    assert(has_doc(docs, docs[i].document_id@));
}

/// Position of the first flattened field with path `path`.
fn find_field(s: &Vec<FlatField>, path: &Vec<char>) -> (r: Option<usize>)
    ensures
        match r {
            Some(i) => i < s@.len() && lookup(views(s@), path@) == Some(s@[i as int].value@),
            None => lookup(views(s@), path@) is None,
        },
{
    let ghost v = views(s@);
    let mut i: usize = 0;
    assert(v.subrange(0, v.len() as int) =~= v);
    while i < s.len()
        invariant
            i <= s@.len(),
            v == views(s@),
            lookup(v, path@) == lookup(v.subrange(i as int, v.len() as int), path@),
        decreases s@.len() - i,
    {
        assert(v.subrange(i as int, v.len() as int).drop_first() =~= v.subrange(
            i + 1,
            v.len() as int,
        ));
        if eq_path(&s[i].path, path) {
            return Some(i);
        }
        i = i + 1;
    }
    None
}

/// The text form of a leaf.
fn text_form(v: &Scalar) -> (r: Vec<char>)
    ensures
        r@ == text_of(v@),
{
    let mut r: Vec<char> = Vec::new();
    match v {
        Scalar::Text(t) => {
            return crate::json::copy_chars(t);
        },
        Scalar::Bool(true) => {
            r.push('t');
            r.push('r');
            r.push('u');
            r.push('e');
        },
        Scalar::Bool(false) => {
            r.push('f');
            r.push('a');
            r.push('l');
            r.push('s');
            r.push('e');
        },
        Scalar::Number(n) => {
            return crate::json::string_chars(n);
        },
        Scalar::Null => {
            r.push('n');
            r.push('u');
            r.push('l');
            r.push('l');
        },
    }
    assert(r@ =~= text_of(v@));
    r
}

/// The score of reference leaf `expected` against what was predicted at its path.
pub fn score_field(expected: &Scalar, predicted: Option<&Scalar>) -> (r: FieldScore)
    ensures
        r@ == score_of(
            expected@,
            match predicted {
                Some(x) => Some(x@),
                None => None,
            },
        ),
{
    match expected {
        Scalar::Number(e) => {
            let p = match predicted {
                Some(Scalar::Number(x)) => Some(x.clone()),
                _ => None,
            };
            FieldScore::Numeric { expected: e.clone(), predicted: p }
        },
        _ => match predicted {
            Some(Scalar::Text(t)) => {
                let e = text_form(expected);
                let (m, n) = similarity(e.as_slice(), t.as_slice());
                FieldScore::Text { matched: m, total: n }
            },
            _ => FieldScore::Text { matched: 0, total: 1 },
        },
    }
}

/// The view of an optional prediction.
pub open spec fn opt_views(p: Option<&Vec<FlatField>>) -> Option<Flat> {
    match p {
        Some(x) => Some(views(x@)),
        None => None,
    }
}

/// Scores the reference fields `g` of one document against prediction `p`.
fn score_document(
    g: &Vec<FlatField>,
    p: Option<&Vec<FlatField>>,
    fields: &mut Vec<FieldOutcome>,
    matched: &mut usize,
)
    requires
        *old(matched) <= old(fields)@.len(),
    ensures
        outcomes_view(final(fields)@) == outcomes_view(old(fields)@) + doc_outcomes(
            views(g@),
            opt_views(p),
            g@.len(),
        ),
        *final(matched) == *old(matched) + doc_matched(views(g@), opt_views(p), g@.len()),
        *final(matched) <= final(fields)@.len(),
{
    let ghost gv = views(g@);
    let ghost pv = opt_views(p);
    let mut k: usize = 0;
    assert(outcomes_view(fields@) =~= outcomes_view(old(fields)@) + doc_outcomes(gv, pv, 0));
    while k < g.len()
        invariant
            k <= g@.len(),
            gv == views(g@),
            pv == opt_views(p),
            outcomes_view(fields@) == outcomes_view(old(fields)@) + doc_outcomes(gv, pv, k as nat),
            *matched == *old(matched) + doc_matched(gv, pv, k as nat),
            *matched <= fields@.len(),
        decreases g@.len() - k,
    {
        let f = &g[k];
        let predicted: Option<&Scalar> = match p {
            Some(pf) => match find_field(pf, &f.path) {
                Some(i) => Some(&pf[i].value),
                None => None,
            },
            None => None,
        };
        let ghost found = match predicted {
            Some(x) => Some(x@),
            None => None,
        };
        assert(found == lookup_in(pv, gv[k as int].0));
        let present = predicted.is_some();
        let score = score_field(&f.value, predicted);
        let o = FieldOutcome { path: crate::json::copy_chars(&f.path), present, score };
        let ghost before = fields@;
        fields.push(o);
        assert(outcomes_view(fields@) =~= outcomes_view(before).push(outcome_view(o)));
        if present {
            let ghost len = fields.len();
            assert(*matched < len);
            *matched = *matched + 1;
        }
        k = k + 1;
    }
}

/// Appends, tagged with `id`, the paths of `s` that `other` lacks.
fn collect_absent(
    id: &String,
    s: &Vec<FlatField>,
    other: Option<&Vec<FlatField>>,
    out: &mut Vec<FieldRef>,
)
    ensures
        refs_view(final(out)@) == refs_view(old(out)@) + absent_paths(
            id@,
            views(s@),
            opt_views(other),
            s@.len(),
        ),
{
    let ghost sv = views(s@);
    let ghost ov = opt_views(other);
    let mut k: usize = 0;
    assert(refs_view(out@) =~= refs_view(old(out)@) + absent_paths(id@, sv, ov, 0));
    while k < s.len()
        invariant
            k <= s@.len(),
            sv == views(s@),
            ov == opt_views(other),
            refs_view(out@) == refs_view(old(out)@) + absent_paths(id@, sv, ov, k as nat),
        decreases s@.len() - k,
    {
        let seen = match other {
            Some(o) => find_field(o, &s[k].path).is_some(),
            None => false,
        };
        assert(seen == lookup_in(ov, sv[k as int].0) is Some);
        if !seen {
            let r = FieldRef { document_id: id.clone(), path: crate::json::copy_chars(&s[k].path) };
            let ghost before = out@;
            out.push(r);
            assert(refs_view(out@) =~= refs_view(before).push(ref_view(r)));
        }
        k = k + 1;
    }
}

/// Flattens every document of a corpus, in order.
fn flatten_all(docs: &Vec<Document>) -> (r: Result<Vec<Vec<FlatField>>, EvaluationError>)
    ensures
        match r {
            Ok(fs) => all_flatten(docs@) && fs@.len() == docs@.len() && forall|k: int|
                0 <= k < docs@.len() ==> #[trigger] views(fs@[k]@) == doc_flat(docs@[k]),
            Err(e) => !all_flatten(docs@) && e is InvalidFieldStructure,
        },
{
    let mut fs: Vec<Vec<FlatField>> = Vec::new();
    let mut i: usize = 0;
    while i < docs.len()
        invariant
            i <= docs@.len(),
            fs@.len() == i,
            forall|k: int| 0 <= k < i ==> #[trigger] flat(docs@[k].fields, seq![], true) is Some,
            forall|k: int| 0 <= k < i ==> #[trigger] views(fs@[k]@) == doc_flat(docs@[k]),
        decreases docs@.len() - i,
    {
        match flatten(&docs[i].fields) {
            Ok(f) => {
                fs.push(f);
            },
            Err(_) => {
                assert(flat(docs@[i as int].fields, seq![], true) is None);
                return Err(EvaluationError::InvalidFieldStructure);
            },
        }
        i = i + 1;
    }
    Ok(fs)
}

/// What a successful evaluation reports, for the reference corpus `gt` and the predictions.
pub open spec fn reports(e: Evaluation, gt: Seq<Document>, preds: Seq<Document>) -> bool {
    &&& e.num_documents == gt.len()
    &&& e.documents_with_predictions == covered(gt, preds, gt.len())
    &&& e.matched_fields == all_matched(gt, preds, gt.len())
    &&& e.matched_fields <= e.fields@.len()
    &&& outcomes_view(e.fields@) == all_outcomes(gt, preds, gt.len())
    &&& ids(e.missing_documents@) == absent_docs(gt, preds, gt.len())
    &&& ids(e.extra_documents@) == absent_docs(preds, gt, preds.len())
    &&& refs_view(e.missing_fields@) == all_missing(gt, preds, gt.len())
    &&& refs_view(e.extra_fields@) == all_extra(gt, preds, preds.len())
}

/// Compares a predicted corpus with a reference corpus.
/// Fails with `EmptyInput` when the reference corpus is empty, else with
/// `InvalidFieldStructure` when a document of either corpus is a bare leaf.
pub fn evaluate(ground_truth: &Vec<Document>, predictions: &Vec<Document>) -> (r: Result<
    Evaluation,
    EvaluationError,
>)
    requires
        unique_ids(ground_truth@),
        unique_ids(predictions@),
    ensures
        ground_truth@.len() == 0 ==> r matches Err(EvaluationError::EmptyInput),
        ground_truth@.len() > 0 && !(all_flatten(ground_truth@) && all_flatten(predictions@))
            ==> r matches Err(EvaluationError::InvalidFieldStructure),
        ground_truth@.len() > 0 && all_flatten(ground_truth@) && all_flatten(predictions@) ==> (
        r is Ok && reports(r->Ok_0, ground_truth@, predictions@)),
{
    if ground_truth.len() == 0 {
        return Err(EvaluationError::EmptyInput);
    }
    let gflat = match flatten_all(ground_truth) {
        Ok(f) => f,
        Err(e) => return Err(e),
    };
    let pflat = match flatten_all(predictions) {
        Ok(f) => f,
        Err(e) => return Err(e),
    };
    let ghost gt = ground_truth@;
    let ghost pr = predictions@;
    let mut covered_docs: usize = 0;
    let mut matched: usize = 0;
    let mut fields: Vec<FieldOutcome> = Vec::new();
    let mut missing_documents: Vec<String> = Vec::new();
    let mut extra_documents: Vec<String> = Vec::new();
    let mut missing_fields: Vec<FieldRef> = Vec::new();
    let mut extra_fields: Vec<FieldRef> = Vec::new();
    assert(outcomes_view(fields@) =~= seq![]);
    assert(ids(missing_documents@) =~= seq![]);
    assert(refs_view(missing_fields@) =~= seq![]);
    let mut n: usize = 0;
    while n < ground_truth.len()
        invariant
            gt == ground_truth@,
            pr == predictions@,
            unique_ids(pr),
            n <= gt.len(),
            gflat@.len() == gt.len(),
            pflat@.len() == pr.len(),
            forall|k: int| 0 <= k < gt.len() ==> #[trigger] views(gflat@[k]@) == doc_flat(gt[k]),
            forall|k: int| 0 <= k < pr.len() ==> #[trigger] views(pflat@[k]@) == doc_flat(pr[k]),
            covered_docs == covered(gt, pr, n as nat),
            covered_docs <= n,
            matched == all_matched(gt, pr, n as nat),
            matched <= fields@.len(),
            outcomes_view(fields@) == all_outcomes(gt, pr, n as nat),
            ids(missing_documents@) == absent_docs(gt, pr, n as nat),
            refs_view(missing_fields@) == all_missing(gt, pr, n as nat),
        decreases gt.len() - n,
    {
        let id = &ground_truth[n].document_id;
        let g = &gflat[n];
        match find_doc(predictions, id) {
            Some(j) => {
                proof {
                    lemma_doc_index(pr, j as int);
                }
                assert(opt_views(Some(&pflat[j as int])) == prediction_for(pr, id@));
                covered_docs = covered_docs + 1;
                score_document(g, Some(&pflat[j]), &mut fields, &mut matched);
                collect_absent(id, g, Some(&pflat[j]), &mut missing_fields);
            },
            None => {
                let ghost before = missing_documents@;
                missing_documents.push(id.clone());
                assert(ids(missing_documents@) =~= ids(before).push(id@));
                score_document(g, None, &mut fields, &mut matched);
                collect_absent(id, g, None, &mut missing_fields);
            },
        }
        n = n + 1;
    }
    assert(refs_view(extra_fields@) =~= seq![]);
    assert(ids(extra_documents@) =~= seq![]);
    let mut n: usize = 0;
    while n < predictions.len()
        invariant
            gt == ground_truth@,
            pr == predictions@,
            unique_ids(gt),
            n <= pr.len(),
            gflat@.len() == gt.len(),
            pflat@.len() == pr.len(),
            forall|k: int| 0 <= k < gt.len() ==> #[trigger] views(gflat@[k]@) == doc_flat(gt[k]),
            forall|k: int| 0 <= k < pr.len() ==> #[trigger] views(pflat@[k]@) == doc_flat(pr[k]),
            ids(extra_documents@) == absent_docs(pr, gt, n as nat),
            refs_view(extra_fields@) == all_extra(gt, pr, n as nat),
        decreases pr.len() - n,
    {
        let id = &predictions[n].document_id;
        let p = &pflat[n];
        match find_doc(ground_truth, id) {
            Some(j) => {
                proof {
                    lemma_doc_index(gt, j as int);
                }
                assert(opt_views(Some(&gflat[j as int])) == prediction_for(gt, id@));
                collect_absent(id, p, Some(&gflat[j]), &mut extra_fields);
            },
            None => {
                let ghost before = extra_documents@;
                extra_documents.push(id.clone());
                assert(ids(extra_documents@) =~= ids(before).push(id@));
                collect_absent(id, p, None, &mut extra_fields);
            },
        }
        n = n + 1;
    }
    Ok(
        Evaluation {
            num_documents: ground_truth.len(),
            documents_with_predictions: covered_docs,
            matched_fields: matched,
            fields,
            missing_documents,
            extra_documents,
            missing_fields,
            extra_fields,
        },
    )
}

} // verus!
