use vstd::prelude::*;

use crate::error::EvaluationError;
use crate::evaluate::{doc_index, find_doc, has_doc, unique_ids, Document};
use crate::flatten::path_less;
use crate::json::{string_chars, JsonValue};
use crate::order::{chars_lt, insert_ordered, lemma_insert_ordered_at, lemma_lt_total, lemma_lt_trans};

verus! {

/// Ids strictly increase along the corpus.
pub open spec fn ids_sorted(t: Seq<Document>) -> bool {
    forall|i: int, j: int|
        0 <= i < j < t.len() ==> chars_lt(
            #[trigger] t[i].document_id@,
            #[trigger] t[j].document_id@,
        )
}

/// The id of a document.
pub open spec fn doc_id() -> spec_fn(Document) -> Seq<char> {
    |d: Document| d.document_id@
}

/// Adds `d` to the corpus: it replaces the document with its id, if there is one.
pub open spec fn add_document(t: Seq<Document>, d: Document) -> Seq<Document> {
    if has_doc(t, d.document_id@) {
        t.update(doc_index(t, d.document_id@), d)
    } else {
        insert_ordered(t, d, doc_id())
    }
}

/// The corpus made of the first `n` records, ordered by id, the last record of each id kept.
pub open spec fn corpus(records: Seq<Document>, n: nat) -> Seq<Document>
    decreases n,
{
    if n == 0 || n > records.len() {
        seq![]
    } else {
        add_document(corpus(records, (n - 1) as nat), records[n - 1])
    }
}

/// A record is valid when its id is not empty and its fields are an object.
pub open spec fn valid_record(d: Document) -> bool {
    d.document_id@.len() > 0 && d.fields is Object
}

/// Record `i` is the first invalid one.
pub open spec fn first_invalid(records: Seq<Document>, i: int) -> bool {
    &&& 0 <= i < records.len()
    &&& !valid_record(records[i])
    &&& forall|k: int| 0 <= k < i ==> #[trigger] valid_record(records[k])
}

/// A corpus whose ids strictly increase holds no id twice.
pub proof fn lemma_sorted_ids_unique(t: Seq<Document>)
    requires
        ids_sorted(t),
    ensures
        unique_ids(t),
{
    assert forall|i: int, j: int|
        0 <= i < t.len() && 0 <= j < t.len() && i != j implies t[i].document_id@
        != t[j].document_id@ by {
        lemma_lt_total(t[i].document_id@, t[j].document_id@);
    }
}

/// Builds a corpus from parsed records: fails with `EmptyInput` when there is none, and
/// with `InvalidFields` naming the first record whose id is empty or whose fields are
/// not an object; else
/// orders the documents by id, a later record replacing an earlier one of the same id.
pub fn collect_documents(records: Vec<Document>) -> (r: Result<Vec<Document>, EvaluationError>)
    ensures
        records@.len() == 0 ==> r matches Err(EvaluationError::EmptyInput),
        records@.len() > 0 && (forall|k: int| 0 <= k < records@.len() ==> #[trigger] valid_record(records@[k]))
            ==> r is Ok && r->Ok_0@ == corpus(records@, records@.len()) && ids_sorted(r->Ok_0@)
            && unique_ids(r->Ok_0@),
        records@.len() > 0 && !(forall|k: int| 0 <= k < records@.len() ==> #[trigger] valid_record(records@[k]))
            ==> r is Err && r->Err_0 is InvalidFields && exists|i: int| first_invalid(records@, i)
            && r->Err_0->InvalidFields_0@ == records@[i].document_id@,
{
    if records.len() == 0 {
        return Err(EvaluationError::EmptyInput);
    }
    let mut i: usize = 0;
    while i < records.len()
        invariant
            i <= records@.len(),
            forall|k: int| 0 <= k < i ==> #[trigger] valid_record(records@[k]),
        decreases records@.len() - i,
    {
        let id_empty = records[i].document_id.as_str().unicode_len() == 0;
        match &records[i].fields {
            JsonValue::Object(_) if !id_empty => {},
            _ => {
                assert(first_invalid(records@, i as int));
                return Err(EvaluationError::InvalidFields(records[i].document_id.clone()));
            },
        }
        i = i + 1;
    }
    let ghost all = records@;
    let total = records.len();
    let mut rest = records;
    let mut out: Vec<Document> = Vec::new();
    let mut n: usize = 0;
    assert(all.skip(0) =~= all);
    while rest.len() > 0
        invariant
            n <= all.len(),
            all.len() == total,
            rest@ == all.skip(n as int),
            out@ == corpus(all, n as nat),
            ids_sorted(out@),
        decreases rest@.len(),
    {
        let d = rest.remove(0);
        assert(rest@ =~= all.skip(n + 1));
        assert(d == all[n as int]);
        let ghost t = out@;
        proof {
            lemma_sorted_ids_unique(t);
        }
        match find_doc(&out, &d.document_id) {
            Some(j) => {
                proof {
                    assert(has_doc(t, d.document_id@));
                    let c = doc_index(t, d.document_id@);
                    assert(t[c].document_id@ == d.document_id@);
                }
                out.remove(j);
                out.insert(j, d);
                assert(out@ =~= t.update(j as int, d));
                assert forall|a: int, b: int| 0 <= a < b < out@.len() implies chars_lt(
                    #[trigger] out@[a].document_id@,
                    #[trigger] out@[b].document_id@,
                ) by {
                    assert(t[j as int].document_id@ == d.document_id@);
                }
            },
            None => {
                let key = string_chars(&d.document_id);
                let mut k: usize = out.len();
                while k > 0 && path_less(&key, &string_chars(&out[k - 1].document_id))
                    invariant
                        k <= out@.len(),
                        out@ == t,
                        key@ == d.document_id@,
                        forall|x: int|
                            k <= x < t.len() ==> chars_lt(d.document_id@, #[trigger] t[x].document_id@),
                    decreases k,
                {
                    k = k - 1;
                }
                proof {
                    lemma_insert_ordered_at(t, d, doc_id(), k as int);
                    if k > 0 {
                        lemma_lt_total(d.document_id@, t[k - 1].document_id@);
                        assert(t[k - 1].document_id@ != d.document_id@);
                        assert(chars_lt(t[k - 1].document_id@, d.document_id@));
                    }
                }
                out.insert(k, d);
                let ghost u = out@;
                assert(u =~= t.insert(k as int, d));
                assert forall|a: int, b: int| 0 <= a < b < u.len() implies chars_lt(
                    #[trigger] u[a].document_id@,
                    #[trigger] u[b].document_id@,
                ) by {
                    if b < k {
                        assert(u[a] == t[a] && u[b] == t[b]);
                    } else if b == k {
                        assert(u[a] == t[a]);
                        if a < k - 1 {
                            lemma_lt_trans(t[a].document_id@, t[k - 1].document_id@, d.document_id@);
                        }
                    } else if a == k {
                        assert(u[b] == t[b - 1]);
                    } else if a > k {
                        assert(u[a] == t[a - 1] && u[b] == t[b - 1]);
                    } else {
                        assert(u[a] == t[a] && u[b] == t[b - 1]);
                    }
                }
            },
        }
        n = n + 1;
    }
    assert(all.skip(n as int).len() == 0);
    proof {
        lemma_sorted_ids_unique(out@);
    }
    Ok(out)
}

} // verus!
