use vstd::prelude::*;

use crate::error::EvaluationError;
use crate::order::{
    chars_lt, insert_ordered, keys_sorted, lemma_insert_ordered_at, lemma_insert_ordered_multiset,
    lemma_insert_ordered_sorted,
};
use crate::json::{copy_chars, decimal, push_chars, push_decimal, JsonValue, Scalar, ScalarV};

verus! {

/// One leaf of a flattened document: its dotted path and its value.
#[derive(Debug)]
pub struct FlatField {
    pub path: Vec<char>,
    pub value: Scalar,
}

/// The mathematical view of a list of flattened fields.
pub open spec fn views(s: Seq<FlatField>) -> Seq<(Seq<char>, ScalarV)> {
    s.map_values(|f: FlatField| (f.path@, f.value@))
}

/// The path of a child reached through segment `seg`.
pub open spec fn child_path(prefix: Seq<char>, at_root: bool, seg: Seq<char>) -> Seq<char> {
    if at_root {
        seg
    } else {
        prefix + seq!['.'] + seg
    }
}

/// The leaves of `v`, in visiting order, below `prefix`; `None` when `v` is a leaf at the root.
pub open spec fn flat(v: JsonValue, prefix: Seq<char>, at_root: bool) -> Option<
    Seq<(Seq<char>, ScalarV)>,
>
    decreases v, 0nat,
{
    match v {
        JsonValue::Array(items) => flat_array(items@, items@.len(), prefix, at_root),
        JsonValue::Object(entries) => flat_object(
            entries@,
            key_order(entry_keys(entries@), entries@.len()),
            entries@.len(),
            prefix,
            at_root,
        ),
        _ => if at_root {
            None
        } else {
            Some(seq![(prefix, v.leaf_view())])
        },
    }
}

/// The leaves of the first `n` items of an array.
pub open spec fn flat_array(items: Seq<JsonValue>, n: nat, prefix: Seq<char>, at_root: bool) -> Option<
    Seq<(Seq<char>, ScalarV)>,
>
    decreases items, n,
{
    if n == 0 || n > items.len() {
        Some(seq![])
    } else {
        match flat_array(items, (n - 1) as nat, prefix, at_root) {
            None => None,
            Some(s) => match flat(
                items[n - 1],
                child_path(prefix, at_root, decimal((n - 1) as nat)),
                false,
            ) {
                None => None,
                Some(t) => Some(s + t),
            },
        }
    }
}

/// The keys of an object's entries.
pub open spec fn entry_keys(entries: Seq<(Vec<char>, JsonValue)>) -> Seq<Seq<char>> {
    entries.map_values(|e: (Vec<char>, JsonValue)| e.0@)
}

/// The positions `0..n` ordered by their keys; positions with equal keys keep their order.
pub open spec fn key_order(keys: Seq<Seq<char>>, n: nat) -> Seq<int>
    decreases n,
{
    if n == 0 {
        seq![]
    } else {
        insert_ordered(key_order(keys, (n - 1) as nat), n - 1, key_at(keys))
    }
}

/// The key of a position.
pub open spec fn key_at(keys: Seq<Seq<char>>) -> spec_fn(int) -> Seq<char> {
    |i: int| keys[i]
}

/// The path of a flattened entry.
pub open spec fn entry_path() -> spec_fn((Seq<char>, ScalarV)) -> Seq<char> {
    |e: (Seq<char>, ScalarV)| e.0
}

/// The positions `0..n` in order of their keys are a permutation of `0..n` whose keys
/// never decrease.
pub proof fn lemma_key_order(keys: Seq<Seq<char>>, n: nat)
    ensures
        key_order(keys, n).to_multiset() =~= Seq::new(n, |i: int| i).to_multiset(),
        key_order(keys, n).len() == n,
        keys_sorted(key_order(keys, n), key_at(keys)),
    decreases n,
{
    broadcast use vstd::seq_lib::to_multiset_build;

    if n > 0 {
        lemma_key_order(keys, (n - 1) as nat);
        let t = key_order(keys, (n - 1) as nat);
        lemma_insert_ordered_multiset(t, n - 1, key_at(keys));
        lemma_insert_ordered_sorted(t, n - 1, key_at(keys));
        assert(Seq::new(n, |i: int| i) =~= Seq::new((n - 1) as nat, |i: int| i).push(n - 1));
    } else {
        assert(Seq::new(0, |i: int| i) =~= Seq::<int>::empty());
    }
}

/// The leaves of the entries of an object at the first `n` positions of `order`.
pub open spec fn flat_object(
    entries: Seq<(Vec<char>, JsonValue)>,
    order: Seq<int>,
    n: nat,
    prefix: Seq<char>,
    at_root: bool,
) -> Option<Seq<(Seq<char>, ScalarV)>>
    decreases entries, n,
{
    if n == 0 || n > order.len() {
        Some(seq![])
    } else if !(0 <= order[n - 1] < entries.len()) {
        None
    } else {
        match flat_object(entries, order, (n - 1) as nat, prefix, at_root) {
            None => None,
            Some(s) => match flat(
                entries[order[n - 1]].1,
                child_path(prefix, at_root, entries[order[n - 1]].0@),
                false,
            ) {
                None => None,
                Some(t) => Some(s + t),
            },
        }
    }
}

/// The view of a list of positions.
pub open spec fn positions(v: Seq<usize>) -> Seq<int> {
    v.map_values(|u: usize| u as int)
}

/// The positions of an object's entries, ordered by key.
fn sorted_key_order(entries: &Vec<(Vec<char>, JsonValue)>) -> (r: Vec<usize>)
    ensures
        positions(r@) == key_order(entry_keys(entries@), entries@.len()),
        r@.len() == entries@.len(),
        forall|j: int| 0 <= j < r@.len() ==> #[trigger] r@[j] < entries@.len(),
{
    let ghost keys = entry_keys(entries@);
    let mut out: Vec<usize> = Vec::new();
    let mut i: usize = 0;
    assert(positions(out@) =~= seq![]);
    while i < entries.len()
        invariant
            i <= entries@.len(),
            keys == entry_keys(entries@),
            out@.len() == i,
            positions(out@) == key_order(keys, i as nat),
            forall|j: int| 0 <= j < out@.len() ==> #[trigger] out@[j] < i,
        decreases entries@.len() - i,
    {
        let mut k: usize = out.len();
        while k > 0 && path_less(&entries[i].0, &entries[out[k - 1]].0)
            invariant
                k <= out@.len(),
                i < entries@.len(),
                forall|j: int| 0 <= j < out@.len() ==> #[trigger] out@[j] < i,
                forall|j: int|
                    k <= j < out@.len() ==> chars_lt(keys[i as int], #[trigger] keys[out@[j] as int]),
                keys == entry_keys(entries@),
            decreases k,
        {
            k = k - 1;
        }
        proof {
            let t = positions(out@);
            assert(forall|j: int| k <= j < t.len() ==> chars_lt(keys[i as int], #[trigger] keys[t[j]]));
            lemma_insert_ordered_at(t, i as int, key_at(keys), k as int);
        }
        let ghost before = out@;
        out.insert(k, i);
        assert(positions(out@) =~= positions(before).insert(k as int, i as int));
        assert forall|j: int| 0 <= j < out@.len() implies #[trigger] out@[j] < i + 1 by {
            if j < k {
                assert(out@[j] == before[j]);
            } else if j > k {
                assert(out@[j] == before[j - 1]);
            }
        }
        i = i + 1;
    }
    out
}

fn extend_path(prefix: &Vec<char>, at_root: bool, seg: &Vec<char>) -> (r: Vec<char>)
    ensures
        r@ == child_path(prefix@, at_root, seg@),
{
    if at_root {
        copy_chars(seg)
    } else {
        let mut r = copy_chars(prefix);
        r.push('.');
        push_chars(&mut r, seg);
        r
    }
}

proof fn lemma_views_push(s: Seq<FlatField>, f: FlatField)
    ensures
        views(s.push(f)) == views(s).push((f.path@, f.value@)),
{
    assert(views(s.push(f)) =~= views(s).push((f.path@, f.value@)));
}

fn flatten_into(v: &JsonValue, prefix: &Vec<char>, at_root: bool, out: &mut Vec<FlatField>) -> (r:
    Result<(), EvaluationError>)
    ensures
        match flat(*v, prefix@, at_root) {
            Some(s) => r is Ok && views(final(out)@) == views(old(out)@) + s,
            None => r matches Err(EvaluationError::InvalidFieldStructure),
        },
    decreases v,
{
    match v {
        JsonValue::Array(items) => {
            let mut k: usize = 0;
            assert(views(out@) == views(old(out)@) + seq![]);
            while k < items.len()
                invariant
                    k <= items@.len(),
                    *v == JsonValue::Array(*items),
                    flat_array(items@, k as nat, prefix@, at_root) is Some,
                    views(out@) == views(old(out)@) + flat_array(
                        items@,
                        k as nat,
                        prefix@,
                        at_root,
                    )->Some_0,
                decreases items@.len() - k,
            {
                let mut seg: Vec<char> = Vec::new();
                push_decimal(&mut seg, k);
                assert(seg@ =~= decimal(k as nat));
                let path = extend_path(prefix, at_root, &seg);
                let ghost before = views(out@);
                proof {
                    assert(decreases_to!(*v => items[k as int]));
                }
                let res = flatten_into(&items[k], &path, false, out);
                if res.is_err() {
                    assert(flat_array(items@, (k + 1) as nat, prefix@, at_root) is None);
                    assert(flat_array(items@, items@.len(), prefix@, at_root) is None) by {
                        lemma_flat_array_none(items@, (k + 1) as nat, items@.len(), prefix@, at_root);
                    }
                    return res;
                }
                assert(views(out@) == views(old(out)@) + flat_array(
                    items@,
                    (k + 1) as nat,
                    prefix@,
                    at_root,
                )->Some_0);
                k = k + 1;
            }
            Ok(())
        },
        JsonValue::Object(entries) => {
            let order = sorted_key_order(entries);
            let ghost ord = positions(order@);
            let mut k: usize = 0;
            assert(views(out@) == views(old(out)@) + seq![]);
            while k < order.len()
                invariant
                    k <= order@.len(),
                    order@.len() == entries@.len(),
                    forall|j: int| 0 <= j < order@.len() ==> #[trigger] order@[j] < entries@.len(),
                    ord == positions(order@),
                    ord == key_order(entry_keys(entries@), entries@.len()),
                    *v == JsonValue::Object(*entries),
                    flat_object(entries@, ord, k as nat, prefix@, at_root) is Some,
                    views(out@) == views(old(out)@) + flat_object(
                        entries@,
                        ord,
                        k as nat,
                        prefix@,
                        at_root,
                    )->Some_0,
                decreases order@.len() - k,
            {
                let e = order[k];
                assert(ord[k as int] == e as int);
                let path = extend_path(prefix, at_root, &entries[e].0);
                proof {
                    assert(decreases_to!(*v => entries[e as int].1));
                }
                let res = flatten_into(&entries[e].1, &path, false, out);
                if res.is_err() {
                    assert(flat_object(entries@, ord, (k + 1) as nat, prefix@, at_root) is None);
                    assert(flat_object(entries@, ord, ord.len(), prefix@, at_root) is None) by {
                        lemma_flat_object_none(entries@, ord, (k + 1) as nat, ord.len(), prefix@, at_root);
                    }
                    return res;
                }
                assert(views(out@) == views(old(out)@) + flat_object(
                    entries@,
                    ord,
                    (k + 1) as nat,
                    prefix@,
                    at_root,
                )->Some_0);
                k = k + 1;
            }
            Ok(())
        },
        _ => {
            if at_root {
                return Err(EvaluationError::InvalidFieldStructure);
            }
            let f = FlatField { path: copy_chars(prefix), value: Scalar::from_leaf(v) };
            proof {
                lemma_views_push(out@, f);
            }
            out.push(f);
            Ok(())
        },
    }
}

proof fn lemma_flat_array_none(items: Seq<JsonValue>, k: nat, n: nat, prefix: Seq<char>, at_root: bool)
    requires
        0 < k <= n <= items.len(),
        flat_array(items, k, prefix, at_root) is None,
    ensures
        flat_array(items, n, prefix, at_root) is None,
    decreases n - k,
{
    if k < n {
        lemma_flat_array_none(items, k, (n - 1) as nat, prefix, at_root);
    }
}

proof fn lemma_flat_object_none(
    entries: Seq<(Vec<char>, JsonValue)>,
    order: Seq<int>,
    k: nat,
    n: nat,
    prefix: Seq<char>,
    at_root: bool,
)
    requires
        0 < k <= n <= order.len(),
        flat_object(entries, order, k, prefix, at_root) is None,
    ensures
        flat_object(entries, order, n, prefix, at_root) is None,
    decreases n - k,
{
    if k < n {
        lemma_flat_object_none(entries, order, k, (n - 1) as nat, prefix, at_root);
    }
}

/// Flattens a document tree into its leaves, each with its dotted path, in visiting order.
/// Fails with `InvalidFieldStructure` exactly when the tree holds a leaf at its root.
pub fn flatten_fields(v: &JsonValue) -> (r: Result<Vec<FlatField>, EvaluationError>)
    ensures
        match flat(*v, seq![], true) {
            Some(s) => r is Ok && views(r->Ok_0@) == s,
            None => r matches Err(EvaluationError::InvalidFieldStructure),
        },
{
    let mut out: Vec<FlatField> = Vec::new();
    let prefix: Vec<char> = Vec::new();
    assert(prefix@ =~= seq![]);
    match flatten_into(v, &prefix, true, &mut out) {
        Ok(()) => {
            assert(views(Seq::<FlatField>::empty()) =~= seq![]);
            Ok(out)
        },
        Err(e) => Err(e),
    }
}

/// The entries of `s` ordered by path; entries with equal paths keep their order.
pub open spec fn sort_by_path(s: Seq<(Seq<char>, ScalarV)>) -> Seq<(Seq<char>, ScalarV)>
    decreases s.len(),
{
    if s.len() == 0 {
        s
    } else {
        insert_ordered(sort_by_path(s.drop_last()), s.last(), entry_path())
    }
}

/// Ordering keeps the number of entries.
pub proof fn lemma_sort_len(s: Seq<(Seq<char>, ScalarV)>)
    ensures
        sort_by_path(s).len() == s.len(),
    decreases s.len(),
{
    if s.len() > 0 {
        lemma_sort_len(s.drop_last());
        lemma_insert_ordered_multiset(sort_by_path(s.drop_last()), s.last(), entry_path());
    }
}

/// Whether `a` comes before `b` in lexicographic order.
pub fn path_less(a: &Vec<char>, b: &Vec<char>) -> (r: bool)
    ensures
        r == chars_lt(a@, b@),
{
    let mut i: usize = 0;
    assert(a@.skip(0) =~= a@);
    assert(b@.skip(0) =~= b@);
    while i < a.len() && i < b.len() && a[i] == b[i]
        invariant
            i <= a@.len(),
            i <= b@.len(),
            chars_lt(a@, b@) == chars_lt(a@.skip(i as int), b@.skip(i as int)),
        decreases a@.len() - i,
    {
        assert(a@.skip(i as int).drop_first() =~= a@.skip(i + 1));
        assert(b@.skip(i as int).drop_first() =~= b@.skip(i + 1));
        i = i + 1;
    }
    if i == a.len() {
        i < b.len()
    } else if i == b.len() {
        false
    } else {
        a[i] < b[i]
    }
}

impl Scalar {
    /// A copy of this leaf.
    pub fn copy(&self) -> (r: Scalar)
        ensures
            r@ == self@,
    {
        match self {
            Scalar::Null => Scalar::Null,
            Scalar::Bool(b) => Scalar::Bool(*b),
            Scalar::Number(n) => Scalar::Number(n.clone()),
            Scalar::Text(t) => Scalar::Text(copy_chars(t)),
        }
    }
}

/// The fields ordered by path; fields with equal paths keep their order.
pub fn sort_fields(v: &Vec<FlatField>) -> (r: Vec<FlatField>)
    ensures
        views(r@) == sort_by_path(views(v@)),
{
    let mut out: Vec<FlatField> = Vec::new();
    let mut i: usize = 0;
    assert(views(v@).take(0) =~= seq![]);
    assert(views(out@) =~= seq![]);
    while i < v.len()
        invariant
            i <= v@.len(),
            views(out@) == sort_by_path(views(v@).take(i as int)),
        decreases v@.len() - i,
    {
        let x = FlatField { path: copy_chars(&v[i].path), value: v[i].value.copy() };
        let mut k: usize = out.len();
        while k > 0 && path_less(&x.path, &out[k - 1].path)
            invariant
                k <= out@.len(),
                forall|j: int| k <= j < out@.len() ==> chars_lt(x.path@, #[trigger] out@[j].path@),
            decreases k,
        {
            k = k - 1;
        }
        proof {
            let t = views(out@);
            let xv = (x.path@, x.value@);
            assert(forall|j: int| k <= j < t.len() ==> chars_lt(xv.0, #[trigger] t[j].0));
            if k > 0 {
                assert(!chars_lt(xv.0, t[k - 1].0));
            }
            lemma_insert_ordered_at(t, xv, entry_path(), k as int);
            assert(views(v@).take(i + 1).drop_last() =~= views(v@).take(i as int));
            assert(views(v@).take(i + 1).last() == xv);
        }
        let ghost before = out@;
        out.insert(k, x);
        assert(views(out@) =~= views(before).insert(k as int, (x.path@, x.value@)));
        i = i + 1;
    }
    assert(views(v@).take(v@.len() as int) =~= views(v@));
    out
}

/// The first `n` entries of `s`, where of each run of entries with one path only the last stays.
pub open spec fn keep_last(s: Seq<(Seq<char>, ScalarV)>, n: nat) -> Seq<(Seq<char>, ScalarV)>
    decreases n,
{
    if n == 0 || n > s.len() {
        seq![]
    } else {
        let t = keep_last(s, (n - 1) as nat);
        if t.len() > 0 && t.last().0 == s[n - 1].0 {
            t.drop_last().push(s[n - 1])
        } else {
            t.push(s[n - 1])
        }
    }
}

/// Drops each field that a later neighbour with the same path replaces.
pub fn keep_last_fields(v: &Vec<FlatField>) -> (r: Vec<FlatField>)
    ensures
        views(r@) == keep_last(views(v@), v@.len() as nat),
{
    let ghost sv = views(v@);
    let mut out: Vec<FlatField> = Vec::new();
    let mut n: usize = 0;
    assert(views(out@) =~= keep_last(sv, 0));
    while n < v.len()
        invariant
            n <= v@.len(),
            sv == views(v@),
            views(out@) == keep_last(sv, n as nat),
        decreases v@.len() - n,
    {
        let f = FlatField { path: copy_chars(&v[n].path), value: v[n].value.copy() };
        let ghost before = out@;
        let replace = out.len() > 0 && eq_path(&out[out.len() - 1].path, &f.path);
        if replace {
            out.pop();
            assert(views(out@) =~= views(before).drop_last());
        }
        out.push(f);
        assert(views(out@) =~= keep_last(sv, (n + 1) as nat));
        n = n + 1;
    }
    out
}

/// Whether two paths are equal.
pub fn eq_path(a: &Vec<char>, b: &Vec<char>) -> (r: bool)
    ensures
        r == (a@ == b@),
{
    if a.len() != b.len() {
        return false;
    }
    let mut i: usize = 0;
    while i < a.len()
        invariant
            a@.len() == b@.len(),
            i <= a@.len(),
            forall|k: int| 0 <= k < i ==> a@[k] == b@[k],
        decreases a@.len() - i,
    {
        if a[i] != b[i] {
            return false;
        }
        i = i + 1;
    }
    assert(a@ =~= b@);
    true
}

/// The leaves of a tree as the flattened mapping holds them: ordered by path, and of
/// several leaves with one path only the one visited last.
pub open spec fn flat_map(s: Seq<(Seq<char>, ScalarV)>) -> Seq<(Seq<char>, ScalarV)> {
    keep_last(sort_by_path(s), s.len())
}

/// Flattens a document tree into its leaves, each with its dotted path, ordered by path.
/// Fails with `InvalidFieldStructure` exactly when the tree is a bare leaf.
pub fn flatten(v: &JsonValue) -> (r: Result<Vec<FlatField>, EvaluationError>)
    ensures
        match flat(*v, seq![], true) {
            Some(s) => r is Ok && views(r->Ok_0@) == flat_map(s),
            None => r matches Err(EvaluationError::InvalidFieldStructure),
        },
{
    match flatten_fields(v) {
        Ok(fs) => {
            let sorted = sort_fields(&fs);
            proof {
                lemma_sort_len(views(fs@));
            }
            Ok(keep_last_fields(&sorted))
        },
        Err(e) => Err(e),
    }
}

} // verus!
