use vstd::prelude::*;

verus! {

/// Lexicographic order of character sequences, by code point.
pub open spec fn chars_lt(a: Seq<char>, b: Seq<char>) -> bool
    decreases a.len(),
{
    if a.len() == 0 {
        b.len() > 0
    } else if b.len() == 0 {
        false
    } else if a[0] != b[0] {
        a[0] < b[0]
    } else {
        chars_lt(a.drop_first(), b.drop_first())
    }
}

/// Lexicographic order is total and strict.
pub proof fn lemma_lt_total(a: Seq<char>, b: Seq<char>)
    ensures
        a == b || chars_lt(a, b) || chars_lt(b, a),
        !(chars_lt(a, b) && chars_lt(b, a)),
        !chars_lt(a, a),
    decreases a.len(),
{
    if a.len() > 0 && b.len() > 0 && a[0] == b[0] {
        lemma_lt_total(a.drop_first(), b.drop_first());
        if a.drop_first() == b.drop_first() {
            assert forall|i: int| 0 <= i < a.len() implies a[i] == b[i] by {
                if i > 0 {
                    assert(a[i] == a.drop_first()[i - 1]);
                    assert(b[i] == b.drop_first()[i - 1]);
                }
            }
            assert(a =~= b);
        }
    }
    if a.len() > 0 {
        lemma_lt_total(a.drop_first(), a.drop_first());
    }
}

/// Lexicographic order is transitive.
pub proof fn lemma_lt_trans(a: Seq<char>, b: Seq<char>, c: Seq<char>)
    requires
        chars_lt(a, b),
        chars_lt(b, c),
    ensures
        chars_lt(a, c),
    decreases a.len(),
{
    if a.len() > 0 && a[0] == b[0] && b[0] == c[0] {
        lemma_lt_trans(a.drop_first(), b.drop_first(), c.drop_first());
    }
}

/// "Not greater" is transitive.
pub proof fn lemma_le_trans(a: Seq<char>, b: Seq<char>, c: Seq<char>)
    requires
        !chars_lt(b, a),
        !chars_lt(c, b),
    ensures
        !chars_lt(c, a),
{
    lemma_lt_total(a, b);
    lemma_lt_total(b, c);
    lemma_lt_total(a, c);
    if chars_lt(c, a) {
        if a != b && b != c {
            lemma_lt_trans(a, b, c);
        }
    }
}

/// Inserts `x` into `t` after every element whose key is not greater than its own.
pub open spec fn insert_ordered<A>(t: Seq<A>, x: A, key: spec_fn(A) -> Seq<char>) -> Seq<A>
    decreases t.len(),
{
    if t.len() == 0 {
        seq![x]
    } else if chars_lt(key(x), key(t.last())) {
        insert_ordered(t.drop_last(), x, key).push(t.last())
    } else {
        t.push(x)
    }
}

/// Keys never decrease along `t`.
pub open spec fn keys_sorted<A>(t: Seq<A>, key: spec_fn(A) -> Seq<char>) -> bool {
    forall|i: int, j: int| 0 <= i < j < t.len() ==> !chars_lt(key(#[trigger] t[j]), key(#[trigger] t[i]))
}

/// Inserting places `x` at the position `k` that a backward scan over greater keys finds.
pub proof fn lemma_insert_ordered_at<A>(t: Seq<A>, x: A, key: spec_fn(A) -> Seq<char>, k: int)
    requires
        0 <= k <= t.len(),
        forall|i: int| k <= i < t.len() ==> chars_lt(key(x), key(#[trigger] t[i])),
        k == 0 || !chars_lt(key(x), key(t[k - 1])),
    ensures
        insert_ordered(t, x, key) == t.insert(k, x),
    decreases t.len(),
{
    if t.len() == 0 {
        assert(t.insert(k, x) =~= seq![x]);
    } else if k == t.len() {
        assert(t.insert(k, x) =~= t.push(x));
    } else {
        assert(chars_lt(key(x), key(t[t.len() - 1])));
        lemma_insert_ordered_at(t.drop_last(), x, key, k);
        assert(t.drop_last().insert(k, x).push(t.last()) =~= t.insert(k, x));
    }
}

/// Inserting adds `x` and keeps every other element.
pub proof fn lemma_insert_ordered_multiset<A>(t: Seq<A>, x: A, key: spec_fn(A) -> Seq<char>)
    ensures
        insert_ordered(t, x, key).to_multiset() =~= t.to_multiset().insert(x),
        insert_ordered(t, x, key).len() == t.len() + 1,
    decreases t.len(),
{
    broadcast use vstd::seq_lib::to_multiset_build, vstd::multiset::group_multiset_axioms;

    if t.len() == 0 {
        assert(seq![x] =~= t.push(x));
    } else {
        let l = t.last();
        let t2 = t.drop_last();
        assert(t2.push(l) =~= t);
        if chars_lt(key(x), key(l)) {
            lemma_insert_ordered_multiset(t2, x, key);
            assert(insert_ordered(t, x, key) == insert_ordered(t2, x, key).push(l));
            assert(t2.to_multiset().insert(x).insert(l) =~= t2.to_multiset().insert(l).insert(x));
        }
    }
}

proof fn lemma_insert_ordered_bounded<A>(
    t: Seq<A>,
    x: A,
    key: spec_fn(A) -> Seq<char>,
    y: Seq<char>,
)
    requires
        forall|i: int| 0 <= i < t.len() ==> !chars_lt(y, key(#[trigger] t[i])),
        !chars_lt(y, key(x)),
    ensures
        forall|i: int|
            0 <= i < insert_ordered(t, x, key).len() ==> !chars_lt(
                y,
                key(#[trigger] insert_ordered(t, x, key)[i]),
            ),
    decreases t.len(),
{
    let r = insert_ordered(t, x, key);
    if t.len() == 0 {
        assert(r[0] == x);
    } else {
        let t2 = t.drop_last();
        assert(t.last() == t[t.len() - 1]);
        assert forall|i: int| 0 <= i < t2.len() implies !chars_lt(y, key(#[trigger] t2[i])) by {
            assert(t2[i] == t[i]);
        }
        lemma_insert_ordered_bounded(t2, x, key, y);
        if chars_lt(key(x), key(t.last())) {
            let r2 = insert_ordered(t2, x, key);
            assert forall|i: int| 0 <= i < r.len() implies !chars_lt(y, key(#[trigger] r[i])) by {
                if i < r.len() - 1 {
                    assert(r[i] == r2[i]);
                }
            }
        } else {
            assert forall|i: int| 0 <= i < r.len() implies !chars_lt(y, key(#[trigger] r[i])) by {
                if i < t.len() {
                    assert(r[i] == t[i]);
                }
            }
        }
    }
}

/// Inserting into a sequence whose keys never decrease keeps them so.
pub proof fn lemma_insert_ordered_sorted<A>(t: Seq<A>, x: A, key: spec_fn(A) -> Seq<char>)
    requires
        keys_sorted(t, key),
    ensures
        keys_sorted(insert_ordered(t, x, key), key),
    decreases t.len(),
{
    if t.len() > 0 {
        let l = t.last();
        let r = insert_ordered(t, x, key);
        if chars_lt(key(x), key(l)) {
            let t2 = t.drop_last();
            lemma_insert_ordered_sorted(t2, x, key);
            lemma_lt_total(key(x), key(l));
            assert forall|i: int| 0 <= i < t2.len() implies !chars_lt(key(l), key(#[trigger] t2[i])) by {
                assert(t[i] == t2[i]);
                assert(t[t.len() - 1] == l);
            }
            lemma_insert_ordered_bounded(t2, x, key, key(l));
            let r2 = insert_ordered(t2, x, key);
            assert forall|i: int, j: int| 0 <= i < j < r.len() implies !chars_lt(
                key(#[trigger] r[j]),
                key(#[trigger] r[i]),
            ) by {
                if j == r.len() - 1 {
                    assert(r[i] == r2[i]);
                } else {
                    assert(r[i] == r2[i] && r[j] == r2[j]);
                }
            }
        } else {
            assert forall|i: int, j: int| 0 <= i < j < r.len() implies !chars_lt(
                key(#[trigger] r[j]),
                key(#[trigger] r[i]),
            ) by {
                if j == r.len() - 1 {
                    assert(r[i] == t[i]);
                    if i < t.len() - 1 {
                        assert(!chars_lt(key(t[t.len() - 1]), key(t[i])));
                        lemma_le_trans(key(t[i]), key(l), key(x));
                    }
                } else {
                    assert(r[i] == t[i] && r[j] == t[j]);
                }
            }
        }
    }
}

} // verus!
