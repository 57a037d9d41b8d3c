use vstd::prelude::*;

verus! {

/// Length of the common run of `a` and `b` that starts at `i` in `a` and at `j` in `b`.
pub open spec fn run_len(a: Seq<char>, b: Seq<char>, i: int, j: int) -> nat
    decreases a.len() - i,
{
    if 0 <= i < a.len() && 0 <= j < b.len() && a[i] == b[j] {
        1 + run_len(a, b, i + 1, j + 1)
    } else {
        0
    }
}

/// `(i, j)` is met before `(k, l)` when `a` is scanned by rows and `b` by columns.
pub open spec fn scan_before(i: int, j: int, k: int, l: int) -> bool {
    i < k || (i == k && j < l)
}

/// `(i, j, n)` is the first of the longest common runs of `a` and `b`.
pub open spec fn is_first_longest(a: Seq<char>, b: Seq<char>, i: int, j: int, n: nat) -> bool {
    &&& 0 <= i < a.len()
    &&& 0 <= j < b.len()
    &&& n > 0
    &&& n == run_len(a, b, i, j)
    &&& forall|k: int, l: int| #[trigger] run_len(a, b, k, l) <= n
    &&& forall|k: int, l: int| scan_before(k, l, i, j) ==> #[trigger] run_len(a, b, k, l) < n
}

/// Ratcliff/Obershelp matched-character count: the first longest common run,
/// plus the counts of what lies before it and what lies after it.
pub open spec fn gestalt(a: Seq<char>, b: Seq<char>) -> nat
    decreases a.len() + b.len(),
    via gestalt_decreases
{
    if exists|i: int, j: int, n: nat| is_first_longest(a, b, i, j, n) {
        let (i, j, n) = choose|i: int, j: int, n: nat| is_first_longest(a, b, i, j, n);
        n + gestalt(a.subrange(0, i), b.subrange(0, j)) + gestalt(
            a.subrange(i + n, a.len() as int),
            b.subrange(j + n, b.len() as int),
        )
    } else {
        0
    }
}

#[via_fn]
proof fn gestalt_decreases(a: Seq<char>, b: Seq<char>) {
    if exists|i: int, j: int, n: nat| is_first_longest(a, b, i, j, n) {
        let (i, j, n) = choose|i: int, j: int, n: nat| is_first_longest(a, b, i, j, n);
        lemma_run_len_bound(a, b, i, j);
    }
}

/// A common run never reaches past the end of either sequence.
pub proof fn lemma_run_len_bound(a: Seq<char>, b: Seq<char>, i: int, j: int)
    requires
        0 <= i,
        0 <= j,
    ensures
        i + run_len(a, b, i, j) <= a.len() || run_len(a, b, i, j) == 0,
        run_len(a, b, i, j) > 0 ==> i + run_len(a, b, i, j) <= a.len() && j + run_len(a, b, i, j)
            <= b.len(),
    decreases a.len() - i,
{
    if 0 <= i < a.len() && 0 <= j < b.len() && a[i] == b[j] {
        lemma_run_len_bound(a, b, i + 1, j + 1);
    }
}

/// There is at most one first longest common run.
pub proof fn lemma_first_longest_unique(
    a: Seq<char>,
    b: Seq<char>,
    i: int,
    j: int,
    n: nat,
    k: int,
    l: int,
    m: nat,
)
    requires
        is_first_longest(a, b, i, j, n),
        is_first_longest(a, b, k, l, m),
    ensures
        i == k && j == l && n == m,
{
    assert(run_len(a, b, k, l) <= n);
    assert(run_len(a, b, i, j) <= m);
    if scan_before(i, j, k, l) {
        assert(run_len(a, b, i, j) < m);
    } else if scan_before(k, l, i, j) {
        assert(run_len(a, b, k, l) < n);
    }
}

/// The matched-character count is bounded by both lengths.
pub proof fn lemma_gestalt_bound(a: Seq<char>, b: Seq<char>)
    ensures
        gestalt(a, b) <= a.len(),
        gestalt(a, b) <= b.len(),
    decreases a.len() + b.len(),
{
    if exists|i: int, j: int, n: nat| is_first_longest(a, b, i, j, n) {
        let (i, j, n) = choose|i: int, j: int, n: nat| is_first_longest(a, b, i, j, n);
        lemma_run_len_bound(a, b, i, j);
        lemma_gestalt_bound(a.subrange(0, i), b.subrange(0, j));
        lemma_gestalt_bound(a.subrange(i + n, a.len() as int), b.subrange(j + n, b.len() as int));
    }
}

/// Every common run seen so far, scanning up to `(i, j)`, is recorded in `best`.
pub open spec fn best_so_far(
    a: Seq<char>,
    b: Seq<char>,
    best: Option<(usize, usize, usize)>,
    i: int,
    j: int,
) -> bool {
    match best {
        None => forall|k: int, l: int|
            0 <= k && 0 <= l < b.len() && scan_before(k, l, i, j) ==> #[trigger] run_len(a, b, k, l)
                == 0,
        Some((bi, bj, bn)) => {
            &&& bi < a.len()
            &&& bj < b.len()
            &&& scan_before(bi as int, bj as int, i, j)
            &&& bn > 0
            &&& bn == run_len(a, b, bi as int, bj as int)
            &&& forall|k: int, l: int|
                0 <= k && 0 <= l < b.len() && scan_before(k, l, i, j) ==> #[trigger] run_len(
                    a,
                    b,
                    k,
                    l,
                ) <= bn
            &&& forall|k: int, l: int|
                0 <= k && 0 <= l < b.len() && scan_before(k, l, bi as int, bj as int)
                    ==> #[trigger] run_len(a, b, k, l) < bn
        },
    }
}

/// Finds the first longest common run of `a` and `b`, as `(start in a, start in b, length)`;
/// `None` when the two share no character.
pub fn longest_common_substring(a: &[char], b: &[char]) -> (r: Option<(usize, usize, usize)>)
    ensures
        match r {
            Some((i, j, n)) => is_first_longest(a@, b@, i as int, j as int, n as nat),
            None => forall|k: int, l: int| #[trigger] run_len(a@, b@, k, l) == 0,
        },
{
    let mut best: Option<(usize, usize, usize)> = None;
    let mut i: usize = 0;
    while i < a.len()
        invariant
            i <= a.len(),
            best_so_far(a@, b@, best, i as int, 0),
        decreases a.len() - i,
    {
        let mut j: usize = 0;
        while j < b.len()
            invariant
                i < a.len(),
                j <= b.len(),
                best_so_far(a@, b@, best, i as int, j as int),
            decreases b.len() - j,
        {
            let mut length: usize = 0;
            while i + length < a.len() && j + length < b.len() && a[i + length] == b[j + length]
                invariant
                    i < a.len(),
                    j < b.len(),
                    i + length <= a.len(),
                    j + length <= b.len(),
                    run_len(a@, b@, i as int, j as int) == length + run_len(
                        a@,
                        b@,
                        (i + length) as int,
                        (j + length) as int,
                    ),
                decreases a.len() - length,
            {
                length = length + 1;
            }
            assert(run_len(a@, b@, i as int, j as int) == length);
            match best {
                None => {
                    if length > 0 {
                        best = Some((i, j, length));
                    }
                },
                Some((_, _, best_len)) => {
                    if length > best_len {
                        best = Some((i, j, length));
                    }
                },
            }
            j = j + 1;
        }
        i = i + 1;
        assert forall|k: int, l: int|
            0 <= k && 0 <= l < b@.len() && scan_before(k, l, i as int, 0) implies scan_before(
                k,
                l,
                (i - 1) as int,
                b@.len() as int,
            ) by {}
    }
    match best {
        Some((bi, bj, bn)) => {
            assert forall|k: int, l: int| #[trigger] run_len(a@, b@, k, l) <= bn by {
                if !(0 <= k && 0 <= l < b@.len() && scan_before(k, l, i as int, 0)) {
                    assert(run_len(a@, b@, k, l) == 0);
                }
            }
            assert forall|k: int, l: int|
                scan_before(k, l, bi as int, bj as int) implies #[trigger] run_len(a@, b@, k, l)
                < bn by {
                if !(0 <= k && 0 <= l < b@.len()) {
                    assert(run_len(a@, b@, k, l) == 0);
                }
            }
        },
        None => {
            assert forall|k: int, l: int| #[trigger] run_len(a@, b@, k, l) == 0 by {
                if !(0 <= k && 0 <= l < b@.len() && scan_before(k, l, i as int, 0)) {
                    assert(run_len(a@, b@, k, l) == 0);
                }
            }
        },
    }
    best
}

/// Ratcliff/Obershelp matched-character count of `a` and `b`.
pub fn gestalt_match(a: &[char], b: &[char]) -> (r: usize)
    ensures
        r == gestalt(a@, b@),
    decreases a.len() + b.len(),
{
    if a.len() == 0 || b.len() == 0 {
        return 0;
    }
    match longest_common_substring(a, b) {
        Some((i, j, n)) => {
            proof {
                lemma_run_len_bound(a@, b@, i as int, j as int);
                let (ci, cj, cn) = choose|ci: int, cj: int, cn: nat|
                    is_first_longest(a@, b@, ci, cj, cn);
                lemma_first_longest_unique(a@, b@, i as int, j as int, n as nat, ci, cj, cn);
                lemma_gestalt_bound(a@.subrange(0, i as int), b@.subrange(0, j as int));
                lemma_gestalt_bound(
                    a@.subrange((i + n) as int, a@.len() as int),
                    b@.subrange((j + n) as int, b@.len() as int),
                );
            }
            let prefix = gestalt_match(&a[0..i], &b[0..j]);
            let suffix = gestalt_match(&a[i + n..a.len()], &b[j + n..b.len()]);
            n + prefix + suffix
        },
        None => {
            proof {
                if exists|ci: int, cj: int, cn: nat| is_first_longest(a@, b@, ci, cj, cn) {
                    let (ci, cj, cn) = choose|ci: int, cj: int, cn: nat|
                        is_first_longest(a@, b@, ci, cj, cn);
                    assert(run_len(a@, b@, ci, cj) == 0);
                }
            }
            0
        },
    }
}

/// Similarity of `a` and `b` as a fraction `(numerator, denominator)`:
/// `1/1` for two empty sequences, else `2 * gestalt(a, b) / (|a| + |b|)`.
pub open spec fn similarity_fraction(a: Seq<char>, b: Seq<char>) -> (nat, nat) {
    if a.len() == 0 && b.len() == 0 {
        (1, 1)
    } else {
        (2 * gestalt(a, b), (a.len() + b.len()) as nat)
    }
}

/// Ratcliff/Obershelp similarity of `a` and `b`, as an exact fraction in `[0, 1]`.
pub fn similarity(a: &[char], b: &[char]) -> (r: (u128, u128))
    ensures
        (r.0 as nat, r.1 as nat) == similarity_fraction(a@, b@),
        r.0 <= r.1,
        r.1 > 0,
{
    if a.len() == 0 && b.len() == 0 {
        return (1, 1);
    }
    let matches = gestalt_match(a, b);
    proof {
        lemma_gestalt_bound(a@, b@);
    }
    (2 * (matches as u128), a.len() as u128 + b.len() as u128)
}

proof fn lemma_run_len_self(s: Seq<char>, k: int)
    requires
        0 <= k <= s.len(),
    ensures
        run_len(s, s, k, k) == s.len() - k,
    decreases s.len() - k,
{
    if k < s.len() {
        lemma_run_len_self(s, k + 1);
    }
}

/// A sequence matches itself in full: its similarity with itself is one.
pub proof fn lemma_similarity_identical(s: Seq<char>)
    ensures
        gestalt(s, s) == s.len(),
        similarity_fraction(s, s).0 == similarity_fraction(s, s).1,
{
    if s.len() > 0 {
        lemma_run_len_self(s, 0);
        assert forall|k: int, l: int| #[trigger] run_len(s, s, k, l) <= s.len() by {
            if 0 <= k && 0 <= l {
                lemma_run_len_bound(s, s, k, l);
            }
        }
        assert(is_first_longest(s, s, 0, 0, s.len()));
        let (ci, cj, cn) = choose|ci: int, cj: int, cn: nat| is_first_longest(s, s, ci, cj, cn);
        lemma_first_longest_unique(s, s, 0, 0, s.len(), ci, cj, cn);
        let e = s.subrange(0, 0);
        assert(gestalt(e, e) == 0);
        assert(s.subrange(s.len() as int, s.len() as int) =~= e);
    }
}

/// Two sequences that share no character have similarity zero.
pub proof fn lemma_similarity_disjoint(a: Seq<char>, b: Seq<char>)
    requires
        forall|i: int, j: int| 0 <= i < a.len() && 0 <= j < b.len() ==> a[i] != b[j],
    ensures
        gestalt(a, b) == 0,
        similarity_fraction(a, b).0 == 0 || (a.len() == 0 && b.len() == 0),
{
    if exists|ci: int, cj: int, cn: nat| is_first_longest(a, b, ci, cj, cn) {
        let (ci, cj, cn) = choose|ci: int, cj: int, cn: nat| is_first_longest(a, b, ci, cj, cn);
        assert(a[ci] != b[cj]);
    }
}

} // verus!
