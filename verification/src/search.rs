//! Searching for the lowest admissible starting height of one tree, by the
//! naive incremental scan and by residue buckets modulo the branch spacing.

use std::sync::atomic::AtomicUsize;
use vstd::prelude::*;

use crate::bitmap::{bit_set, branch, dense_get, lemma_beyond_end_unset, lemma_mul_le};

verus! {

/// The heights marked in the bitmap `words`.
pub open spec fn used_heights(words: Seq<u64>) -> Set<int> {
    Set::new(|b: int| bit_set(words, b))
}

/// No branch height of the tree `(n, x)` is in `used`.
pub open spec fn progression_free(used: Set<int>, n: int, x: int) -> bool {
    forall|k: int| 0 <= k < n ==> !used.contains(#[trigger] branch(x, n, k))
}

/// `x` is the lowest starting height `>= 1` whose progression avoids `used`.
pub open spec fn least_free(used: Set<int>, n: int, x: int) -> bool {
    &&& x >= 1
    &&& progression_free(used, n, x)
    &&& forall|y: int| 1 <= y < x ==> !#[trigger] progression_free(used, n, y)
}

/// The remainder of `y` modulo `n`.
pub open spec fn residue_of(y: int, n: int) -> int {
    y % n
}

/// The first candidate of the bucket of starting heights congruent to
/// `residue` modulo `n`.
pub open spec fn first_candidate(n: int, residue: int) -> int {
    if residue == 0 {
        n
    } else {
        residue
    }
}

/// The `j`-th candidate of the bucket `residue` modulo `n`.
pub open spec fn bucket_member(n: int, residue: int, j: int) -> int {
    first_candidate(n, residue) + j * n
}

/// `bucket_member(n, residue, m)` is the first candidate of its bucket whose
/// progression avoids `used`.
pub open spec fn first_free_in_bucket(used: Set<int>, n: int, residue: int, m: int) -> bool {
    &&& m >= 0
    &&& progression_free(used, n, bucket_member(n, residue, m))
    &&& forall|j: int|
        0 <= j < m ==> !#[trigger] progression_free(used, n, bucket_member(n, residue, j))
}

/// Some branch `x + kn` of the tree at `x` is used, no higher branch is, and
/// `y` is `x + (k + 1)n`, the next candidate of the bucket past it.
pub open spec fn jumps_to(used: Set<int>, n: int, x: int, y: int) -> bool {
    exists|k: int|
        {
            &&& 0 <= k < n
            &&& used.contains(#[trigger] branch(x, n, k))
            &&& y == branch(x, n, k + 1)
            &&& forall|j: int| k < j < n ==> !used.contains(#[trigger] branch(x, n, j))
        }
}

/// The outcome of examining one candidate of a bucket.
pub enum BucketStep {
    /// The candidate is not below the bound: the bucket is given up.
    Stop,
    /// The candidate is blocked; the next candidate worth examining.
    Jump(usize),
    /// The candidate's progression is free.
    Found(usize),
}

proof fn lemma_branch_shift(x: int, n: int, j: int, k: int)
    ensures
        branch(branch(x, n, j), n, k - j) == branch(x, n, k),
        branch(x, n, j + 1) == branch(x, n, j) + n,
{
    assert(j * n + (k - j) * n == k * n) by (nonlinear_arith);
    assert((j + 1) * n == j * n + n) by (nonlinear_arith);
}

/// Every branch height of a tree lies at or above its lowest branch.
proof fn lemma_branch_above(x: int, n: int, k: int)
    requires
        0 <= k,
        0 <= n,
    ensures
        branch(x, n, k) >= x,
{
    lemma_mul_le(0, k, n);
}

/// A tree whose lowest branch lies beyond the end of the bitmap is free.
pub proof fn lemma_free_beyond_end(words: Seq<u64>, n: int, x: int)
    requires
        x >= words.len() * 64,
        n >= 0,
    ensures
        progression_free(used_heights(words), n, x),
{
    assert forall|k: int| 0 <= k < n implies !used_heights(words).contains(
        #[trigger] branch(x, n, k),
    ) by {
        lemma_branch_above(x, n, k);
        lemma_beyond_end_unset(words, branch(x, n, k));
    }
}

/// When the branch `k` of the tree at `x` is used, the trees at
/// `x, x + n, ..., x + kn` are all blocked: each of them has that height among
/// its own branches.
pub proof fn lemma_blocked_skip(used: Set<int>, n: int, x: int, k: int, j: int)
    requires
        0 <= j <= k < n,
        used.contains(branch(x, n, k)),
    ensures
        !progression_free(used, n, branch(x, n, j)),
{
    lemma_branch_shift(x, n, j, k);
    assert(used.contains(branch(branch(x, n, j), n, k - j)));
}

/// Every starting height `y >= 1` is a member of the bucket `y % n`.
pub proof fn lemma_bucket_decompose(n: int, y: int)
    requires
        n >= 1,
        y >= 1,
    ensures
        ({
            let j = if y % n == 0 { y / n - 1 } else { y / n };
            &&& j >= 0
            &&& 0 <= y % n < n
            &&& y == bucket_member(n, y % n, j)
        }),
{
    assert(y == n * (y / n) + y % n && 0 <= y % n < n) by (nonlinear_arith)
        requires
            n >= 1,
    ;
    assert(y / n >= 0) by (nonlinear_arith)
        requires
            n >= 1,
            y >= 1,
    ;
    if y % n == 0 {
        assert(y / n >= 1) by (nonlinear_arith)
            requires
                n >= 1,
                y >= 1,
                y == n * (y / n),
        ;
        assert((y / n - 1) * n == n * (y / n) - n) by (nonlinear_arith);
    } else {
        assert((y / n) * n == n * (y / n)) by (nonlinear_arith);
    }
}

/// The lowest free starting height is the least of the buckets' first free
/// candidates: it is the first free candidate of its own bucket, and no
/// bucket's first free candidate lies below it. So the buckets may be
/// searched in any order, or side by side, and the least result kept.
pub proof fn lemma_least_free_in_buckets(used: Set<int>, n: int, x: int)
    requires
        n >= 1,
        least_free(used, n, x),
    ensures
        exists|m: int|
            bucket_member(n, x % n, m) == x && #[trigger] first_free_in_bucket(used, n, x % n, m),
        forall|r: int, m: int|
            0 <= r < n && #[trigger] first_free_in_bucket(used, n, r, m) ==> x <= bucket_member(
                n,
                r,
                m,
            ),
{
    lemma_bucket_decompose(n, x);
    let j = if x % n == 0 {
        x / n - 1
    } else {
        x / n
    };
    assert forall|i: int| 0 <= i < j implies !#[trigger] progression_free(
        used,
        n,
        bucket_member(n, x % n, i),
    ) by {
        lemma_mul_le(i, j, n);
        lemma_mul_le(0, i, n);
        assert(i * n < j * n) by (nonlinear_arith)
            requires
                i < j,
                n >= 1,
        ;
    }
    assert(first_free_in_bucket(used, n, x % n, j));
    assert forall|r: int, m: int|
        0 <= r < n && #[trigger] first_free_in_bucket(used, n, r, m) implies x <= bucket_member(
        n,
        r,
        m,
    ) by {
        lemma_mul_le(0, m, n);
        if bucket_member(n, r, m) < x {
            assert(!progression_free(used, n, bucket_member(n, r, m)));
        }
    }
}

/// The first candidate of the bucket `residue` modulo `n`.
pub fn first_candidate_in_bucket(n: usize, residue: usize) -> (r: usize)
    ensures
        r == first_candidate(n as int, residue as int),
        residue < n ==> {
            &&& r >= 1
            &&& residue_of(r as int, n as int) == residue
            &&& forall|y: int| 1 <= y < r ==> #[trigger] residue_of(y, n as int) != residue
        },
{
    proof {
        if residue < n {
            vstd::arithmetic::div_mod::lemma_mod_self_0(n as int);
            vstd::arithmetic::div_mod::lemma_small_mod(residue as nat, n as nat);
            assert forall|y: int| 1 <= y < first_candidate(n as int, residue as int) implies
                #[trigger] residue_of(y, n as int) != residue by {
                vstd::arithmetic::div_mod::lemma_small_mod(y as nat, n as nat);
            }
        }
    }
    if residue == 0 {
        n
    } else {
        residue
    }
}

/// Every marked height lies below the end of the bitmap.
pub proof fn lemma_used_below_end(words: Seq<u64>, b: int)
    requires
        used_heights(words).contains(b),
    ensures
        0 <= b < words.len() * 64,
{
}

/// A jump from the `m`-th candidate of a bucket lands on a later candidate of
/// the same bucket, below the end of the bitmap plus `n`, and passes over
/// blocked candidates only.
proof fn lemma_jump_in_bucket(words: Seq<u64>, n: int, residue: int, m: int, y: int) -> (next: int)
    requires
        m >= 0,
        jumps_to(used_heights(words), n, bucket_member(n, residue, m), y),
        forall|j: int|
            0 <= j < m ==> !#[trigger] progression_free(
                used_heights(words),
                n,
                bucket_member(n, residue, j),
            ),
    ensures
        next > m,
        y > bucket_member(n, residue, m),
        y == bucket_member(n, residue, next),
        y < words.len() * 64 + n,
        forall|j: int|
            0 <= j < next ==> !#[trigger] progression_free(
                used_heights(words),
                n,
                bucket_member(n, residue, j),
            ),
{
    let used = used_heights(words);
    let x = bucket_member(n, residue, m);
    let first = first_candidate(n, residue);
    let k = choose|k: int|
        {
            &&& 0 <= k < n
            &&& used.contains(#[trigger] branch(x, n, k))
            &&& y == branch(x, n, k + 1)
            &&& forall|j: int| k < j < n ==> !used.contains(#[trigger] branch(x, n, j))
        };
    lemma_used_below_end(words, branch(x, n, k));
    lemma_branch_shift(x, n, k, k);
    lemma_branch_above(x, n, k);
    assert forall|j: int| 0 <= j < m + k + 1 implies !#[trigger] progression_free(
        used,
        n,
        bucket_member(n, residue, j),
    ) by {
        if j >= m {
            lemma_branch_shift(first, n, m, j);
            lemma_blocked_skip(used, n, x, k, j - m);
        }
    }
    lemma_branch_shift(first, n, m, m + k + 1);
    m + k + 1
}

/// Examines the candidate `x` against the current `bound`: gives up when `x`
/// is not below it; otherwise scans the branches of `x` from the highest down
/// and, at the first used one, `x + kn`, jumps to `x + (k + 1)n`; with no used
/// branch, `x` is found.
pub fn bucket_step(used_words: &[u64], n: usize, x: usize, bound: usize) -> (r: BucketStep)
    requires
        x < bound ==> branch(x as int, n as int, n - 1) <= usize::MAX,
        x < bound ==> used_words.len() * 64 + n <= usize::MAX,
    ensures
        x >= bound ==> r is Stop,
        x < bound ==> match r {
            BucketStep::Stop => false,
            BucketStep::Found(y) => y == x && progression_free(
                used_heights(used_words@),
                n as int,
                x as int,
            ),
            BucketStep::Jump(y) => jumps_to(used_heights(used_words@), n as int, x as int, y as int),
        },
{
    if x >= bound {
        return BucketStep::Stop;
    }
    let ghost used = used_heights(used_words@);
    let mut k: usize = n;
    while k > 0
        invariant
            k <= n,
            x < bound,
            used == used_heights(used_words@),
            branch(x as int, n as int, n - 1) <= usize::MAX,
            used_words.len() * 64 + n <= usize::MAX,
            forall|j: int| k <= j < n ==> !used.contains(#[trigger] branch(x as int, n as int, j)),
        decreases k,
    {
        k = k - 1;
        proof {
            lemma_mul_le(k as int, n - 1, n as int);
        }
        let h = x + k * n;
        if dense_get(used_words, h) {
            proof {
                lemma_used_below_end(used_words@, h as int);
                lemma_branch_shift(x as int, n as int, k as int, k as int);
            }
            return BucketStep::Jump(h + n);
        }
    }
    BucketStep::Found(x)
}

/// The lowest starting height `x >= 1` for the tree of spacing `n` whose
/// branches all avoid the marked heights, found by trying `x = 1, 2, 3, ...`
/// in turn and checking every branch of each.
pub fn find_bruteforce_term(used_words: &[u64], n: usize) -> (x: usize)
    requires
        used_words.len() * 64 + n * n <= usize::MAX,
    ensures
        least_free(used_heights(used_words@), n as int, x as int),
{
    let ghost used = used_heights(used_words@);
    let ghost cap: int = if used_words.len() == 0 {
        1
    } else {
        used_words.len() * 64
    };
    let mut x: usize = 1;
    loop
        invariant
            used == used_heights(used_words@),
            used_words.len() * 64 + n * n <= usize::MAX,
            cap == (if used_words.len() == 0 {
                1
            } else {
                used_words.len() * 64
            }),
            1 <= x <= cap,
            forall|y: int| 1 <= y < x ==> !#[trigger] progression_free(used, n as int, y),
        decreases cap - x,
    {
        proof {
            assert(branch(x as int, n as int, n - 1) == x + n * n - n) by (nonlinear_arith);
            assert(n == 0 || n <= n * n) by (nonlinear_arith);
        }
        let mut collision = false;
        let mut k: usize = 0;
        while k < n
            invariant_except_break
                k <= n,
                !collision,
                forall|j: int| 0 <= j < k ==> !used.contains(#[trigger] branch(x as int, n as int, j)),
            invariant
                used == used_heights(used_words@),
                used_words.len() * 64 + n * n <= usize::MAX,
                1 <= x <= cap,
                branch(x as int, n as int, n - 1) == x + n * n - n,
                n == 0 || x + n * n - n <= usize::MAX,
            ensures
                collision ==> !progression_free(used, n as int, x as int),
                !collision ==> progression_free(used, n as int, x as int),
            decreases n - k,
        {
            proof {
                lemma_mul_le(k as int, n - 1, n as int);
            }
            if dense_get(used_words, x + k * n) {
                assert(used.contains(branch(x as int, n as int, k as int)));
                collision = true;
                break;
            }
            k = k + 1;
        }
        if collision {
            proof {
                if x >= used_words.len() * 64 {
                    lemma_free_beyond_end(used_words@, n as int, x as int);
                }
            }
            x = x + 1;
            continue;
        }
        return x;
    }
}

/// The lowest starting height `x >= 1` for the tree of spacing `n` whose
/// branches all avoid the marked heights, found bucket by bucket: for each
/// residue modulo `n` in turn, the bucket's candidates are examined from the
/// lowest up, jumping past blocked ones, while they stay below the best height
/// found so far. With `n == 0` there is no bucket and the result is
/// `usize::MAX`.
pub fn find_modular_bucket_term(used_words: &[u64], n: usize) -> (x: usize)
    requires
        used_words.len() * 64 + n * n <= usize::MAX,
    ensures
        n >= 1 ==> least_free(used_heights(used_words@), n as int, x as int),
        n == 0 ==> x == usize::MAX,
{
    let ghost used = used_heights(used_words@);
    let mut best = usize::MAX;
    let mut residue: usize = 0;
    while residue < n
        invariant
            residue <= n,
            n == 0 ==> best == usize::MAX,
            used == used_heights(used_words@),
            used_words.len() * 64 + n * n <= usize::MAX,
            best == usize::MAX || (best >= 1 && progression_free(used, n as int, best as int)),
            forall|r: int, j: int|
                0 <= r < residue && 0 <= j && bucket_member(n as int, r, j) < best ==> !#[trigger] progression_free(
                    used,
                    n as int,
                    bucket_member(n as int, r, j),
                ),
        decreases n - residue,
    {
        let ghost first = first_candidate(n as int, residue as int);
        let mut x = first_candidate_in_bucket(n, residue);
        let ghost mut m: int = 0;
        proof {
            assert(0int * (n as int) == 0) by (nonlinear_arith);
        }
        loop
            invariant
                residue < n,
                used == used_heights(used_words@),
                used_words.len() * 64 + n * n <= usize::MAX,
                first == first_candidate(n as int, residue as int),
                best == usize::MAX || (best >= 1 && progression_free(used, n as int, best as int)),
                forall|r: int, j: int|
                    0 <= r < residue && 0 <= j && bucket_member(n as int, r, j) < best ==> !#[trigger] progression_free(
                        used,
                        n as int,
                        bucket_member(n as int, r, j),
                    ),
                m >= 0,
                x == bucket_member(n as int, residue as int, m),
                x == first || x < used_words.len() * 64 + n,
                forall|j: int|
                    0 <= j < m ==> !#[trigger] progression_free(
                        used,
                        n as int,
                        bucket_member(n as int, residue as int, j),
                    ),
            ensures
                used == used_heights(used_words@),
                best == usize::MAX || (best >= 1 && progression_free(used, n as int, best as int)),
                forall|r: int, j: int|
                    0 <= r <= residue && 0 <= j && bucket_member(n as int, r, j) < best ==> !#[trigger] progression_free(
                        used,
                        n as int,
                        bucket_member(n as int, r, j),
                    ),
            decreases used_words.len() * 64 + n - x,
        {
            proof {
                if x == first {
                    assert(branch(n as int, n as int, n - 1) == n * n) by (nonlinear_arith);
                } else {
                    assert(branch(x as int, n as int, n - 1) == x + n * n - n) by (nonlinear_arith);
                }
                assert(n <= n * n) by (nonlinear_arith)
                    requires
                        n >= 1,
                ;
            }
            match bucket_step(used_words, n, x, best) {
                BucketStep::Stop => {
                    proof {
                        assert forall|r: int, j: int|
                            0 <= r <= residue && 0 <= j && bucket_member(n as int, r, j) < best implies !#[trigger] progression_free(
                            used,
                            n as int,
                            bucket_member(n as int, r, j),
                        ) by {
                            if r == residue {
                                if j >= m {
                                    lemma_mul_le(m, j, n as int);
                                }
                            }
                        }
                    }
                    break;
                },
                BucketStep::Jump(y) => {
                    proof {
                        m = lemma_jump_in_bucket(used_words@, n as int, residue as int, m, y as int);
                    }
                    x = y;
                },
                BucketStep::Found(y) => {
                    proof {
                        assert forall|r: int, j: int|
                            0 <= r <= residue && 0 <= j && bucket_member(n as int, r, j) < y implies !#[trigger] progression_free(
                            used,
                            n as int,
                            bucket_member(n as int, r, j),
                        ) by {
                            if r == residue {
                                if j >= m {
                                    lemma_mul_le(m, j, n as int);
                                }
                            }
                        }
                    }
                    best = y;
                    break;
                },
            }
        }
        residue = residue + 1;
    }
    proof {
        if n >= 1 {
            let c: int = if used_words.len() == 0 {
                1
            } else {
                used_words.len() * 64
            };
            lemma_free_beyond_end(used_words@, n as int, c);
            assert forall|y: int| 1 <= y < best implies !#[trigger] progression_free(used, n as int, y) by {
                lemma_bucket_decompose(n as int, y);
                let j = if y % (n as int) == 0 {
                    y / (n as int) - 1
                } else {
                    y / (n as int)
                };
                assert(!progression_free(used, n as int, bucket_member(n as int, y % (n as int), j)));
            }
            assert(n <= n * n) by (nonlinear_arith)
                requires
                    n >= 1,
            ;
            if best == usize::MAX {
                assert(!progression_free(used, n as int, c));
            }
        }
    }
    best
}

/// Reads the lowest starting height found so far by any bucket search. Other
/// threads may store to `best` at any time, so nothing is stated of the value
/// read; `bucket_step` says what follows for each value of it.
fn current_best(best: &AtomicUsize) -> usize {
    best.load(std::sync::atomic::Ordering::Relaxed)
}

/// Lowers the shared best starting height to `x` when `x` is lower.
fn offer_best(best: &AtomicUsize, x: usize) {
    best.fetch_min(x, std::sync::atomic::Ordering::Relaxed);
}

proof fn lemma_top_branch_bound(n: int, start: int, limit: int)
    requires
        n >= 0,
        start + n * n <= limit,
    ensures
        branch(start, n, n - 1) <= limit,
        start + n <= limit,
{
    assert((n - 1) * n == n * n - n) by (nonlinear_arith);
    assert(n <= n * n) by (nonlinear_arith)
        requires
            n >= 0,
    ;
}

/// The bucket's first free candidate is unique.
proof fn lemma_first_free_unique(used: Set<int>, n: int, residue: int, m1: int, m2: int)
    requires
        first_free_in_bucket(used, n, residue, m1),
        first_free_in_bucket(used, n, residue, m2),
    ensures
        m1 == m2,
{
    if m1 < m2 {
        assert(!progression_free(used, n, bucket_member(n, residue, m1)));
    } else if m2 < m1 {
        assert(!progression_free(used, n, bucket_member(n, residue, m2)));
    }
}

/// A bucket search finds the bucket's first free candidate whenever every
/// bound it may read lies above that candidate: it returns only the first free
/// candidate, and it gives up only at a candidate not below a bound it read,
/// with every candidate before that one blocked.
pub proof fn lemma_search_finds_below_every_bound(
    used: Set<int>,
    n: int,
    residue: int,
    may_read: spec_fn(int) -> bool,
    result: Option<int>,
    m: int,
)
    requires
        n >= 0,
        first_free_in_bucket(used, n, residue, m),
        forall|b: int| #[trigger] may_read(b) ==> b > bucket_member(n, residue, m),
        result matches Some(x) ==> exists|k: int|
            x == bucket_member(n, residue, k) && #[trigger] first_free_in_bucket(used, n, residue, k),
        result is None ==> exists|b: int, k: int|
            {
                &&& #[trigger] may_read(b)
                &&& k >= 0
                &&& #[trigger] bucket_member(n, residue, k) >= b
                &&& forall|j: int|
                    0 <= j < k ==> !#[trigger] progression_free(used, n, bucket_member(n, residue, j))
            },
    ensures
        result == Some(bucket_member(n, residue, m)),
{
    if result is None {
        let (b, k) = choose|b: int, k: int|
            {
                &&& #[trigger] may_read(b)
                &&& k >= 0
                &&& #[trigger] bucket_member(n, residue, k) >= b
                &&& forall|j: int|
                    0 <= j < k ==> !#[trigger] progression_free(used, n, bucket_member(n, residue, j))
            };
        if m < k {
            assert(!progression_free(used, n, bucket_member(n, residue, m)));
        }
        lemma_mul_le(k, m, n);
        assert(false);
    } else {
        let x = result->Some_0;
        let k = choose|k: int|
            x == bucket_member(n, residue, k) && #[trigger] first_free_in_bucket(used, n, residue, k);
        lemma_first_free_unique(used, n, residue, k, m);
    }
}

/// Searches the bucket of starting heights congruent to `residue` modulo `n`,
/// from its first candidate upwards, for the first one whose progression is
/// free. Before each candidate it reads the current bound with `read_bound`
/// and gives up as soon as the candidate is not below it; a candidate that is
/// found is handed to `offer`.
///
/// What is returned is the bucket's first free candidate; giving up happens
/// only at a candidate not below a bound that was read, all earlier candidates
/// being blocked; and so, when every bound that can be read lies above the
/// bucket's first free candidate, that candidate is returned.
pub fn search_bucket<R: Fn() -> usize, O: Fn(usize)>(
    used_words: &[u64],
    n: usize,
    residue: usize,
    read_bound: R,
    offer: O,
) -> (r: Option<usize>)
    requires
        used_words.len() * 64 + n * n <= usize::MAX,
        residue + n * n <= usize::MAX,
        call_requires(read_bound, ()),
        forall|v: usize| call_requires(offer, (v,)),
    ensures
        r matches Some(x) ==> exists|m: int|
            x == bucket_member(n as int, residue as int, m) && #[trigger] first_free_in_bucket(
                used_heights(used_words@),
                n as int,
                residue as int,
                m,
            ),
        r is None ==> exists|b: usize, m: int|
            {
                &&& #[trigger] call_ensures(read_bound, (), b)
                &&& m >= 0
                &&& #[trigger] bucket_member(n as int, residue as int, m) >= b
                &&& forall|j: int|
                    0 <= j < m ==> !#[trigger] progression_free(
                        used_heights(used_words@),
                        n as int,
                        bucket_member(n as int, residue as int, j),
                    )
            },
        forall|m: int|
            #[trigger] first_free_in_bucket(used_heights(used_words@), n as int, residue as int, m)
                && (forall|b: usize|
                call_ensures(read_bound, (), b) ==> b > bucket_member(n as int, residue as int, m))
                ==> r == Some(bucket_member(n as int, residue as int, m) as usize),
{
    let ghost used = used_heights(used_words@);
    let ghost first = first_candidate(n as int, residue as int);
    let ghost cap: int = if first > used_words.len() * 64 + n {
        first
    } else {
        used_words.len() * 64 + n
    };
    let mut x = first_candidate_in_bucket(n, residue);
    let ghost mut m: int = 0;
    proof {
        assert(0int * (n as int) == 0) by (nonlinear_arith);
    }
    let mut result: Option<usize> = None;
    loop
        invariant
            used == used_heights(used_words@),
            first == first_candidate(n as int, residue as int),
            used_words.len() * 64 + n * n <= usize::MAX,
            residue + n * n <= usize::MAX,
            call_requires(read_bound, ()),
            forall|v: usize| call_requires(offer, (v,)),
            cap == (if first > used_words.len() * 64 + n {
                first
            } else {
                used_words.len() * 64 + n
            }),
            m >= 0,
            x == bucket_member(n as int, residue as int, m),
            x == first || x < used_words.len() * 64 + n,
            x <= cap,
            forall|j: int|
                0 <= j < m ==> !#[trigger] progression_free(
                    used,
                    n as int,
                    bucket_member(n as int, residue as int, j),
                ),
        ensures
            result matches Some(x) ==> exists|m: int|
                x == bucket_member(n as int, residue as int, m) && #[trigger] first_free_in_bucket(
                    used,
                    n as int,
                    residue as int,
                    m,
                ),
            result is None ==> exists|b: usize, m: int|
                {
                    &&& #[trigger] call_ensures(read_bound, (), b)
                    &&& m >= 0
                    &&& #[trigger] bucket_member(n as int, residue as int, m) >= b
                    &&& forall|j: int|
                        0 <= j < m ==> !#[trigger] progression_free(
                            used,
                            n as int,
                            bucket_member(n as int, residue as int, j),
                        )
                },
        decreases cap - x,
    {
        proof {
            if x == first {
                if residue == 0 {
                    assert(branch(n as int, n as int, n - 1) == n * n) by (nonlinear_arith);
                } else {
                    lemma_top_branch_bound(n as int, residue as int, usize::MAX as int);
                }
            } else {
                assert(branch(x as int, n as int, n - 1) == x + n * n - n) by (nonlinear_arith);
            }
            lemma_top_branch_bound(n as int, used_words.len() * 64, usize::MAX as int);
        }
        let bound = read_bound();
        match bucket_step(used_words, n, x, bound) {
            BucketStep::Stop => {
                assert(call_ensures(read_bound, (), bound));
                assert(bucket_member(n as int, residue as int, m) >= bound);
                result = None;
                break;
            },
            BucketStep::Jump(y) => {
                proof {
                    m = lemma_jump_in_bucket(used_words@, n as int, residue as int, m, y as int);
                }
                x = y;
            },
            BucketStep::Found(y) => {
                assert(first_free_in_bucket(used, n as int, residue as int, m));
                offer(y);
                result = Some(y);
                break;
            },
        }
    }
    proof {
        assert forall|k: int|
            #[trigger] first_free_in_bucket(used, n as int, residue as int, k) && (forall|b: usize|
                call_ensures(read_bound, (), b) ==> b > bucket_member(n as int, residue as int, k))
                implies result == Some(bucket_member(n as int, residue as int, k) as usize) by {
            let may_read = |b: int| 0 <= b <= usize::MAX && call_ensures(read_bound, (), b as usize);
            let res: Option<int> = match result {
                Some(v) => Some(v as int),
                None => None,
            };
            if result is None {
                let (b, j) = choose|b: usize, j: int|
                    {
                        &&& #[trigger] call_ensures(read_bound, (), b)
                        &&& j >= 0
                        &&& #[trigger] bucket_member(n as int, residue as int, j) >= b
                        &&& forall|i: int|
                            0 <= i < j ==> !#[trigger] progression_free(
                                used,
                                n as int,
                                bucket_member(n as int, residue as int, i),
                            )
                    };
                assert(may_read(b as int));
            }
            lemma_search_finds_below_every_bound(used, n as int, residue as int, may_read, res, k);
        }
    }
    result
}

/// Searches the bucket of starting heights congruent to `residue` modulo `n`,
/// from its first candidate upwards, for the first one whose progression is
/// free. Gives up as soon as the candidate is not below the shared best value
/// `best`, which other searches may lower meanwhile; a candidate that is found
/// is offered to `best`.
///
/// Another thread may change `best` between two reads, so giving up is not
/// tied to any one value of it; a height that is returned is the bucket's
/// first free candidate whatever `best` held. The search itself, and what it
/// owes for each value read, is `search_bucket`.
pub fn find_in_bucket(used_words: &[u64], n: usize, residue: usize, best: &AtomicUsize) -> (r:
    Option<usize>)
    requires
        used_words.len() * 64 + n * n <= usize::MAX,
        residue + n * n <= usize::MAX,
    ensures
        r matches Some(x) ==> exists|m: int|
            x == bucket_member(n as int, residue as int, m) && #[trigger] first_free_in_bucket(
                used_heights(used_words@),
                n as int,
                residue as int,
                m,
            ),
{
    let read_bound = || current_best(best);
    let offer = |v: usize| offer_best(best, v);
    search_bucket(used_words, n, residue, read_bound, offer)
}

} // verus!
