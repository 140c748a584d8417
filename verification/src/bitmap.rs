//! A dense bitmap of used branch heights, stored as a growing `Vec<u64>`.
//! Height `b` lives in word `b / 64`, at bit `b % 64`.

use vstd::prelude::*;

verus! {

/// Whether the word `w` has bit `i` set.
pub open spec fn word_has(w: u64, i: int) -> bool {
    w & (1u64 << (i as u64)) != 0
}

/// Whether height `b` is marked in the bitmap `words`.
pub open spec fn bit_set(words: Seq<u64>, b: int) -> bool {
    0 <= b && b / 64 < words.len() && word_has(words[b / 64], b % 64)
}

/// The `k`-th branch height of the tree with lowest branch `x` and spacing `n`.
pub open spec fn branch(x: int, n: int, k: int) -> int {
    x + k * n
}

/// Whether `h` is one of the first `count` branch heights of the tree with
/// lowest branch `x` and spacing `n`.
pub open spec fn on_branches(x: int, n: int, count: int, h: int) -> bool {
    exists|k: int| 0 <= k < count && h == #[trigger] branch(x, n, k)
}

/// Whether `h` is one of the `n` branch heights `x, x + n, ..., x + (n - 1)n`.
pub open spec fn on_progression(x: int, n: int, h: int) -> bool {
    on_branches(x, n, n, h)
}

/// The highest branch height of the tree `(n, x)`, for `n >= 1`.
pub open spec fn top_branch(x: int, n: int) -> int {
    branch(x, n, n - 1)
}

/// The length of a bitmap of length `len` after marking the first `count`
/// branch heights of the tree with lowest branch `x` and spacing `n`.
pub open spec fn len_after_marking(len: int, x: int, n: int, count: int) -> int {
    if count == 0 || branch(x, n, count - 1) / 64 < len {
        len
    } else {
        branch(x, n, count - 1) / 64 + 1
    }
}

/// Multiplying by a non-negative factor keeps the order of non-negative
/// numbers.
pub proof fn lemma_mul_le(a: int, b: int, n: int)
    requires
        0 <= a <= b,
        0 <= n,
    ensures
        0 <= a * n <= b * n,
{
    assert(0 <= a * n <= b * n) by (nonlinear_arith)
        requires
            0 <= a <= b,
            0 <= n,
    ;
}

proof fn lemma_word_or(w: u64, i: u64, j: u64)
    requires
        i < 64,
        j < 64,
    ensures
        ((w | (1u64 << i)) & (1u64 << j) != 0) == ((w & (1u64 << j) != 0) || i == j),
{
    assert(((w | (1u64 << i)) & (1u64 << j) != 0) == ((w & (1u64 << j) != 0) || i == j))
        by (bit_vector)
        requires
            i < 64,
            j < 64,
    ;
}

proof fn lemma_zero_word(j: u64)
    requires
        j < 64,
    ensures
        0u64 & (1u64 << j) == 0,
{
    assert(0u64 & (1u64 << j) == 0) by (bit_vector);
}

/// Heights at or beyond the end of the bitmap are never marked.
pub proof fn lemma_beyond_end_unset(words: Seq<u64>, b: int)
    requires
        b >= words.len() * 64,
    ensures
        !bit_set(words, b),
{
}

/// Whether height `bit` is marked.
pub fn dense_get(words: &[u64], bit: usize) -> (r: bool)
    ensures
        r == bit_set(words@, bit as int),
{
    let word = bit / 64;
    word < words.len() && (words[word] & (1u64 << ((bit % 64) as u64))) != 0
}

/// Marks height `bit`, growing the bitmap with zero words when `bit` lies
/// beyond its end.
pub fn dense_set(words: &mut Vec<u64>, bit: usize)
    ensures
        final(words).len() == if (bit / 64) < old(words).len() {
            old(words).len() as int
        } else {
            bit / 64 + 1
        },
        forall|b: int| #[trigger]
            bit_set(final(words)@, b) == (bit_set(old(words)@, b) || b == bit),
{
    let word = bit / 64;
    if word >= words.len() {
        words.resize(word + 1, 0);
        assert forall|i: int| old(words).len() <= i < words.len() implies words@[i] == 0u64 by {
        }
    }
    let ghost mid = words@;
    assert forall|b: int| #[trigger] bit_set(mid, b) == bit_set(old(words)@, b) by {
        if 0 <= b && b / 64 < mid.len() && b / 64 >= old(words).len() {
            lemma_zero_word((b % 64) as u64);
        }
    }
    words[word] = words[word] | (1u64 << ((bit % 64) as u64));
    assert forall|b: int| #[trigger]
        bit_set(words@, b) == (bit_set(old(words)@, b) || b == bit) by {
        assert(bit_set(mid, b) == bit_set(old(words)@, b));
        if 0 <= b && b / 64 < words.len() {
            if b / 64 == word as int {
                lemma_word_or(mid[word as int], (bit % 64) as u64, (b % 64) as u64);
            }
        }
    }
}

/// Marks the `n` branch heights `x, x + n, ..., x + (n - 1)n` of one tree.
pub fn mark_progression(words: &mut Vec<u64>, n: usize, x: usize)
    requires
        top_branch(x as int, n as int) <= usize::MAX,
    ensures
        final(words).len() == len_after_marking(old(words).len() as int, x as int, n as int, n as int),
        forall|b: int| #[trigger]
            bit_set(final(words)@, b) == (bit_set(old(words)@, b) || on_progression(
                x as int,
                n as int,
                b,
            )),
{
    let mut k: usize = 0;
    while k < n
        invariant
            k <= n,
            top_branch(x as int, n as int) <= usize::MAX,
            words.len() == len_after_marking(old(words).len() as int, x as int, n as int, k as int),
            forall|b: int| #[trigger]
                bit_set(words@, b) == (bit_set(old(words)@, b) || on_branches(
                    x as int,
                    n as int,
                    k as int,
                    b,
                )),
        decreases n - k,
    {
        proof {
            lemma_mul_le(k as int, n - 1, n as int);
        }
        let h = x + k * n;
        let ghost prev = words@;
        dense_set(words, h);
        proof {
            lemma_mul_le(k as int, k as int + 1, n as int);
            if k > 0 {
                lemma_mul_le(k - 1, k as int, n as int);
            }
            assert forall|b: int| #[trigger]
                bit_set(words@, b) == (bit_set(old(words)@, b) || on_branches(
                    x as int,
                    n as int,
                    k + 1,
                    b,
                )) by {
                if on_branches(x as int, n as int, k as int, b) {
                    let j = choose|j: int| 0 <= j < k && b == #[trigger] branch(x as int, n as int, j);
                    assert(branch(x as int, n as int, j) == b);
                }
                if b == h {
                    assert(branch(x as int, n as int, k as int) == b);
                }
                if on_branches(x as int, n as int, k + 1, b) {
                    let j = choose|j: int| 0 <= j < k + 1 && b == #[trigger] branch(x as int, n as int, j);
                    if j < k {
                        assert(on_branches(x as int, n as int, k as int, b));
                    }
                }
            }
        }
        k = k + 1;
    }
}

} // verus!
