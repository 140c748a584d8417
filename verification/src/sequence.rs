//! The sequoia sequence itself: its definition, the generators that build its
//! first terms from an empty bitmap, and the laws that hold of it.

use vstd::prelude::*;

use crate::bitmap::{branch, mark_progression, on_progression};
use crate::search::{
    find_bruteforce_term, find_modular_bucket_term, lemma_free_beyond_end, least_free,
    progression_free, used_heights,
};

verus! {

/// The branch heights of the tree with lowest branch `x` and spacing `n`.
pub open spec fn progression(x: int, n: int) -> Set<int> {
    Set::new(|h: int| on_progression(x, n, h))
}

/// All branch heights of the trees `terms[0], terms[1], ...`, where the tree
/// `terms[i]` has spacing `i + 1`.
pub open spec fn heights_of(terms: Seq<int>) -> Set<int>
    decreases terms.len(),
{
    if terms.len() == 0 {
        Set::empty()
    } else {
        heights_of(terms.drop_last()).union(progression(terms.last(), terms.len() as int))
    }
}

/// `terms[i]` is the sequence's term for `n = i + 1`: the lowest height
/// `x >= 1` whose progression avoids every branch of the earlier trees.
pub open spec fn is_term_at(terms: Seq<int>, i: int) -> bool {
    least_free(heights_of(terms.take(i)), i + 1, terms[i])
}

/// `terms` holds the first `terms.len()` terms of the sequoia sequence.
pub open spec fn is_sequoia_prefix(terms: Seq<int>) -> bool {
    forall|i: int| 0 <= i < terms.len() ==> #[trigger] is_term_at(terms, i)
}

/// The terms as mathematical integers.
pub open spec fn as_ints(terms: Seq<usize>) -> Seq<int> {
    terms.map_values(|t: usize| t as int)
}

/// A bound on the bitmap length, in bits, after `m` terms: `m^3 + 64m`.
pub open spec fn growth_bound(m: int) -> int {
    m * m * m + 64 * m
}

/// Two starting heights that are both least free for the same used heights
/// and spacing are equal.
pub proof fn lemma_least_free_unique(used: Set<int>, n: int, x: int, y: int)
    requires
        least_free(used, n, x),
        least_free(used, n, y),
    ensures
        x == y,
{
    if x < y {
        assert(!progression_free(used, n, x));
    } else if y < x {
        assert(!progression_free(used, n, y));
    }
}

/// A sequoia prefix extended by the least free height for the next spacing is
/// again a sequoia prefix.
pub proof fn lemma_prefix_extend(terms: Seq<int>, x: int)
    requires
        is_sequoia_prefix(terms),
        least_free(heights_of(terms), terms.len() + 1 as int, x),
    ensures
        is_sequoia_prefix(terms.push(x)),
{
    let t = terms.push(x);
    assert forall|i: int| 0 <= i < t.len() implies #[trigger] is_term_at(t, i) by {
        if i < terms.len() {
            assert(t.take(i) =~= terms.take(i));
            assert(is_term_at(terms, i));
        } else {
            assert(t.take(i) =~= terms);
        }
    }
}

/// The heights of a sequence extended by one term are those of the sequence
/// and those of the new tree.
pub proof fn lemma_heights_push(terms: Seq<int>, x: int)
    ensures
        heights_of(terms.push(x)) == heights_of(terms).union(
            progression(x, terms.len() + 1 as int),
        ),
{
    assert(terms.push(x).drop_last() =~= terms);
}

/// Every branch of the tree `terms[i]` is among the heights of the first `m`
/// trees once `i < m`.
pub proof fn lemma_heights_contain(terms: Seq<int>, m: int, i: int, k: int)
    requires
        0 <= i < m <= terms.len(),
        0 <= k <= i,
    ensures
        heights_of(terms.take(m)).contains(branch(terms[i], i + 1, k)),
    decreases m,
{
    let t = terms.take(m);
    assert(t.drop_last() =~= terms.take(m - 1));
    if i == m - 1 {
        assert(on_progression(terms[i], i + 1, branch(terms[i], i + 1, k)));
        assert(progression(t.last(), t.len() as int).contains(branch(terms[i], i + 1, k)));
    } else {
        lemma_heights_contain(terms, m - 1, i, k);
    }
}

proof fn lemma_prefixes_agree_upto(s: Seq<int>, t: Seq<int>, m: int)
    requires
        is_sequoia_prefix(s),
        is_sequoia_prefix(t),
        s.len() == t.len(),
        0 <= m <= s.len(),
    ensures
        s.take(m) == t.take(m),
    decreases m,
{
    if m > 0 {
        let i = m - 1;
        lemma_prefixes_agree_upto(s, t, i);
        assert(is_term_at(s, i));
        assert(is_term_at(t, i));
        lemma_least_free_unique(heights_of(s.take(i)), i + 1, s[i], t[i]);
        assert(s.take(m) =~= s.take(i).push(s[i]));
        assert(t.take(m) =~= t.take(i).push(t[i]));
    } else {
        assert(s.take(0) =~= t.take(0));
    }
}

/// Two sequoia prefixes of the same length are equal: the sequence is
/// determined by its definition.
pub proof fn lemma_sequoia_prefix_unique(s: Seq<int>, t: Seq<int>)
    requires
        is_sequoia_prefix(s),
        is_sequoia_prefix(t),
        s.len() == t.len(),
    ensures
        s == t,
{
    lemma_prefixes_agree_upto(s, t, s.len() as int);
    assert(s =~= s.take(s.len() as int));
    assert(t =~= t.take(t.len() as int));
}

/// Branches of different trees of the sequence never meet: the heights
/// `a(i) + k i` and `a(j) + l j` differ for `i != j`.
pub proof fn lemma_branches_disjoint(terms: Seq<int>, i: int, j: int, k: int, l: int)
    requires
        is_sequoia_prefix(terms),
        0 <= i < j < terms.len(),
        0 <= k <= i,
        0 <= l <= j,
    ensures
        branch(terms[i], i + 1, k) != branch(terms[j], j + 1, l),
{
    lemma_heights_contain(terms, j, i, k);
    assert(is_term_at(terms, j));
    assert(progression_free(heights_of(terms.take(j)), j + 1, terms[j]));
    assert(!heights_of(terms.take(j)).contains(branch(terms[j], j + 1, l)));
}

proof fn lemma_growth_step(n: int, num: int, len_bits: int, x: int)
    requires
        1 <= n <= num,
        0 <= len_bits <= growth_bound(n - 1),
        1 <= x,
        x <= 1 || x <= len_bits,
    ensures
        len_bits + n * n <= growth_bound(n),
        x + n * n - n + 64 <= growth_bound(n),
        growth_bound(n) <= growth_bound(num),
        branch(x, n, n - 1) == x + n * n - n,
{
    assert(growth_bound(n) == growth_bound(n - 1) + 3 * n * n - 3 * n + 65) by (nonlinear_arith);
    assert(n * n <= 3 * n * n - 3 * n + 65) by (nonlinear_arith)
        requires
            n >= 1,
    ;
    assert(n * n - n + 65 <= 3 * n * n - 3 * n + 65) by (nonlinear_arith)
        requires
            n >= 1,
    ;
    assert(growth_bound(n) <= growth_bound(num)) by (nonlinear_arith)
        requires
            1 <= n <= num,
    ;
    assert(branch(x, n, n - 1) == x + n * n - n) by (nonlinear_arith);
}

/// Marking the tree of the next term in a bitmap that holds the heights of
/// the earlier terms leaves the heights of all the terms: so does loading, one
/// accepted line after another, and so does generating.
pub proof fn lemma_mark_next_tree(old_words: Seq<u64>, new_words: Seq<u64>, terms: Seq<int>, x: int)
    requires
        used_heights(old_words) == heights_of(terms),
        forall|b: int| #[trigger]
            crate::bitmap::bit_set(new_words, b) == (crate::bitmap::bit_set(old_words, b)
                || on_progression(x, terms.len() + 1 as int, b)),
    ensures
        used_heights(new_words) == heights_of(terms.push(x)),
{
    lemma_heights_push(terms, x);
    assert(used_heights(new_words) =~= heights_of(terms).union(progression(x, terms.len() + 1 as int)));
}

/// Records one generated term: its tree is marked in the bitmap and the term
/// is appended, keeping the bitmap equal to the heights of the terms and the
/// terms a sequoia prefix.
proof fn lemma_generation_step(
    old_words: Seq<u64>,
    new_words: Seq<u64>,
    terms: Seq<int>,
    n: int,
    x: int,
)
    requires
        n == terms.len() + 1,
        used_heights(old_words) == heights_of(terms),
        is_sequoia_prefix(terms),
        least_free(heights_of(terms), n, x),
        forall|b: int| #[trigger]
            crate::bitmap::bit_set(new_words, b) == (crate::bitmap::bit_set(old_words, b)
                || on_progression(x, n, b)),
    ensures
        used_heights(new_words) == heights_of(terms.push(x)),
        is_sequoia_prefix(terms.push(x)),
{
    lemma_mark_next_tree(old_words, new_words, terms, x);
    lemma_prefix_extend(terms, x);
}

/// A least free height is at most the first height beyond the bitmap.
proof fn lemma_least_free_within(words: Seq<u64>, n: int, x: int)
    requires
        n >= 0,
        least_free(used_heights(words), n, x),
    ensures
        x <= 1 || x <= words.len() * 64,
{
    let c: int = if words.len() == 0 {
        1
    } else {
        words.len() * 64 as int
    };
    lemma_free_beyond_end(words, n, c);
    if x > c {
        assert(!progression_free(used_heights(words), n, c));
    }
}

/// The state of a generator after `n - 1` of `num_terms` terms: the bitmap
/// holds exactly the heights of the terms so far, which are a sequoia prefix,
/// and its length stays within the growth bound.
spec fn generation_state(words: Seq<u64>, terms: Seq<usize>, n: int, num_terms: int) -> bool {
    &&& 1 <= n <= num_terms + 1
    &&& growth_bound(num_terms) <= usize::MAX
    &&& terms.len() == n - 1
    &&& used_heights(words) == heights_of(as_ints(terms))
    &&& is_sequoia_prefix(as_ints(terms))
    &&& words.len() * 64 <= growth_bound(n - 1)
}

/// The search for term `n` may run: its index arithmetic cannot overflow.
proof fn lemma_search_fits(words: Seq<u64>, terms: Seq<usize>, n: int, num_terms: int)
    requires
        generation_state(words, terms, n, num_terms),
        n <= num_terms,
    ensures
        words.len() * 64 + n * n <= usize::MAX,
{
    lemma_growth_step(n, num_terms, words.len() * 64 as int, 1);
}

/// Records the term `x` found for index `n`: marks its tree and appends it.
fn record_term(
    used_words: &mut Vec<u64>,
    terms: &mut Vec<usize>,
    n: usize,
    x: usize,
    Ghost(num_terms): Ghost<int>,
)
    requires
        generation_state(old(used_words)@, old(terms)@, n as int, num_terms),
        n <= num_terms,
        least_free(used_heights(old(used_words)@), n as int, x as int),
    ensures
        generation_state(final(used_words)@, final(terms)@, n + 1, num_terms),
{
    let ghost old_words = used_words@;
    let ghost old_terms = terms@;
    proof {
        lemma_least_free_within(old_words, n as int, x as int);
        lemma_growth_step(n as int, num_terms, used_words.len() * 64, x as int);
    }
    mark_progression(used_words, n, x);
    proof {
        lemma_generation_step(old_words, used_words@, as_ints(old_terms), n as int, x as int);
    }
    terms.push(x);
    proof {
        assert(as_ints(terms@) =~= as_ints(old_terms).push(x as int));
    }
}

/// The first `num_terms` terms of the sequence, each found by the naive
/// incremental scan over a dense bitmap of the heights used so far.
pub fn generate_dense_bruteforce(num_terms: usize) -> (terms: Vec<usize>)
    requires
        growth_bound(num_terms as int) <= usize::MAX,
    ensures
        terms.len() == num_terms,
        is_sequoia_prefix(as_ints(terms@)),
{
    let mut used_words: Vec<u64> = Vec::new();
    let mut terms: Vec<usize> = Vec::new();
    let mut n: usize = 1;
    proof {
        assert(used_heights(used_words@) =~= heights_of(as_ints(terms@)));
        assert(growth_bound(0) == 0) by (nonlinear_arith);
    }
    while n <= num_terms
        invariant
            generation_state(used_words@, terms@, n as int, num_terms as int),
        decreases num_terms + 1 - n,
    {
        proof {
            lemma_search_fits(used_words@, terms@, n as int, num_terms as int);
        }
        let x = find_bruteforce_term(&used_words, n);
        record_term(&mut used_words, &mut terms, n, x, Ghost(num_terms as int));
        n = n + 1;
    }
    terms
}

/// The first `num_terms` terms of the sequence, each found by the bucket
/// search modulo its spacing over a dense bitmap of the heights used so far.
pub fn generate_dense_modular_buckets(num_terms: usize) -> (terms: Vec<usize>)
    requires
        growth_bound(num_terms as int) <= usize::MAX,
    ensures
        terms.len() == num_terms,
        is_sequoia_prefix(as_ints(terms@)),
{
    let mut used_words: Vec<u64> = Vec::new();
    let mut terms: Vec<usize> = Vec::new();
    let mut n: usize = 1;
    proof {
        assert(used_heights(used_words@) =~= heights_of(as_ints(terms@)));
        assert(growth_bound(0) == 0) by (nonlinear_arith);
    }
    while n <= num_terms
        invariant
            generation_state(used_words@, terms@, n as int, num_terms as int),
        decreases num_terms + 1 - n,
    {
        proof {
            lemma_search_fits(used_words@, terms@, n as int, num_terms as int);
        }
        let x = find_modular_bucket_term(&used_words, n);
        record_term(&mut used_words, &mut terms, n, x, Ghost(num_terms as int));
        n = n + 1;
    }
    terms
}

} // verus!
