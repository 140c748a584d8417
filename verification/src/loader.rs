//! Resuming from the sequence file: its lines are taken in order while each
//! holds the next index, and every accepted term's tree is marked again.

use vstd::prelude::*;

use crate::bitmap::{bit_set, len_after_marking, mark_progression, on_progression, top_branch};
use crate::term_line::{
    lemma_term_line_roundtrip, parse_term_line, parse_term_line_spec, term_line_text,
};

verus! {

/// The progress of reading the sequence file line by line.
pub struct LoadState {
    /// The index that the next line must carry.
    pub expected_n: usize,
    /// The number of bytes read so far.
    pub current_offset: u64,
    /// The number of bytes up to the end of the last accepted line: the file
    /// is cut back to this length after loading.
    pub last_good_offset: u64,
}

/// Whether the line, if it is the next one to accept, names a tree whose
/// branch heights all fit in a `usize`.
pub open spec fn line_fits(line: Seq<char>, expected_n: int) -> bool {
    match parse_term_line_spec(line) {
        Some((n, x)) => n == expected_n ==> top_branch(x, n) <= usize::MAX,
        None => true,
    }
}

/// Whether the line ends with a line end, as every complete line of the
/// sequence file does.
pub open spec fn line_complete(line: Seq<char>) -> bool {
    line.len() > 0 && line.last() == '\n'
}

/// Whether the line is accepted: it is complete and holds a pair whose index
/// is `expected_n`. An unfinished last line is not accepted, so cutting the
/// file back to the last good offset removes it.
pub open spec fn line_accepted(line: Seq<char>, expected_n: int) -> bool {
    line_complete(line) && match parse_term_line_spec(line) {
        Some((n, x)) => n == expected_n,
        None => false,
    }
}

/// The terms of the leading lines of `lines` that are accepted one after the
/// other, the first with index `expected_n`, the next with the index after,
/// and so on, up to the first line that is not.
pub open spec fn accepted_terms(lines: Seq<Seq<char>>, expected_n: int) -> Seq<int>
    decreases lines.len(),
{
    if lines.len() > 0 && line_accepted(lines[0], expected_n) {
        seq![parse_term_line_spec(lines[0]).unwrap().1] + accepted_terms(
            lines.drop_first(),
            expected_n + 1,
        )
    } else {
        Seq::empty()
    }
}

/// Loading is stable: cut back to its accepted lines, the file loads again to
/// the same terms with every line accepted, so a second load cuts nothing
/// more and marks the same trees.
pub proof fn lemma_reload_is_stable(lines: Seq<Seq<char>>, expected_n: int)
    ensures
        accepted_terms(lines, expected_n).len() <= lines.len(),
        accepted_terms(lines.take(accepted_terms(lines, expected_n).len() as int), expected_n)
            == accepted_terms(lines, expected_n),
    decreases lines.len(),
{
    let terms = accepted_terms(lines, expected_n);
    if lines.len() > 0 && line_accepted(lines[0], expected_n) {
        let rest = lines.drop_first();
        lemma_reload_is_stable(rest, expected_n + 1);
        let k = terms.len() as int;
        let kept = lines.take(k);
        assert(kept.drop_first() =~= rest.take(k - 1));
        assert(kept[0] == lines[0]);
    } else {
        assert(lines.take(0) =~= Seq::<Seq<char>>::empty());
    }
}

/// When every line of a file is accepted on loading, appending the line for
/// the next index and loading again accepts every line once more and yields
/// the same terms followed by the appended one.
pub proof fn lemma_reload_after_append(lines: Seq<Seq<char>>, expected_n: int, x: nat)
    requires
        expected_n >= 0,
        accepted_terms(lines, expected_n).len() == lines.len(),
        expected_n + lines.len() <= usize::MAX,
        x <= usize::MAX,
    ensures
        accepted_terms(
            lines.push(term_line_text((expected_n + lines.len()) as nat, x)),
            expected_n,
        ) == accepted_terms(lines, expected_n).push(x as int),
    decreases lines.len(),
{
    let line = term_line_text((expected_n + lines.len()) as nat, x);
    let longer = lines.push(line);
    if lines.len() == 0 {
        lemma_written_line_accepted(expected_n as nat, x);
        assert(longer.drop_first() =~= Seq::<Seq<char>>::empty());
        assert(longer[0] == line);
        assert(accepted_terms(Seq::<Seq<char>>::empty(), expected_n + 1) =~= Seq::<int>::empty());
        assert(accepted_terms(longer, expected_n) =~= seq![x as int]);
    } else {
        assert(line_accepted(lines[0], expected_n));
        assert(accepted_terms(lines.drop_first(), expected_n + 1).len() == lines.drop_first().len());
        lemma_reload_after_append(lines.drop_first(), expected_n + 1, x);
        assert(longer.drop_first() =~= lines.drop_first().push(line));
        assert(longer[0] == lines[0]);
        assert(accepted_terms(longer, expected_n) =~= accepted_terms(lines, expected_n).push(
            x as int,
        ));
    }
}

/// A line written for the term `x` of index `n` is accepted when index `n`
/// is the one expected, and then marks exactly the tree `(n, x)`: resuming
/// reads back what generation appended.
pub proof fn lemma_written_line_accepted(n: nat, x: nat)
    requires
        n <= usize::MAX,
        x <= usize::MAX,
    ensures
        line_accepted(term_line_text(n, x), n as int),
        parse_term_line_spec(term_line_text(n, x)).unwrap().1 == x,
{
    lemma_term_line_roundtrip(n, x);
    assert(term_line_text(n, x).last() == '\n');
}

impl LoadState {
    /// The state before the first line: index 1 is expected, nothing read.
    pub fn new() -> (s: Self)
        ensures
            s.expected_n == 1,
            s.current_offset == 0,
            s.last_good_offset == 0,
    {
        LoadState { expected_n: 1, current_offset: 0, last_good_offset: 0 }
    }

    /// The number of terms accepted so far.
    pub fn loaded_terms(&self) -> (r: usize)
        requires
            self.expected_n >= 1,
        ensures
            r == self.expected_n - 1,
    {
        self.expected_n - 1
    }

    /// Takes the next line of the file, `bytes_read` bytes long with its line
    /// end. When it ends with a line end and holds the pair `(n, x)` with `n`
    /// the expected index, the
    /// tree `(n, x)` is marked in `words`, the next index is expected, the
    /// line counts as good, and loading goes on (`true`). Otherwise nothing
    /// but the byte count changes, and loading stops (`false`).
    pub fn accept_line(&mut self, words: &mut Vec<u64>, line: &[char], bytes_read: u64) -> (keep_going:
        bool)
        requires
            old(self).expected_n >= 1,
            old(self).current_offset + bytes_read <= u64::MAX,
            line_fits(line@, old(self).expected_n as int),
        ensures
            keep_going == line_accepted(line@, old(self).expected_n as int),
            final(self).current_offset == old(self).current_offset + bytes_read,
            keep_going ==> {
                let x = parse_term_line_spec(line@).unwrap().1;
                let n = old(self).expected_n as int;
                &&& final(self).expected_n == old(self).expected_n + 1
                &&& final(self).last_good_offset == final(self).current_offset
                &&& final(words).len() == len_after_marking(old(words).len() as int, x, n, n)
                &&& forall|b: int| #[trigger]
                    bit_set(final(words)@, b) == (bit_set(old(words)@, b) || on_progression(x, n, b))
            },
            !keep_going ==> {
                &&& final(self).expected_n == old(self).expected_n
                &&& final(self).last_good_offset == old(self).last_good_offset
                &&& final(words)@ == old(words)@
            },
    {
        self.current_offset = self.current_offset + bytes_read;
        if line.len() == 0 || line[line.len() - 1] != '\n' {
            return false;
        }
        match parse_term_line(line) {
            Some((n, x)) => {
                if n != self.expected_n {
                    return false;
                }
                proof {
                    assert(n + 1 <= usize::MAX) by (nonlinear_arith)
                        requires
                            n >= 1,
                            x + (n - 1) * n <= usize::MAX,
                            x >= 0,
                    ;
                }
                mark_progression(words, n, x);
                self.expected_n = self.expected_n + 1;
                self.last_good_offset = self.current_offset;
                true
            },
            None => false,
        }
    }
}

} // verus!
