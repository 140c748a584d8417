# sequoia

Verified generation of the sequoia sequence: `a(n)` is the smallest `x >= 1`
such that the heights `x, x + n, ..., x + (n - 1)n` avoid every height used by
the earlier terms.

- `src/bitmap.rs`: the dense bitmap of used heights (`dense_get`, `dense_set`,
  `mark_progression`).
- `src/search.rs`: the search for one term, naive (`find_bruteforce_term`) and
  by residue buckets (`bucket_step`, `find_in_bucket`,
  `find_modular_bucket_term`), with the bucket laws.
- `src/sequence.rs`: the definition of the sequence, the two generators and
  the laws of the sequence (uniqueness, disjoint branches).
- `src/term_line.rs`: the `<index> <term>` line format of the sequence file.
- `src/loader.rs`: resuming from the sequence file line by line.
- `app/main.rs`: the two command-line generators (file I/O, threads).
