# compress_bwt_rs

A Burrows-Wheeler Transform library with its supporting transforms, written
in Verus: every function carries a contract that Verus proves.

- `rotation`: the cyclic rotations of a text, the rotation table, and
  sorting the rotations by prefix doubling on cyclic ranks
  (`sort_rotations`).
- `bwt_forward`: the forward BWT (`transform`), the last column of the
  rotation table and the row of the input itself, and a naive version that
  builds and sorts every rotation (`transform_naive`); both are proved to
  compute the same pair.
- `bwt_inverse`: the inverse BWT by the LF mapping (`inverse`), which
  checks its result by transforming it again and refuses a pair that is the
  BWT of no text; a round-trip check; and the proofs that `inverse` undoes
  the forward BWT on every input and answers exactly the BWT pairs.
- `suffix`: suffix array by prefix doubling (`build_suffix_array`), and the
  BWT column read off a list of rows.
- `mtf`: move-to-front coding over the byte list or a custom alphabet.
- `rle_post`: run-length coding into `(value, count)` pairs and into a
  compact byte format.
- `ranks`: ranks of positions by strings and their refinement by rank
  pairs, shared by the two prefix-doubling sorts.
- `order`, `sort`: lexicographic order on byte strings, sorted permutations,
  and a merge sort of positions.

The laws that tie the functions together (round trips, uniqueness of the
rotation table and of the suffix array) are public proof functions next to
the functions they are about. Tests are under `tests/`.
