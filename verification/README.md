# primerug

A prime k-tuple finder: it looks for `n` such that every `n + d`, for `d`
in a constellation pattern such as `0, 4, 6, 10, 12, 16`, is a probable
prime.

- `src/` is the library, verified with Verus: the bit-packed prime table
  (`primes`), the primorial offsets (`offsets`), the pattern parser and
  search parameters (`config`), patterns written as decimal text
  (`pattern_text`), the per-target sieve and the scan of its
  survivors (`sieve`), the shared statistics counters (`stats`), random
  decimal targets (`target`) and the GPU batch protocol (`gpu`).
- `app/` is the command-line program: argument parsing (a primorial number
  or offset of 0 is selected automatically), threads, the
  big-integer arithmetic on rug (primorial, inverses, Fermat tests),
  sockets to the GPU service and the output.
- `tests/` exercises the library.
