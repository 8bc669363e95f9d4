# conservation_lint

A linter that checks "conservation laws" stated in Rust source text:

- constants whose names end in `_TOTAL`, `_SUM` or `_WEIGHT` against the sum
  of the constants that share their base name (`conservation-lint::sum-conservation`);
- comments such as `// 15 tests` against the number of `#[test]` attributes
  (`conservation-lint::test-count`);
- array literals that look like probability distributions against a sum of
  one (`conservation-lint::entropy-conservation`).

## Layout

- `src/` is the library, verified with Verus:
  - `text.rs`: searching, splitting, trimming and number parsing over
    character sequences, each with its specification;
  - `pattern.rs`: the regular expressions and what each yields;
  - `extractor.rs`: extraction of constants, test-count comments, test
    attributes and distribution candidates from a list of files, specified
    by `extracted`;
  - `checker.rs`: which totals are checked against which constants, and the
    exact diagnostics of each check;
  - `diagnostic.rs`: diagnostics in the shape of cargo's JSON messages.
- `app/` is the command-line program: it walks a crate's `src/` directory,
  reads and sums values as floating-point numbers, compares them with the
  tolerance, and prints or serialises the diagnostics.
- `tests/` runs the library on concrete sources.
