# nft_rarity

Rarity statistics for a collection of tokens (NFTs) and their traits.

- `src/` is the verified library (Verus):
  - `trait_object` — a token's traits, a map from trait names to values;
  - `records`, `test_data`, `canister` — reading the trait listings (the
    test data text, or the canister's answer) into trait objects and the
    list of trait names;
  - `matrix` — the token-by-trait table (`NA` for missing traits) and its
    transpose;
  - `counting` — per-value counts and distinct-value counts of columns;
  - `ranking` — ranks, sorted distinct values and contingency tables, over
    order keys;
  - `text` — character-level searching, replacing and decimal writing.
- `app/` is the HTTP service: file and process I/O, JSON, and the
  floating-point statistics (means, scores, chi-squared tests, Cramér's V,
  normalised rarities).
- `tests/` exercises the library.
