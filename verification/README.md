# keyboard_optimizer

Verified building blocks of a keyboard layout generator: a set of keys gets values
(letters) under restrictions and pairwise constraints, which makes a binary constraint
satisfaction problem whose solutions are the valid layouts.

- `src/cat`: numbered finite domains — numbers and counts, tables, products, sequences,
  bags (multisets) and their numberings, with the laws that each numbering is a bijection.
- `src/data`: restricted value ranges, the constraint domain and its walker, the binary
  keyboard definition format, association files, name lookup, lock grouping and keymaps.
- `src/algorithm`: the backtracking search for a complete valid assignment.
- `src/eval`: subsets of n-grams per group and per pair of groups.
- `src/heuristics`: the placements open to each group of tokens.
- `app/`: file reading, JSON configuration and floating-point scoring around the library.
