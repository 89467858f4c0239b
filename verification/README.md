# odds

A smarter `cd`: it learns from every directory change (visits, recency and an
n-gram Markov chain of moves) and jumps to the best match for a few keywords.

## Layout

- `src/` — the library, written in Verus and verified:
  - `markov` — the n-gram chain of moves, its counts and the (count, total)
    behind each probability; laws: probabilities sum to one, every recorded
    move is predicted.
  - `history`, `session`, `register` — long-term visits, the short-term
    session stack, and what one directory change records in both.
  - `seeder` — parsing `cd` lines of a shell history file and merging them in.
  - `matcher` — match kinds, the fuzzy score, and the best matching of
    keywords to path segments (via `pathfinding`'s Kuhn–Munkres); law: the
    order of the keywords does not matter.
  - `ranking`, `discovery`, `cache` — stable ranking, the decisions of the
    breadth-first directory search, and its listing cache.
  - `cli`, `text`, `clock` — command decisions, text helpers, the system time.
- `app/` — the program around it: command line, files, the file-system
  search, and the floating-point scores.
- `tests/` — tests of the library.
