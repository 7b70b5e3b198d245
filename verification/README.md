# endspiel

A chess engine library whose rules, evaluation, search and self-play logic are
verified with Verus. `src/` holds the library, `tests/` its tests, and `app/` the
programs around it.

| Part | Modules |
| --- | --- |
| Sets and squares | `bits`, `types`, `text`, `arith` |
| Positions | `board`, `board_laws`, `zobrist`, `display`, `fen`, `fen_laws`, `pgn`, `pgn_laws`, `san`, `notation_laws` |
| Moves | `moves`, `attacks`, `attack_laws`, `magics`, `movegen`, `movegen_laws`, `validate`, `validity_laws` |
| Evaluation | `eval` and `eval_*`, `nnue`, `see` |
| Search | `search`, `history`, `ordering`, `ordering_laws`, `quiescence`, `alphabeta`, `root`, `lines`, `aspiration`, `deepening`, `iterative`, `timing`, `tt`, `syzygy` |
| Use | `engine`, `params`, `threads`, `platform`, `openings`, `datagen` |

Contracts are stated over `Position`, the mathematical content of a `Board`, and
over the contents of the search's tables. A search is specified as a function of
the position, its settings, its tables, and everything that the world around it
answers: the clock, the stop signal, the endgame tables. Laws that relate several
functions stand beside them as public proof functions named `law_*`.

Floating point, files, threads and the tablebase prober stay in `app/`, which
generates training games and holds a few tools: `eval-bench`, `fen-verify`,
`wdl-fit` and `print-params`.
