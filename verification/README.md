# srs_benchmark

A benchmark of spaced-repetition models on review logs. For each user it trains a model on the
earlier reviews, predicts the recall of the later ones, and writes one line of metrics.

`src/` is the verified library. It holds the rules of the benchmark, as far as they are not floating
point:

- what a run does: `config`, `run`, `sweep`, `resume`, with `text` and `decimal` below them
- from a review log to rows and folds: `data`, `interval`, `features`, `split`, `equalize`, `summary`
- what models read of a history: `history`, `logistic`, `initial_stability`, `neural`
- batches and their order: `batches`, `train`, `numpy_rng`, with `twister` and `recurrence` below them
- partitions of decks: `presets`, `cluster`, `linkage`, `hdbscan`, `selection`, `labels`, `optimal`
- metrics by rank and by bin: `metrics`
- what the rest rests on: `counting`, `grouping`, `sorting`, `ordkey`

A floating-point value enters the library as a key that orders as the value does (`ordkey`), as a
number of whole units, or as text.

`app/` is the program around it: the command line, the files, the worker threads, and the
floating-point parts of the models. `tests/` runs the library on concrete values.
