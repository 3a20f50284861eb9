# ruslingam

LiNGAM causal discovery (DirectLiNGAM with bootstrap summaries, CAMUV and the
HSIC independence test) as a Python extension, with its combinatorial core
verified in Verus.

* `src/` — the verified library: the seeded resampler, stable rankings and
  unique-row counts, prior-knowledge validation and the partial orders it
  implies, the causal-order search state, the CAMUV parent search state and
  adjacency pattern, path enumeration and the bootstrap count summaries, the
  packed-triangle layout of the HSIC grams and the thread-pool request.
  Every function carries a contract; the laws that span functions are public
  proof functions (`lemma_*`).
* `app/` — the PyO3 module: NumPy input, the thread pool, and all
  floating-point work (entropy scores, regressions, LARS/LASSO, the spline
  regression, the HSIC statistic and p-values, medians and probabilities),
  calling the library for every decision about indices, orders and counts.
* `tests/` — tests of the library on concrete values.
