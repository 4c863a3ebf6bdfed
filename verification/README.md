# lottery_stats

Tools that show, with exact combinatorics, simulation and statistical tests on real
draw data, that Chinese lotteries cannot be predicted.

- `src/` — the verified library (Verus): draw-structure descriptions of eight games,
  data-row parsing and validation, draw-notice JSON extraction and data-file
  building, the deterministic generator and the simulated experiments, the counting
  core of every analysis (tallies, tracked numbers, ranked picks, backtests,
  demonstration tickets), and the request handling of the local web page.
  The jackpot combination counts are exact integers, proved to be the binomial
  coefficients of Pascal's rule (`odds::binomial`, `odds::jackpot_combos`); only
  the report's division for 快乐8 and the return rates are floating point.
  Laws that span functions are public proof functions, for example
  `reload::lemma_import_reads_back` (an imported data file reads back as its rows)
  and `analysis::lemma_top_unique` (the ranked picks are unique).
- `app/` — the program around it: the terminal report (floating-point statistics),
  the web server loop, and the `fetch` / `import` commands that read and write files.
- `tests/` — tests of the library.

Commands: no argument runs the report; `serve [port]`, `fetch <game> [count]`,
`import <game> <file>`, `ssq`, `help`.
