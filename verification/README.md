# BenfordLens

Benford's Law analysis toolkit: it extracts leading digits from numeric data,
compares their distribution with Benford's Law (chi-square,
Kolmogorov-Smirnov, MAD, per-digit Z-statistics), scores the risk that the
data was fabricated, and writes text, JSON, markdown or HTML reports.

## Layout

- `src/` — the verified library (Verus). It holds the integer and text
  logic and the parsing of input text, each function with its contract:
  - `digit` — digit positions, their ranges and categories;
  - `analysis` — counting extracted digits per category, risk levels;
  - `statistics` — conformity levels, the validation of an observed table
    and the lookup of observed counts;
  - `distribution` — which values `x` make up each Benford probability
    as a sum of `log10(1 + 1/x)`, and the proof that they cover each block
    of leading digits exactly once;
  - `data` — input formats, path validation, tokenising plain text,
    cleaning numeric text, parsing JSON (through `serde_json`) and taking
    its numbers, reading the columns of CSV data (through `csv`);
  - `report` — output formats, HTML escaping (with its decoding laws),
    decimal text and the dataset headers of the reports;
  - `visualize` — laying out the bars of the distribution chart;
  - `cli` — resolving a command line into a task, and the xorshift
    generator used for sample data;
  - `text` — character-level helpers (whitespace, trimming, comparison).
- `app/` — the command-line program: argument parsing with clap, file and
  standard-input reading, JSON serialisation of results, and every step
  that computes with floating-point numbers (digit extraction through logarithms,
  expected probabilities, test statistics and p-values, the risk score,
  proportions in reports and charts).
- `tests/` — tests of the library.
