# synth

Synthetic table data: train models of tables from samples, draft rules, and
generate rows that keep foreign keys, computed columns, value rules and branch
coverage.

`src/` is the verified library. What it decides is stated in the contracts of its
functions and in public proof functions; among the latter:

- every foreign key of generated data has a parent row, parent keys are distinct,
  and keys that may be used once are used once (`integrity.rs`);
- computed columns hold what their expressions give, also after branches were
  repaired (`derivation.rs`, `branch.rs`, `integrity.rs`);
- a repair that moves nothing leaves no trace, and takes no row from a branch that
  still needs it (`branch.rs`);
- a column that no rule writes holds draws of its own model, clipped to what was seen
  and on the grid of its digits (`domain.rs`, `grid.rs`, `integrity.rs`);
- tables come out in an order in which parents precede children exactly where the
  references have no cycle, and a cycle that is named is one and meets no table twice
  (`graph.rs`); computed columns, one rule each, are refused for a cycle exactly where
  there is one (`derivation.rs`);
- one seed gives one result, cell by cell, and a rule on one column leaves the draws of
  the others alone (`repeat.rs`, `aside.rs`);
- two numbers, and two texts, are in exactly one order, and a number is not compared
  with a text (`expr.rs`);
- expressions that are written out are read back as they were (`grammar.rs`);
- mined candidates are only ever comments, whatever the names and values of a
  database hold, and columns that were recognised as personal data take no part in
  mining unless they are kept (`mine.rs`).

Numbers that are drawn from learned distributions come through two traits,
`draw::Sampler` and `fitting::Fitter`. What each of their calls gives is named as a
function of what it is asked, and the contracts of the library say over these names
what becomes of it; nothing else is relied upon.

`app/` is ordinary Rust around the library: the command line, files, the traits
that a database and the rest of the tool implement, and everything in floating
point.

`tests/` runs the library on concrete values.
