# hayday_planner

A production planner for the farming game Hay Day, verified with Verus.

The program reads the goods list of the Hay Day wiki, picks the goods and machines a
farm can use, plans how often to run each process so that the sold goods are worth the
most, turns that plan into jobs and schedules the jobs on the machines.

## Layout

- `src/` is the verified library:
  - `domain.rs`: goods, processes, sources, the registry and scenarios, with their views;
  - `text.rs`: whitespace, trimming and decimal numbers;
  - `parsers.rs`: the grammar of recipe cells (quantities, names, ingredient lists, times);
  - `goods_table.rs`: the rows of the goods-list table, read with `scraper`;
  - `registry.rs`: from rows of text to a registry of goods, processes and sources;
  - `scenario.rs`: which processes and sources a scenario needs;
  - `petgraph_specs.rs`: the `petgraph` calls the library makes, with their contracts;
  - `dependency_graph.rs`: the graph from products to ingredients, and its queries;
  - `planner.rs`: the integer program that plans production;
  - `scheduler.rs`: jobs from a plan, and the program that schedules them.
- `tests/` runs the library, and compares the grammar with the same grammar written with
  `nom`'s combinators.
- `app/` is the program: it downloads the page, solves both programs with `good_lp` and
  prints the schedule.
