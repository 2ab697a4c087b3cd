# Recipedia

A recipe and repository hub: it mirrors one Git tree of Sage recipes, shows
every package with the state of its build, and hosts the published binary
packages.

- `src/` is the library. Everything that the hub decides or computes stands
  there and is verified by Verus: the tables and their laws (`db`, `records`,
  `table`), build states (`status`), the tree and its synchronization (`sync`),
  publishing and withdrawing (`repo`, `requests`), the pages and what programs
  are told (`web`, `pages`, `detail`, `api`), the dependency graph (`graph`,
  `levels`, `sweep`, `drawing`) and the command lines (`cli`,
  `publication`, `config`). The
  texts, paths, lists and numbers that these are made of have modules of their
  own.
- `app/` is the program around it: LMDB, the web server, Git, files, the
  publisher's requests, and the calls into Sage.
- `tests/` runs the library.

Sage orders upstream versions, reads recipes and inspects archives. The library
takes what Sage returns as plain values: an upstream version carries its place
among the versions at hand.
