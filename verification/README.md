# Bonsai

A library on the structure, the architecture and the facts of a repository, verified with Verus,
and the command line program around it.

- `src/` is the library. Its functions state what they return or change, and the statements are
  proved; the five methods that a store of facts has to bring are the exception, and of them the
  methods built on them state what they are asked and what becomes of their answers. Text is
  reasoned about as sequences of characters, tables as sorted rows, trees and graphs as what leads
  to what.
- `app/` is the program: it walks directories, reads and writes files, runs git and witnesses, keeps
  facts in SQLite, answers GraphQL, and talks to GitHub. Whatever is decided or computed on the way
  is asked of the library, but for numbers with a fraction: the leanness score, the similarity of
  files, and the complexity of subtrees.
- `tests/` runs the library.

## What is trusted

What the library takes from other crates and from the standard library stands behind a few items
whose contracts are believed: the BLAKE3 hash (`digest`), quoting and laying out JSON (`json`,
`finding`), decoding a SCIP index (`scip`), decoding UTF-8 (`scan`), and two functions on characters
and strings (`text`).

## What is proved beyond the single functions

- A blueprint with nothing against it is coherent; neither what is wrong with it nor its shape
  depends on the order in which it is written, and its shape not on prose or implementations either;
  every change of slots, ports, invariants or flows changes the bytes that its identity is the digest
  of; a lock holds exactly for what is valid, has the same id, the same shape and the same witnesses;
  retaining permanent ports is transitive.
- A snapshot of facts is known by its parent and its facts, by all of them and by nothing else, and
  one that is known is never written again; what a question finds is exactly what a chain of
  dependencies of at most its depth leads to.
- A tree with nothing against it is sound and can be folded, each node once and behind its children;
  a configuration that is derived from directories makes a sound tree, and laying files over a sound
  tree keeps it sound.
- A move rewrites every reference by path. A fresh plan can be carried out; a plan that is out of
  date changes nothing. Edits speak of the lines as they were before all of them, and what is not
  edited keeps every byte.
- Copies within a repository are found and only those; what was not measured is said to be so.
- A change is judged by exactly the findings that are neither excepted, waived nor out of scope, and
  each finding is accounted for.
- A hook that was installed is found again, and taking it out leaves what stood there before.
- A repository is only said to comply where everything that is asked for was seen, and its state is
  unknown exactly where some control was not.
- Nothing is sent to GitHub before there is a token, every control was seen, and no stronger ruleset
  stands in the way; a rollout that refuses has changed nothing, and one that is done has sent
  everything.
