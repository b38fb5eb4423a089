# range_map_regex

Deterministic finite automata whose transitions are tables over ranges of
symbols (`char` or `u8`), with the regular operations, minimization, and the
conversion of a `char` automaton into one that reads UTF-8 bytes. The library
is written in Verus: every operation states, over the words that an automaton
accepts, what the result accepts, and Verus proves it.

## Layout

- `src/dfa.rs` and `src/dfa/`: the automaton, its model (`run`, `accepts`,
  well-formedness) and its operations: `union`, `intersection`
  (`product.rs`), `concat`, `star`, `complement`, `optional`, `plus`,
  `minimize`, the `char` constructors (`chars.rs`) and `to_utf8_dfa`
  (`utf8.rs`, with the decoder model in `decode.rs` and `decoded.rs`).
- `src/symbol.rs`: the alphabets `char` and `u8` and their range tables;
  `src/char_table.rs`, `src/byte_table.rs` and `src/char_set.rs` hold the
  `range_set_blaze` maps and sets behind trusted wrappers, `src/key_index.rs`
  the `indexmap` map that numbers the states of constructed automata.
- `src/display.rs`: the Graphviz text of an automaton.
- `src/laws.rs`: laws that relate the operations.
- `app/lib.rs`: `display_dfa`, which writes the Graphviz text to a file,
  renders it with `dot` and opens it.
- `tests/`: worked examples, and tests of each operation and law.
