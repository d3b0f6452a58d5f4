# autosar_data

A library that reads, merges, changes, cross-references and writes Autosar data (arxml files), with
contracts that are proved by Verus.

* `src/` is the library. Every function has a contract; the statements that relate several operations are
  the proof functions whose names start with `law_`. The documentation of `src/lib.rs` names the modules.
* `app/` is ordinary Rust around the library: a model that threads can share, reading and writing files,
  and error types with the usual traits.
* `tests/` holds tests on concrete values.

The tables of the Autosar standard are not part of the library. A `Specification` holds them, and a model
is created with one.

What is not proved but trusted: the contracts of `memchr::memchr`, of the `smallvec::SmallVec` methods
behind the content and attribute lists, and of the few functions of the standard library that are wrapped
in `text.rs`, `parser.rs` and `serialize.rs`. Their doc comments say what is claimed.
