# jsi built-ins

Verified built-in objects and global functions of a small JavaScript interpreter:
`parseInt`, `parseFloat`, `isNaN`, `isFinite`, the URI functions, `RegExp`, `JSON` and
`Date.now`, together with the global object that holds them.

- `src/` is the library, written in Verus. Values live in a heap of objects (`value.rs`);
  numbers are the bits of IEEE-754 doubles, and `numbits.rs` states what they mean.
  `global.rs` builds the global object and binds the built-ins; `uri.rs`, `numparse.rs`,
  `regexp.rs`, `json.rs` and `date.rs` hold the built-ins themselves.
- `app/` holds the parts that need floating-point arithmetic: folding the digits that
  `parseInt` and `parseFloat` read into doubles, and writing JSON text.
- `tests/` runs the library on concrete values.
