# nanvm_lib

The core of NaNVM, a VM for FunctionalScript: a tokenizer for JSON and DJS modules, the
arbitrary-precision numbers it reads numbers into, and the helpers around them. Its public
functions carry contracts that Verus proves.

Layout:

- `src/digits.rs`: the value of a little-endian sequence of 64-bit digits, and its lemmas.
- `src/big_uint.rs`, `src/big_int.rs`: arbitrary-precision natural numbers and integers, with
  their views as `nat` and `int`.
- `src/big_float.rs`: decimal and binary floating numbers over `BigInt`, the conversion of a
  decimal number to binary, and the bits of the nearest `f64`.
- `src/range_map.rs`: maps from ranges of keys to values, found by binary search and merged
  in one pass.
- `src/tokenizer/`: the character classes, the transition maps built from range maps, the
  tokenizer's states and its step, and the run over a whole input.
- `src/parser/`: data types of modules, parse errors, the normalization of module paths, the
  statements at the root of a module (`const`, `import`, `export default`, `module.exports =`),
  and the cache of imported modules that binds imported names and detects circular imports.
- `src/serializer.rs`: the JSON string literal of a UTF-16 string.
- `src/mem/`: field layouts, flexible arrays and reference counters.
- `tests/`: the tests, run against the compiled library.
- `app/main.rs`: a command line program, `nanvm INPUT_FILE OUTPUT_FILE`, that reads a module
  and the modules it imports, and writes for each its data type, the names it binds and the
  tokens of its value. It does not parse values, so it does not produce a converted module.
