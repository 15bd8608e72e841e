# relocdiff

Find the same function across different builds of an x86-64 PE32+ binary.
Address-dependent instructions are normalized before functions are
compared, so a function that only moved, or whose calls and data moved,
still matches itself.

## Layout

- `src/` is the library, written in Verus and verified:
  - `pe.rs`: header and section parsing, RVA/VA/file-offset conversion,
    recovery of function ranges (exception table, else entry point and
    direct-call targets), lookups by address;
  - `disasm.rs`, `x86.rs`: decoding with iced-x86, operand normalization,
    basic blocks;
  - `matcher.rs`, `align.rs`: fingerprints, longest common subsequences,
    positional matches, candidate filters, alignment;
  - `diff.rs`: instruction-level and structural diffs;
  - `mapping.rs`: exact candidates, anchors and call relationships of a
    whole-binary map;
  - `index.rs`: the function index and its stored frame;
  - `input.rs`: selection of a function from an image or an index, and
    reading of command-line numbers;
  - `bytes.rs`, `text.rs`, `sorted.rs`, `error.rs`: little-endian reads,
    text helpers, sorted insertion, errors.
- `app/` is the command-line tool: argument parsing, files, JSON and text
  output, and the floating-point ranking and mapping built on the library.
- `tests/` exercises the library.

## Usage

```sh
relocdiff find OLD NEW --address VA
relocdiff find OLD NEW --rva RVA
relocdiff diff OLD NEW --address VA
relocdiff map OLD NEW
relocdiff inspect FILE --address VA
relocdiff index FILE --output FILE.rdx
```
