# rust_edn

A reader and printer for Extensible Data Notation (EDN), verified with Verus.

`rust_edn(text)` reads the first form of a text and prints it, or gives the reader's
error (`EOF while reading` for a text without a form). `read` and `read_str` give the
value itself, an `Edn`; sets and maps are `EdnSet` and `EdnMap`, which keep their
items in ascending order, each once.

Numbers: integers (decimal, `0x` hex, `0` octal, `NNr` radix, `N` for a big integer),
floats (`1.5`, `6.02e23`), big decimals (`1.5M`) and ratios (`1/2`). A float is held as
the exact decimal its literal writes, without trailing zeros, and printed positionally as
`f64` prints it (`1e3` prints `1000`); values of `10^309` and above are infinite, values
below `10^-324` are zero, and the rounding to the nearest `f64` is not modelled. A big
decimal is held as its unscaled integer and scale and printed by `bigdecimal` with `M`. A
ratio is reduced to lowest terms by `num` and printed as `num` prints it, with `R`
(`2/4` prints `1/2R`).

The reader is specified by spec functions over character sequences (`read_at` and the
functions it calls, in `reader.rs`, `scalar.rs`, `number.rs`, `symbol.rs`, `syntax.rs`),
and every executable function is proved against them. Values have a mathematical model
(`EdnValue`, in `edn.rs`); printing is specified by `edn_text` (`display.rs`).

Laws, proved:

- `laws::law_total_order`: the order of values is a total order.
- `laws::law_set_of`: a set holds each item once, in ascending order.
- `laws::law_map_of`: a map keeps its keys ascending and gives each key its last value.
- `round_trip::law_plain_text_reads_back`: the printed text of a plain value reads back
  as that value.
- `round_trip::law_printing_is_stable`: where a text's first form is a plain value,
  printing its printed text gives the same text.
- `laws::lemma_set_insert_ascending`, `laws::lemma_map_insert_ascending`: inserting into
  a set or map keeps its order.
- `scalar::lemma_code_never_panics`: a character code of up to five digits never
  overflows.

Layout:

- `src/`: the verified library.
- `tests/`: tests of the library, run against the compiled crate.
- `app/`: the command-line program (reading files, the interactive loop, and running the
  Clojure reader for comparison).
