# vellum

The rules behind a screenshot tool: selecting and annotating a region, recording long shots,
recognising and translating text, pinning pictures, and the settings panel and tray menu around
them.

- `src/` is the verified library. Every function says in its contract what it returns or changes;
  the laws that hold across functions are public proof functions next to them.
- `tests/` runs the library on concrete values.
- `app/` is the program: windows, sockets, child processes and the compositor.

Lengths and places are whole thousandths of a pixel and times are nanoseconds, so that the library
computes with integers throughout. Where a result has to agree with double-precision arithmetic,
`src/binary64.rs` says how that rounds. Confidences and what is computed from them follow single
precision: `src/single.rs` holds that arithmetic, and `src/big.rs` the integers with which a decimal
number is read.
