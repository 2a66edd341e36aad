# juniward

J-UNIWARD + STC steganography for JPEG images.

- `src/` is the verified library (Verus): the syndrome coder (`stc`), the view
  of the DCT coefficients that embedding reads and writes (`jpeg`), the
  embedding and extraction on coefficients (`lib.rs`), the reflect-padding index
  of the wavelet filter (`uniward`) and the decimal text of error messages
  (`text`). Contracts state each function's result exactly; proof functions
  state the laws (extraction recovers what embedding hid, DC and 0/+-1
  coefficients are never changed, bit packing round-trips, trellis states stay
  in range).
- `app/` is the program around it: JPEG decoding and encoding through
  `mozjpeg-sys` (foreign, `unsafe`), the floating-point J-UNIWARD cost function,
  the byte-level `embed`/`extract`/`compute_costs` API and the command-line demo.
- `tests/` runs the library on concrete values.
