# quartet-splitter

Splits a string quartet score PDF into four individual part PDFs (violin1,
violin2, viola, cello). The library is written in Verus: what it does is
stated in contracts and proved.

## How it works

- Each page is rasterized, and the darkness of its pixels is collapsed
  horizontally into one number per row (`signal`).
- A Fourier transform of these numbers finds the distance between staff lines;
  a comb filter locates each staff (`staves`), and false staves are dropped
  (`pruning`).
- Staves are grouped into systems of four. The borders between the
  instruments lie in whitespace (`whitespace`), and ink that reaches out of a
  band is followed (`protrusions`, `detect`).
- Source pages become Form XObjects with all that they refer to (`copying`,
  `cycles`, `decoding`, `pages`), so the vector quality is kept. The strips of
  each instrument are cropped, with a CropBox together with these forms, and
  laid out on pages of its own (`layout`, `text`, `parts`).
- A page without staves goes to every part unchanged.

Single-precision arithmetic is done by the library itself, bit for bit
(`single`, `rounding`, `bounds`, `monotone`), so the contracts speak of exact
numbers. What padding does to the result, and how bands lie on a page, is
proved in `clearance`, `placing`, `upright` and `steadiness`.

## Layout

- `src/` is the verified library. What it takes from `lopdf` and `realfft` on
  trust is declared in `pdf.rs`, `signal.rs` and `text.rs`.
- `app/` is the program: command line, rendering through pdfium, files. The
  pdfium library is looked for in the working directory, then on the system.
- `tests/` runs the library, next to plain machine arithmetic.

```
quartet-splitter score.pdf --output-dir output/
```
