# openjpeg_rs

The building blocks of a JPEG 2000 codec (Part 1 codestreams and JP2 files), written in
Verus: the executable code carries `requires`/`ensures` contracts that Verus proves. It
parses and writes the codestream and JP2 headers and tile-parts, and holds the entropy
coders, the code-block coder, packet iteration and the reversible transforms; it does not
yet assemble them into a tile coder, so decoding yields the image's header description
without its samples, and there is no image encoder. The tier-1 decoder's passes and
code-block decoding are specified exactly, over a model of the MQ decoder; the encoder's
significance and refinement passes state their flags, distortion and coded symbols.

Layout of `src/`:

- `io/` — byte streams (`cio`) and the bit I/O of packet headers (`bio`, with 0xFF stuffing).
- `coding/` — entropy coding: the MQ arithmetic coder (`mqc`), tier-1 context
  modelling, the coding passes and code-block coding (`t1*`), tag trees (`tgt`),
  the sparse array and the parts of high-throughput block decoding (`ht_dec`).
- `tier2/` — packet iteration in the five progression orders (`pi`) and the
  packet-header codes (`t2`).
- `transform/` — the reversible 5-3 wavelet (one-dimensional and vertical
  multi-column passes) and the component transforms.
- `j2k/` — marker codes, marker-segment parsing and writing, the codestream
  decoder and encoder; `jp2/` — the JP2 box layer.
- `api.rs` — format detection and decoding entry points; `image_io.rs` — output
  format choice and PNM/PGX serialisation.

`app/` holds the command-line front ends (`opj_decompress`, `opj_dump`), which do the
file I/O and argument parsing around the library. `tests/` holds the test suite.
