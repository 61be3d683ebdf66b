# rusty_dds

A DirectDraw Surface (`.dds`) texture toolkit in verified Rust: the container,
decode and encode of BC1 to BC7 and uncompressed content, mip chains, a
rate-distortion pass, and plans for handing textures to a GPU.

- `src/` is the library. Every function carries a contract, and Verus proves
  it. What relates several functions stands in public proof functions whose
  names start with `law_`.
- `src/decode/bcdec.rs` holds the calls into `bcdec_rs`, the general block
  decoder. What BC1 to BC5 decode to is stated there, and of BC6H and BC7 the
  modes that the library writes or decodes itself; what other blocks of the two
  decode to is named.
- `tests/` runs the library, with `bcdec_rs` linked.
- `app/` is the command line, `rusty-dds info|decode|encode|retag`.

Single-precision arithmetic is done on bit patterns in `src/binary32.rs`, each
operation proved to round to nearest, so a payload depends on the pixels and the
layout alone: no CPU feature, no thread count and no environment changes it.
