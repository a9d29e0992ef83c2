# qrust_code

A QR code generator: it encodes a link in byte mode at the medium
error-correction level, in the smallest version that holds it, and draws the
symbol as an SVG document and as a preview picture, in chosen colours and
optionally over a background picture.

The library under `src/` is verified with Verus:

- `tables`, `layout`: the capacity tables, the choice of version, alignment
  positions, format and version words.
- `bits`, `message`, `gf`, `blocks`: the bit stream, the data codewords, the
  Reed-Solomon codewords over GF(2^8) and their interleaving.
- `symbol`: the module matrix, its function patterns, the placement of the
  codewords and the mask; `ManualQrCode::encode` puts them together.
- `text`: colours in hexadecimal, trimming, Base64, decimal numbers.
- `canvas`, `svg`, `render`: pictures, the SVG document and the preview of a
  request, from the checks of the request to the last pixel.
- `qrcode_render`: the same request drawn by the `qrcode` crate.
- `cache`, `args`, `gui_state`: the cache of background pictures, the options
  of a request and the decisions of the window.

`app/` holds the command line, the window and the file input and output.

`app/gui.rs` is written against `eframe` 0.27, which `Cargo.toml` leaves out
because of the size of its dependency tree; the window therefore does not build
from this manifest. The rest of `app/` builds on the crates it names.
