# maplibre-shaper

Complex-script and right-to-left text for MapLibre GL JS: shaped glyphs are given codepoints from
the supplementary private use areas, handed to MapLibre as ordinary text, and drawn back into the
glyph protocol buffers MapLibre asks for.

`src/` is the library, verified with Verus:

| module       | what it holds |
| ------------ | ------------- |
| `constants`  | the codepoint pool and the fixed numbers of the glyph format |
| `glyph`      | glyph keys, drawings, and their packing into hash keys |
| `allocator`  | handing out pool codepoints, skipping sealed blocks and noncharacters |
| `registry`   | the bookkeeping between shaped glyphs, codepoints and drawings |
| `pbf`        | the protocol buffer writer |
| `glyph_pbf`  | one block of glyphs, byte for byte |
| `bidi`       | the Unicode Bidirectional Algorithm, as `unicode-bidi` runs it |
| `reorder`    | putting shaped, line-broken text into reading order |
| `script`     | scripts, their resolution over a text, and the features a run is shaped with |
| `segment`    | splitting text into runs of one level, one script and one font |
| `fallback`   | the fallback chain of fonts |
| `shaped_run` | whether shaping changed a run at all |
| `encoding`   | the flat arrays handed across to JavaScript |
| `chars`, `text` | characters of a string; shaped pieces and the two capabilities the registry uses |

`app/` is the rest, in ordinary Rust: parsing font files and choosing a variable font's instance,
shaping a run with HarfBuzz (through `rustybuzz`) and placing its glyphs in fractional pixels,
drawing a glyph outline into a signed distance field, and the `wasm-bindgen` face that JavaScript
calls. All of it works in floating point or holds parsed font files; everything it decides on
whole numbers it asks the library.

`tests/` exercises the library with a shaper and a rasterizer that need no font.
