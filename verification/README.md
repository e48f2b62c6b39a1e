# WaveCore

The core of a small browser engine, written in Verus: every function under
`src/` carries a contract and is proved to meet it.

## Layout

- `src/` — the verified library:
  - `text`, `strmap`: string helpers and a string-keyed map with distinct keys;
    grapheme clusters through `unicode-segmentation`.
  - `dom`, `html`, `entities`: the document tree, the HTML parser (with the
    document mode from the doctype) and character references.
  - `css`, `style`: style sheets and the cascade (specificity, order, inline styles).
  - `urls`, `net`: URL parsing and joining through `url`; navigation history,
    relative resolution, resource typing and `data:` URLs with a size limit.
  - `sandbox`, `isolation`: origins, Content Security Policy, permissions,
    renderer sandboxing, site isolation and iframe sandbox flags.
  - `storage`: cookies, cookie jars, Web Storage and its saved form, an HTTP cache.
  - `pixels`, `media`: colours, blending, PPM output; PCM WAV files, the
    playback state of media elements and the video test pattern.
  - `js`: the script lexer, parser and bytecode compiler, and typed arrays.
- `tests/` — tests of the library on concrete inputs.
- `app/` — the `wavecore` command: network and file access, persistent
  storage, and what computes in floating point (the script virtual machine,
  audio samples, the media clock).

Each public law of the library is a proof function whose name begins with `law_`.
