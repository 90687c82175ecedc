# Audiobook Studio

Turns a book in PDF form into a chaptered audiobook, on the machine it runs on:
a local language model finds the chapters, a local voice narrates them, and
`ffmpeg` binds the result into one `.m4b` file.

The rules of the pipeline are a library that Verus verifies. What each function
returns is stated in its contract, over sequences of characters and plain
records, and what holds of several functions together is stated as a public
proof function beside them.

## Layout

- `src/` is the verified library.
  - `chars`, `text`: characters and texts.
  - `patterns`: the regular expressions, and what is known of their matches.
  - `cleaning`, `running_heads`: from raw pages to a transcript.
  - `headings`, `outline`: where a document itself says that chapters begin.
  - `agent`, `boundaries`, `pipeline`: what the language model is asked, and what
    becomes of its answer.
  - `split`: chapters as page ranges and as files.
  - `polish`: the model's repairs to a transcript, and which of them are taken.
  - `sentences`, `g2p`, `sidecar`: phonemes, and the process that makes them.
  - `speech`: the voice, and a chapter's audio.
  - `bundle`: the chapter marks and the final file.
  - `job`: the order of the steps of a narration.
  - `ocr`: pages without text.
  - `studio`, `cli`, `webview`, `environment`: what the front ends show and do.
  - `model`, `error`: the values that all of them share.
- `app/` is the program around it: files, processes, the network, the screen.
- `tests/` runs the library with the crates that it calls.

## What is trusted

The library calls `regex`, `unicode-normalization`, `base64`, `image` and a few functions
of the standard library. Each call stands in one small function, or has one
declaration, whose contract is taken as given; the comment above it says what it
claims.
