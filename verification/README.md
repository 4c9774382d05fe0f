# sprig_llm_core

The logic of a pocket LLM terminal built on the Hack Club Sprig (RP2040):
a two-tap keyboard with word prediction, the OpenRouter / Anthropic request
and streamed-response handling, the screen layout, button debouncing, the
flash record of settings and history, USB HID typing, the UI sounds, and the
host tool that builds the prediction dictionary — each with its contract
proved by Verus.

## Layout

- `src/` — the verified library.
  - `button`, `layout`, `keyboard`, `predict` — the keyboard state machine.
  - `json`, `sse`, `provider`, `stream` — request bodies, the event-stream
    framer and classifier, and the text-delta decoder.
  - `display` — where every glyph, row, menu item and cursor goes.
  - `input` — debouncing, taps and holds.
  - `storage` — the CRC-checked flash sector image.
  - `hid` — the US-layout key map.
  - `tone` — the samples of the click and chime.
  - `dict` — corpus parsing, ranking, bigrams, arguments and the data file.
  - `text`, `scan` — the bounded string and the character-level helpers.
- `tests/` — the tests, run against the compiled library.
- `app/` — ordinary Rust around the library: the `dict-builder` program
  (file I/O and exit codes) and, under `app/firmware/`, the hardware side of
  the device (flash, pins, PIO audio, USB, WiFi and TLS, drawing).
