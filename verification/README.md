# opentako

The verified core of OpenTako, a local text-to-speech engine that serves a
WebSocket API and sits in the system tray.

- `src/` is the library, checked by Verus:
  - `text`: normalisation of typographic punctuation and cutting text into
    sentence chunks;
  - `phonics`: phoneme-id guesses for unknown words by phonics rules;
  - `lexicon`: the pronunciation lexicon loaded from JSON, searched by
    binary search over byte-ordered keys;
  - `encoder`: the phoneme-id input of the speech model for a sentence;
  - `protocol`: the events sent to WebSocket clients and the plan for a
    synthesis request;
  - `tray`: tray icon pixels and what clicks and menu choices do;
  - `bytes`, `chars`: byte order and character helpers.
- `app/` is the program around it: the ONNX Runtime session, the axum
  server, and the tray event loop.
- `tests/` exercises the library, including agreement with plain std-based
  formulations of the text rules on generated inputs.
