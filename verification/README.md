# gpui_ohos

The OpenHarmony platform layer of a GPU-drawn UI toolkit, with its logic
verified by Verus.

- `src/` is the verified library: the platform's registry of surfaces and
  windows and what every host event, frame and input does to it
  (`platform`, `ohos`), the host protocol's payloads and answers (`host`),
  keyboard and pointer mapping (`keyboard`), the input method's queue and
  context window (`inputmethod`), picked documents (`picked_fs`), the glyph
  atlas over `etagere` (`atlas`), timers (`dispatcher`), the renderer's
  choices from what the driver reports (`gpu`), the walk of a scene in
  painter's order into clipped draw batches (`draw`),
  per-window frame state (`window`), menu translations
  (`translations`) and the text helpers they share (`text`).
- `app/` is the embedding: the C entry points the ArkTS host calls, the
  host's function pointers, file descriptors, the pasteboard and input method
  through their NDK libraries, the picked documents' bytes and listings, the
  timer thread, floating-point geometry and the TLS configuration. It performs what the library decides.
- `tests/` exercise the library on concrete values.
