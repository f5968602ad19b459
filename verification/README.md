# lol_live

A real-time creep-score (CS) tracker for League of Legends. The library in
`src/` is verified with Verus; `app/` is the program around it.

- `src/detect.rs`: the screen region of the CS counter, computed as the double-precision
  arithmetic does, and which values are plausible.
- `src/binary64.rs`: round-to-nearest-even double-precision rounding of positive rationals, in integers.
- `src/raster.rs`: grayscale and RGBA images as rows of pixels: cropping,
  thresholding, the box around dark pixels, outlines, and the calls into the
  `image` crate (grayscale conversion, Lanczos3 resizing, PNG encoding).
- `src/ocr.rs`: preparing the counter's crop for the recognizer, reading its
  text, and the order in which thresholds are tried.
- `src/text.rs`: Unicode whitespace trimming and decimal integer parsing.
- `src/config.rs`: reading `game.cfg`.
- `src/api.rs`: picking the active player's CS from the live client data.
- `src/capture.rs`: cutting the counter out of a screenshot, outlining it, choosing the monitor.
- `src/tracker.rs`: the per-step decisions of the capture and display loops, and
  what holds along a whole run of the capture loop.
- `app/`: the HTTP polling, screen capture, Tesseract, files, threads and printing.
