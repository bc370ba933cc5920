# chrome_ocr

Reads the text of an image with the Chrome Screen AI models, or with the native
Screen AI library.

`src/` is a verified library. It holds what is decided on the way from an image to
its lines of text, and the whole numbers that go into it:

- `detector`: the detector's input, the choice of its outputs, and its boxes;
- `expansion`, `clusters`, `groups`, `grouping`, `rules`, `lines`: boxes grow into
  clusters, clusters become groups, groups become lines;
- `sorter`: lines in reading order;
- `region`, `multiline`, `gray`: the regions of the image that lines are read from;
- `recognizer`, `frames`, `decode`, `beam`: how a line is read in chunks, and how
  the scores of its frames become text;
- `position`, `overlap`, `repair`, `text`: what is repeated or is no text goes;
- `session`: the lines that were recognized so far;
- `wire`, `annotation`, `capture`: the native library's answer, and its captured
  inputs;
- `vocab`, `version`: vocabularies and the versions of model directories;
- `ordering`, `disjoint`, `suppress`, `measure`, `judge`, `bbox`, `chars`, `decimal`,
  `features`: what the others are built on.

Lengths, ratios, angles and scores are floating point numbers. The library does not
compute with them: the caller measures, and hands the library integers that order as
the measured numbers do (`measure`). What the library decides on them is verified for
every way of measuring. What a measure is held against is a constant of the library,
or, where it is itself a product of measured lengths, comes from the caller.

`app/` is the program around the library: arguments, files, the TensorFlow Lite
models, the native library, and all that is computed in floating point.

`CHROME_OCR_DEBUG`, `CHROME_OCR_DEBUG_REC`, `CHROME_OCR_DUMP`,
`CHROME_OCR_DUMP_LOGITS` and `CHROME_OCR_SAVE_CANVAS` make the program print or save
what happens on the way; `CHROME_OCR_INVERT` and `CHROME_OCR_NO_XNNPACK` change how
the models are run.

`tests/` runs the library on concrete values.
