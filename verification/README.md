# whwjm-ocr

Batch reading of Douyin statistics screenshots: the numbered images of a directory are
recognized, the text found on each page is joined into labels and values, live pages
and video pages are told apart, and their fields are written to `直播.csv` and
`视频.csv`. Recognized text is cached beside the images in `.ocr-cache`.

## Layout

- `src/` — the library, verified with Verus. Every public function states what it
  returns in its contract; the proof functions named `lemma_*` with doc comments state
  laws of the library, such as that a cache file reads back as the blocks it was written
  from and is never read for another model tier or a changed image.
  - `text`, `numbers`, `escape`: characters, decimal numbers, cache field escaping.
  - `duration`, `datetime`, `metric`: reading durations, start times and counts.
  - `block`, `extract`: finding the value of a label on a page, and the rows of a page.
  - `merge`, `ocr`, `sort`: joining recognized regions and putting them in reading order.
  - `cache`, `csv`, `files`, `tier`: the cache format, CSV output, image selection, models.
  - `export`, `control`: export options, progress, pause and stop decisions, downloads.
- `app/` — the parts that touch the file system, the network and the recognizer
  (`ocr-rs`, `image`, `ureq`), and the floating point arithmetic the export uses.
- `tests/` — tests of the library on concrete pages, files and values.
