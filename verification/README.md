# pdf_inspector

Smart PDF text extraction and conversion to Markdown: the logic is a library
verified with Verus, and the programs and devices around it are ordinary Rust.

## Layout

- `src/extractor`: page boxes, paint state, clip boundaries, script runs, and
  the extraction of form XObjects.
- `src/markdown`: removal of page furniture, headings and drop caps, and the
  clean-up of Markdown.
- `src/hybrid_markdown`: sessions that combine native text with submitted OCR.
- `src/vision`: rendered pages, OCR routing, detection steps and the assembly
  of recognized pages.
- `src/cli`: arguments, JSON and reports of the command line tool.
- `src/ieee.rs`, `src/single.rs`, `src/double.rs`: IEEE 754 arithmetic on bit
  patterns, so that contracts can speak of coordinates exactly.
- `tests`: tests of the library.
- `app`: the `pdf2md` tool, with file access, fonts, model inference and
  downloads.

The functions of `src` state their results in their contracts. Of the two that
read the clock nothing is stated, and of what fonts, recognizers and the other
parts behind a trait reply, only how it is used. Laws that relate several
functions are the public proof functions whose names start with `law_`. What is taken from other crates or from the standard library without
proof stands behind `external_body` functions and `assume_specification`
items, each with a comment that says what is claimed.
