# pdf2

A library for reading the objects of PDF files, with its behaviour stated in
contracts and proved with Verus.

## Layout

- `src/parse`: character classes, numbers, spans and parse errors.
- `src/header.rs`: the file header and its version.
- `src/object/direct`: booleans, null, names, numbers, strings, arrays and
  dictionaries.
- `src/object/indirect`: object identifiers, references, streams and
  indirect objects.
- `src/pdf`: the objects in use of a file, read in rounds so that a stream
  whose length refers to another object is read once that object is; the
  objects in use by key, with the references they resolve; and the joining
  of the spans that were read into the parts of the buffer read and not read.
- `src/process/filter`: the ASCII hexadecimal, ASCII base-85, LZW and Flate
  filters, the TIFF and PNG predictors, and chains of filters; the files
  ending in `_roundtrip` prove that decoding undoes encoding.
- `src/process/encoding`: decoding the bytes of strings and streams as text.
- `app`: the command-line program, which reads files and prints their
  headers.
- `tests`: tests of the library on concrete inputs.

Flate compression is done by the `flate2` crate, through two functions
whose contracts are trusted: they name what zlib writes for some
bytes and what zlib reads from a stream, and state that reading back what
was written gives the bytes.
