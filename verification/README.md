# pdf_splitter

Splits PDF documents by size or by page count, and extracts the images that they
embed. The program is a window without arguments and a command line tool with
them.

The library under `src/` is written in Verus. Its contracts say exactly what each
function returns or changes, and Verus proves them.

## The library

- `pdf`: documents as the `lopdf` crate holds them, and what the library takes as
  given of that crate. `page_tree` tests every condition under which `lopdf` would
  loop, panic or overflow, before it is called.
- `extract`: pages of a document as a document of their own.
- `chunks`, `size_split`, `size_laws`: splitting by size. Sizes are measured as the
  document shrinks from the front; a chunk is estimated from them, written, and
  shortened by halving where it is too large.
- `page_split`, `page_laws`: splitting by page count, on one document that becomes
  smaller with each chunk.
- `images`, `tiff`, `codecs`, `image_scan`, `image_laws`: the images of a document,
  each of them once.
- `text`, `text_stats`, `size_text`: how much text a document holds, and what is told
  of chunks.
- `files`, `collect`: which files are taken, and how files are named.
- `control`, `tasks`, `gui`, `cli`, `locale`: pausing and stopping, the queue of files,
  the state behind the window, the command line, and the language.

A split or an extraction that can be stopped is taken step by step: whoever runs it
says at each step whether it is to stop, and writes what the step gives.

What holds of several functions at once stands in public proof functions whose
names begin with `law_`: that the chunks hold every page once and in order, that a
chunk of several pages does not exceed the limit, that stopping keeps what is done,
that files get different names, and more.

## The program

`app/` holds what reads and writes: files, threads, the window, and the messages in
Chinese and English.
