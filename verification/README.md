# book_parser

A book processing pipeline: a book is split into numbered markdown sections (from a
`.txt`, `.fb2` or `.epub` file, or page by page from a URL range), the sections are
translated and annotated stage by stage, and the latest stage is assembled into one EPUB
or markdown file.

## Layout

- `src/` is the library, verified with Verus:
  - `text.rs`: character sequences, `str::lines`, trimming, number parsing and rendering.
  - `pages.rs`: section selections (`PageRange`) and the `--range` syntax.
  - `section.rs`: stages, the markdown of a section, escaping, `.fail` records, numbered
    file names, and what a section file gives back (title, plain text).
  - `xml.rs`: the XML event stream of a document and how its text is gathered.
  - `parse.rs`: `.txt` chapters, FB2 sections, EPUB chapters.
  - `epub.rs`: the package structure of an EPUB (container, manifest, spine, paths).
  - `load.rs`: load URLs, book names, which pages to fetch, throttling, the page queue,
    and the content of a fetched page.
  - `translate.rs`: chunking text for translation, the chunk-by-chunk translation of a
    section, and the checks on what comes back.
  - `ollama.rs`: the model list of the local Ollama server and the steps that make sure it
    runs and has the translation model.
  - `compile.rs`: XHTML pages, the EPUB package and navigation documents, the markdown book.
  - `annotate.rs`, `tts.rs`: the annotation command, speech models and progress lines.
- `tests/`: tests of the library.
- `app/`: the command line program: argument handling, files, HTTP, processes.
