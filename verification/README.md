# Mangix

A lightweight comic and manga reader. It opens folders of images, .cbz/.zip
archives natively, .cbr/.rar/.cb7/.7z through 7-Zip or unrar, and PDFs through
pdfium.

The reader's rules live in a library verified with Verus; the window, the
threads and everything that touches the disk or other programs live in the
application around it.

## Layout

- `src/` — the verified library
  - `natural.rs` — natural ordering of names (page9 before page10), with its
    laws: reflexive, antisymmetric, transitive
  - `names.rs` — image and archive names, junk inside archives, display names
  - `book.rs` — pages in order, and building a book from what was found on disk
  - `tools.rs` — which 7-Zip and unrar to try, their arguments, and how a
    failure is reported
  - `pdf.rs` — answers from the pdfium thread and the documents it keeps open
  - `progress.rs` — the bookmark file: one line per comic, newest first
  - `settings.rs` — the settings file and where per-user data goes
  - `worker.rs` — the page worker's decisions and its page cache
  - `spread.rs` — two facing pages joined on one canvas
  - `reading.rs` — moving through a book, resuming, the strip window
  - `keys.rs` — what each key does
  - `text.rs` — character-level building blocks
- `tests/` — tests of the library
- `app/` — the Slint application: window, worker threads, file and process I/O

Reading progress is saved per comic in `progress.tsv` under the data directory
(`%APPDATA%\mangix` on Windows, `~/.local/share/mangix` on Linux).
