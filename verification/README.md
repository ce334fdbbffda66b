# jrl

A terminal journal. Each day has a file of entries; an entry is an info line with the
time (`i: HH:MM`), a question (`l:` long or `s:` short) and its answer lines (`a:`).

- `src/` is the verified library: reading the kind and text of a journal line, splitting
  a day's file into entries, choosing a question that was not asked yet, the text that
  records questions and answers, the digest of a day's file, the terminal layout of text,
  and the names of the day files.
- `tests/` exercises the library on concrete inputs.
- `app/` is the program: command line, files, terminal drawing and key handling.
