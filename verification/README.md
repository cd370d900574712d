# journal

A command-line journal: timestamped, taggable entries appended to a plain
text file, searched by tag or keyword.

- `src/` is the library, verified with Verus: the entry format
  (`entry`), the calendar arithmetic behind elapsed-time annotations
  (`calendar`, `elapsed`), search and highlighting (`search`), the
  command-line rules (`cli`), configuration defaults and checks
  (`config`), the editor command (`editor`), the interactive dialogue
  (`interactive`), the choice of journal file (`storage`), the tag
  listing of `--all-tags` (`tags`), what `-N` and a search print,
  with or without `--no-headers` (`output`), and the character-level
  text model they share (`text`).
- `app/` is the program around it: argument parsing with `clap`, reading
  `config.toml` with `serde`/`toml`, XDG paths, the file lock, launching
  the editor (also on the configuration file, for `--config`), the
  interactive prompts (`-i`), and printing.
- `tests/` runs the library on concrete inputs.

Laws proved in `src/` include: a journal written entry by entry reads back
entry by entry (`entry::lemma_journal_reads_back`), a single entry survives
rendering and parsing (`entry::lemma_render_parse_round_trip`), an entry
read from the file keeps its header text byte for byte when written back
(`entry::lemma_reparse_keeps_header`), parsing a new entry's rendering
as written gives the entry back (`entry::lemma_parse_of_render`), every
entry ends with exactly one blank line, `-t` tags are recovered after the
text's own tags and normalizing a tags line twice changes nothing, the
elapsed-time breakdown is unique and one calendar year and one day shows as
such, a highlight without matches leaves the text unchanged,
`--all` finds nothing that a search for any term misses, the tag
listing of a journal is determined by its tags
(`tags::lemma_tag_counts_determined`), and without headers entries
print as their bodies alone (`output::lemma_no_headers_prints_bodies`).
