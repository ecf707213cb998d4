# ptt-core detailed metadata

Detailed metadata extraction for torrent titles, written in Verus: after the
main parser has filled a result, this pass replaces its `languages` field by
regional `audio_languages` and `subtitle_languages`, keeps explicit technical
labels (`DTS-HD MA`, `HE-AACv2`, full channel layouts, Dolby Vision profiles),
drops a release group that is only an annotated subtitle language, and sets the
edition flags.

## Layout

- `src/matching.rs` — PCRE2 searches over UTF-8 bytes; what a search finds is
  named by uninterpreted functions of the pattern and the subject.
- `src/text.rs` — character helpers and string tables.
- `src/language.rs` — regional language codes and language names.
- `src/fields.rs` — the parse result (`Fields`) and the records of earlier
  matches.
- `src/blocks.rs` — the bracketed blocks of a title.
- `src/patterns.rs` — the regular expressions.
- `src/details.rs` — labels, list openings, metadata positions and subtitle
  roles of spans of a title.
- `src/technical.rs` — audio, channel, HDR and Dolby Vision labels.
- `src/languages.rs` — audio and subtitle language detection.
- `src/apply.rs` — the whole pass.
- `src/laws.rs` — properties of the pass and of its parts.
- `app/lib.rs` — reading the language data and converting `serde_json` results.

Every function in `src/` is verified against its `requires`/`ensures`; the
calls into PCRE2 and into `std` string functions are the only trusted items.
