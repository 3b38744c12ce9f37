# Persona script editor library

Verified reading and rebuilding of the dialogue scripts of the PS1 game
*Megami Ibunroku Persona*, as a raw (MODE2/2352) disc image stores them.

- `src/e0.rs`: script containers: a `u16` pointer table in 0x800-byte units
  followed by aligned sub-files. Building a container and parsing it back gives
  every sub-file back, zero-padded to its slot, and rebuilding is stable.
- `src/script.rs`: event script sub-files: finding dialogue strings through
  their `FF 55 00 00 lo hi 10 80` pointer entries, and rebuilding a sub-file
  with new strings, after which every pointer refers to its new string;
  rebuilding with a script's own contiguous strings gives the sub-file back.
  A `table_ptr` of `0xFFFF` means the sub-file has no strings.
- `src/encoding.rs`: the text encoding (single-byte kana or Cyrillic,
  two-byte TBL codes, `FF xx` control codes), TBL files, and the editor's
  display text with tags such as `[nl]` and `[end]` (end of dialogue, `FF 02`;
  the terminator `FF 01` is not shown) and raw codes such as `|80A5`.
- `src/round_trip.rs`: showing a string that ends with its terminator
  `FF 01` (and holds no other) and encoding the shown text again gives back
  the string's bytes, when every code in it is one the table shows faithfully
  (no null bytes, wait codes ending in 0, characters that encode back to their
  codes); the tag shown for a control code encodes back to that code.
- `src/iso.rs`: raw sector arithmetic and the game's FSECT file table.
- `src/editor.rs`: which translations are kept, how a container is repacked
  with them, what is listed and exported for each scene, and whether a
  rebuilt container is written in place.
- `app/`: the Tauri desktop program: file I/O, commands and JSON export/import.
