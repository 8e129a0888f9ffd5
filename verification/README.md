# constructor_assets

Readers for the asset formats of Constructor (Acclaim, 1997), each with a
machine-checked contract.

- `src/parser/fil.rs` — the `.FIL` archive index: undoing the obfuscation of
  the entries, listing the entries with their sizes, and planning the
  extraction of the stored files.
- `src/parser/lev.rs` — the `CMAP` palette chunk of a level file.
- `src/parser/spr.rs` — run-length encoded `.SPR` sprite files, and grouping
  sprites by their header numbers.
- `src/parser/codec.rs` — little- and big-endian integers (through
  `byteorder`) and UTF-8 text.
- `src/extractor/spr/sheet.rs` — laying animation frames out in a sprite
  sheet (pixels copied with `image`).
- `src/extractor/spr/indexes/men.rs` — which frames make up the worker
  animations.
- `app/` — the command line tool: reads and writes files, saves PNGs.

All readers work on file contents already in memory. The command line tool is
`app/main.rs`:

    fil inspect -f CONST/DATA/DATA.FIL
    fil extract -f CONST/DATA/DATA.FIL --output-dir output
    spr inspect -f MEN.SPR -p LEVEL.DAT
    spr extract -f MEN.SPR -p LEVEL.DAT --output-dir output
