# catalog

Tools for maintaining the catalog of an OpenOrthoMap API: for every S2 cell,
a CSV file `api/v1/catalog/{cell token}.csv` lists the tilesets (PMTiles
archives) that cover the cell, from the largest coverage down; the tilesets
themselves are kept as `api/v1/files/{hash}.{ext}`.

- `src/` is the library, with its contracts and proofs:
  - `catalog_file` — a cell's catalog, reading it from its rows, writing it,
    and adding a tileset (replace by hash, or count and sort by coverage);
  - `catalog_format` — what each row of a catalog file means, and the rows a
    catalog is written as;
  - `cells` — cell levels, ancestors and children, the integer steps of a
    covering, and cell tokens;
  - `coverage` — coverage figures and their order;
  - `input_file` — a tileset's display name and content hash;
  - `csv_io`, `paths`, `text` — CSV rows, file paths, decimal text;
  - `laws` — what holds across operations (round trips, hash uniqueness,
    adding twice).
- `app/` is the `updater` program: argument handling, file and archive I/O,
  and the floating-point geometry (outline union, cell coverage areas,
  bounding-box covering).
- `tests/` exercises the library.

Usage: `updater [-r ROOT_DIR] INPUT.pmtiles...`, each archive with an
`INPUT.geojson` outline beside it.
