# malstrom_lib

Reads Ableton Live Sets (`.als`: gzip-compressed XML), suggests the scales
that fit the notes of every MIDI clip, writes a chosen scale into the clips'
`ScaleInformation`, and sorts tracks into coarse categories. The library in
`src/` is verified with Verus; `app/` holds the file, database and JSON
plumbing around it.

## src/

| module | what it holds |
| --- | --- |
| `xml` | the parsed document as a node list (`XmlDoc`), its tree invariant, and node selection |
| `text` | string helpers: equality, decimal numbers, substrings, lexicographic order |
| `scale_constants`, `scale_names` | Live's note and scale tables |
| `scale_info_schema` | the shapes of `ScaleInformation` across Live versions |
| `scale_candidates` | per-clip pitch classes, matching (root, scale) pairs, project tallies |
| `scale_ranking` | grouping pairs with the same notes and ranking the groups |
| `scale_apply` | deciding each clip's edit and splicing the edits into the text |
| `categorize` | track listing, Live Database file names, track categories |
| `output_path` | where an edited project is written |
| `paths` | `std::path` on text |
| `inspector` | `AlsInspector`, gzip decoding and encoding |
| `overlay` | the app's keyed storage beside a project |

Outside results that are not restated (the XML parser's node list, Unicode
lower-casing, path components, gzip) are named by uninterpreted spec
functions, and the contracts are stated over those names.

## app/

Opening and writing files, backups, folder listing, Live Database lookups
(SQLite), the overlay file (JSON), coverage percentages (floating point),
and serializable copies of the library's types.
