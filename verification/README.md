# dedupe

Finds duplicate files: exact ones, byte for byte, and images and videos that
show the same in another format or encoding.

`src/` is a library verified with [Verus](https://github.com/verus-lang/verus).
It holds every decision: which files are considered, which of them are
duplicates, which one of a group stays, what the report says, and what may be
deleted. `app/` is the command line tool around it: it reads options, walks
directories, reads files, runs `ffprobe` and `ffmpeg`, and removes files when
the library says so.

## The library

| Module | What it holds |
| --- | --- |
| `run` | the options as a plan, and how the stages fit together |
| `scan` | which files are taken in, from what a walk brings up |
| `hashing` | content hashes, and the stages that find exact duplicates |
| `matching` | which file of a group of exact duplicates is kept |
| `fingerprint`, `similar`, `video` | perceptual fingerprints of images and videos |
| `cluster` | star clustering: items join the first leader they are like |
| `search` | fingerprinting with a cache, and the groups of similar media |
| `similar_report` | which file of a group of similar media is kept |
| `cache` | the fingerprint cache and its file |
| `rerun` | what a later run finds that has a cache |
| `keeping` | why the file that is kept stays |
| `report`, `paint` | the report for people |
| `actions` | deletion, step by step |
| `media`, `util` | media kinds and metadata, sizes and durations as text |
| `binary64`, `decimal`, `numeral` | double-precision arithmetic over integers |
| `path`, `path_table`, `index`, `bucket`, `order`, `text` | paths, tables, grouping, sorting and text |

Similarities, sizes and durations are computed in double precision. The library
states that arithmetic over the integers, so that results are exact and the same
on every machine.

What other crates compute (hashes, decoding and reducing pictures, the encoding
of the cache file) stands behind small functions whose contracts are taken on
trust; each says what it claims.

## Laws

Beside the contracts of the functions the library proves laws that relate them,
as public proof functions. Among them:

- Files with the same content are in one group of exact duplicates, and the files
  of a group agree in size and hash (`hashing`).
- Every group keeps exactly one file, and it is the one that was asked for
  (`matching`, `similar_report`).
- No file is in two groups of exact duplicates (`hashing`) or in two groups of
  similar media (`search`), and none is in one of each (`run`).
- Every file of a group of similar media is at least as similar to the first as
  was asked, so that unrelated files never chain together (`search`).
- A group of similar media is as similar as its two least similar files, and each
  file is listed with its similarity to the one that is kept (`similar_report`).
- A later run over unchanged files, whose cache holds what a run wrote to it,
  compares the same files by the same fingerprints and has nothing to add,
  whatever the cache held before. Fingerprints are taken to have the shape that
  the header of an image, or the probe of a video, gives (`rerun`).
- What was stored is served only while a file's size and modification time are
  unchanged, and what was saved as text is served again for the same path
  (`cache`).
- However a content is split into reads its hash is the same, and where a read
  fails there is none (`hashing`).
- A scan lists a file once, however its path is spelled (`scan`). A file that is
  kept is never removed, not under another spelling of its path either
  (`keeping`), nor is one that changed since the scan, and no duplicate is passed
  over (`actions`).
