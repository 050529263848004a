# duplicate-finder

Finds files with the same content below a directory, and deletes them or moves
them away as the user says.

Files of one size are compared by a quick hash (SHA-256 of the first 128 KiB),
and files of one size and quick hash by the SHA-256 of all their bytes. The
hashes are kept in `.duplicate-cache` beside the program, so that a file that has
not changed is not read again. A file whose size or time of change is another
than when it was hashed is hashed anew.

`src/` is the library, verified with Verus. It decides; it does no input or
output.

| module | what it does |
|---|---|
| `text`, `split`, `order` | white space, decimal numbers, splitting, sorting |
| `settings` | the memory limit, the number of threads, the directory |
| `files` | files as the search sees them, the order of paths |
| `hash` | SHA-256 of a file, chunk by chunk |
| `cache`, `cache_laws` | the cache and its file |
| `grouping` | groups of equal keys |
| `duplicates`, `duplicates_laws` | what is compared with what, and what is reported |
| `search` | the course of a search |
| `run_laws` | the cache over a run and from one run to the next |
| `actions`, `session` | the user's answers and what they mean for each file |
| `destination` | names for files that are moved |
| `moving_laws` | what carrying out plans does to the files |

The files `*_laws.rs` hold what is proved of several functions together. What is
trusted without proof stands in `hash` (the crate `sha2`) and in `text`
(`std::str::from_utf8`).

`app/` is the program around the library: it walks the directory, reads the
files, asks the user, deletes and moves.
