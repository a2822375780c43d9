# rsdupes

Fast duplicate detection and remediation.

Files are found by walking directories, and pass through filters that let through
what shares its size, the digest of its start, and the digest of all of it with
another file. What is left is compared byte by byte. Duplicates are replaced by
links, listed, or counted.

## Layout

* `src/` is the library: what is decided about files and in which order the stages
  work, with contracts that Verus proves. It does no input or output.
  * `actors` says which actors a run has and how they are connected.
  * `file_discovery_actors`, `partial_hash`, `full_hash`, `comparator`,
    `hard_linker`, `json_dump`, `collector` and `status` hold the actors themselves.
  * `file_selector` finds groups of equal files bucket by bucket.
  * `path`, `path_order`, `digest`, `text`, `text_order`, `bytes`, `size_arg`, `gate`,
    `maps` and `seqs` are what these are built on.
  * `path_laws`, `discovery_laws`, `walk_laws`, `hashing_laws`, `selector_laws`,
    `group_laws`, `pipeline_laws` and `search_laws` state what holds of several of them
    together. The last says that no duplicate in scope is missed and that nothing else
    is reported, as long as all files can be read and do not change.
* `app/` is the program: arguments, files, channels and the terminal.
* `tests/` runs the library on examples.

## Usage

```sh
rsdupes -i <extension-to-include> -e <extension-to-exclude> -m <minimum-size> <Directory>
```

`-j duplicates.json` lists duplicates, `-h` replaces them by hard links, `-c` asks
before each, and `-f` makes a symbolic link where a hard link cannot be made.

The list is an object of sizes, each an object of digests, each an object of
originals with their duplicates:

```json
{
  "<file_size>": {
    "<HASH>": {
      "PATH": ["DUPLICATE", "DUPLICATE2"]
    }
  }
}
```
