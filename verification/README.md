# m2c

`m2c` reads NMAKE makefiles, as build systems of the EDK2 kind write them, and makes
a compilation database of them: a `compile_commands.json` with one unit for each
source file, for tools such as `clangd`.

The library under `src/` is verified with Verus. The program under `app/` reads and
writes files around it.

| Module | What it holds |
| --- | --- |
| `text` | strings as characters and as UTF-8 bytes |
| `pattern` | the regular expressions, what each matches, and the calls into `regex` |
| `escape` | the text before parsing, and values after it |
| `positions`, `lines`, `roundtrip` | laws of escaping: where backslashes go, line by line, and what comes back |
| `reference` | variables and references to them |
| `syntax` | syntax nodes in pre-order, and the walk over a `tree_sitter` tree |
| `rule` | rules and assignments, read off their nodes |
| `recipes` | what a makefile says as a whole |
| `command` | command lines and their words |
| `units` | the jobs of a makefile and the units that they give |
| `path` | paths, as far as every platform reads them alike |
| `merge` | merging units into a database |
| `run`, `nested` | a makefile with those of the libraries that it builds |

## Usage

```sh
m2c <path/to/Makefile> [compile_commands.json] [OPTIONS]
```

| Flag | Description |
| --- | --- |
| `-s`, `--stdin` | Read the path of the makefile from stdin. |
| `-w`, `--walk-dir <DIR>` | Walk `DIR` and process every `Makefile` and `GNUmakefile` in it. |
| `-a`, `--append` | Merge new units into the existing database instead of overwriting it. |
| `--append-from <FILE>` | Merge new units into those of `FILE`. |
| `--warn-dup` | Warn when a file already has an entry in the database. |
| `-P`, `--no-pretty` | Write compact JSON. |
| `-v`, `--verbose` | Enable debug logging. |
