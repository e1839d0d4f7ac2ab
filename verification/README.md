# install

The decisions of the `install` command, verified with Verus.

- `src/paths.rs`: Unix paths as character sequences: components, appending
  one path to another, file names, with the laws that tie them together.
- `src/options.rs`: the command line, read by `getopts`, and the help text.
- `src/mode.rs`: the mode bits that `--mode` gives, in octal or in
  symbolic clauses.
- `src/install.rs`: what a command line asks for, where each source goes,
  and which copies are made or refused during an install into a directory;
  paths name the same file when their components are equal.
- `app/main.rs`: the program: it reads the file system, asks the library
  what to do, prints and copies.
- `tests/`: the command's scenarios, run against a file system held in
  memory, and tests of each function.
