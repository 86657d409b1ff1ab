# oval

A host inventory scanner: it reads what a machine is (host name, kernel
release, architecture, operating system) and which packages pacman has
installed on it, and writes the inventory as JSON.

- `src/` is the library, verified with Verus: the os-release reader
  (`os`), the pacman description format (`alpm`), how a description becomes a
  package and which database entries are read (`pacman`), the host record
  (`host`), and the text and number handling they share (`text`, `decimal`).
- `app/` is the program around it: the runner that reads files and runs
  commands with tokio, the collectors' async plumbing, and the JSON output.
- `tests/` exercises the library on concrete inputs.
