# hot_manager

`hot-manager` temporarily repoints the symlinks of a configuration directory (such as a
home-manager `~/.config`) at editable sources, touches a link whenever its source is
written, and puts everything back when it exits.

The decisions of the tool live in a library verified with Verus (`src/`):

- `path`: paths as lists of components, read and written the way Unix paths are.
- `order`: the component order that paths are sorted by, and its laws.
- `collections`: sets of paths and maps from paths to paths.
- `config`: the settings (explicit mappings, exclusion patterns, switches); the glob
  search over the exclusion patterns is made through the `glob` crate.
- `detect`: which entries of a directory walk are configuration files to watch.
- `matching`: which configuration paths are matched to which dotfiles sources.
- `assemble`: merging explicit, detected and temporary mappings.
- `hotlink`: the checks before hotlinking a file, the backup names, and which files an
  event relinks.
- `watch`: which directories are watched.
- `fix`: where leftover backups are moved back to.
- `output`: the rows shown for a set of mappings.

`app/` is the program around it: argument parsing, the file system work, the watcher
and the terminal output.
