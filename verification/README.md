# cowbump

A tag-based organiser for large folders of images: every file of a folder becomes an
entry with a stable uid, entries carry tags (which may imply other tags), can be put in
ordered sequences, and are selected with filters.

The library in `src/` is written in Verus; every function in it is verified against its
contract.

- `collection`: entries, tags and sequences; keeping a collection in step with its folder
  (`collection::folder`), and adding entries to sequences in path order
  (`collection::sequences`).
- `entry`, `tag`, `sequence`, `db`, `id_map`: the data, uid handling and the ordered
  uid-keyed map everything is stored in.
- `filter_spec`, `filter_reqs`, `filter_lang`: the two filter languages and how entries
  are matched against them.
- `gui`: the state behind the user interface: selection buffers, the list on view and
  searching in it, the built-in viewer, tag completion, opening files with external
  applications, batch renaming and the other windows.
- `util`: positions in sequences, string editing, path ordering.

`app/` is a small command-line front end that does the file-system work: it loads and
saves the database, walks a collection's folder, applies the changes found, and lists the
entries that pass a filter.
