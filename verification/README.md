# informer

Generates a Markdown index (`index.md`, then HTML through pandoc) of a project
directory from a TOML configuration: a title, a logo, notes, files named as
entities, and the files of directories listed in tables.

- `src/` is the verified library: the configuration (`config`), a label map
  (`label_map`), the order and text of the sections (`utils`), the update of
  an existing index (`update`), label order and sorting (`text`), the path and
  regex calls it makes (`paths`, and the top of `update`), and the laws that
  hold of all of it (`laws`).
- `app/` is the program: arguments, reading the configuration, walking the
  directories, converting files, writing the index.
