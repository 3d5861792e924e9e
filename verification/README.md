# oma_sources

A verified library for two parts of an APT front end:

- `mirror`: the enabled mirrors (kept in an `indexmap::IndexMap`, in the order apt uses them),
  with enabling, disabling, replacing and reordering mirrors and rendering the
  `sources.list` lines they give; `mirror_laws` proves what holds across these edits.
- `sourceslist`: sources list entries with `$(ARCH)` filled in, where their index files
  live, how they are fetched, the human-readable download location, the grouping of
  entries into mirror sources, and taking in what reading a sources list file gave;
  `sourceslist_laws` proves properties of these.
- `ordered_map` and `text` hold the model of the ordered map and the verified string
  operations the two modules share.

`app/` reads and writes the status and mirror files and walks the sources list
directories; it hands plain values to the library.
