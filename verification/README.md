# tailsync

One-way file sync between two Macs over a Tailscale tailnet: rsync over
Tailscale SSH, driven from a small desktop app.

- `src/` is the verified library (Verus): the exclude list and the file
  rsync reads it from, rsync's argument list and where to find a modern
  rsync, the dry-run summary and progress-line readers (with the split of
  rsync's output into records), the shell quoting of remote paths, the
  tailnet status reader, the list of directory pairs and the record of the
  last sync. Each public function states its result exactly; the laws (for
  example: a dry run uses the real run's arguments plus `-i --dry-run`; the
  shell reads a quoted path back unchanged; the summary of two outputs
  joined at a line break adds their counts; a pair found after an update is
  the updated one) are proof functions beside the code they speak of.
- `app/` is the Tauri program around it: processes, files, events, and the
  serde copies of the library's types.
- `tests/` runs the library on concrete values.
