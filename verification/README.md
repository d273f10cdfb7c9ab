# diskchurn

The verified core of a Windows disk analyzer that classifies folders by how they change
(cold, hot, volatile), compares snapshots over time and reads the NTFS master file table.

`src/` is the library, checked by Verus:

- `types` — files, folders and scan snapshots as plain values.
- `paths` — Windows-style parent and file-name of a path.
- `classifier` — groups files by folder and classifies each folder's churn.
- `delta` — changes between a stored snapshot and the current scan, and the display filter.
- `history` — snapshot file names, listing newest first, pruning, what a save writes.
- `scanner` — USN record parsing, the file-reference table and path resolution.
- `entropy` — byte histograms of file samples.
- `app` — the window's decisions: scan messages, filters, ordering, selections.
- `decimal`, `clock` — number formatting and parsing, the system clock.

`app/` is the program around it: the egui window, the scanning threads, Windows calls,
file I/O, bincode storage and the floating-point parts (entropy values, growth projection,
treemap layout). After a scan the window lists the changes since the drive's previous
snapshot, with a size threshold and a switch per kind of change.
