# photorg

Sorts a pile of photos into dated, and optionally place-named, folders. The whole
run is planned before anything is touched, and everything that decides where a
file goes is verified with Verus.

- `src/` is the library. It never touches the disk: planning, pre-flight checks,
  the transfer of a file and the search for the nearest city ask questions and go on
  when they are answered. `guarantees.rs` states what holds of every plan,
  `questions.rs` how much planning asks, `presets.rs` what holds of the built-in
  templates, and `transfer.rs` what holds of every copy and move, whatever the disk
  refuses.
- `app/` is the program around it: arguments, the walk through the source tree,
  reading and copying files, floating-point arithmetic, and output.
- `tests/` runs the library against disks that are held in memory.

The GeoNames dataset is read from `cities.bin` beside the program. Without it,
location variables stay empty.
