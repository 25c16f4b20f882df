# Gaze

Gaze shows text files of any size without ever blocking on them. A background thread
loads the parts of the file that matter most, while the window shows what is already
there.

`src/` is the library, written in Verus. All of it is proved against the contracts that
it states:

- `demem`, `runs`, `sparse`: the sparse store, which holds the loaded parts of a file.
- `storing`, `mapping`, `loading`: taking in a piece of the file, cut into steps that hold
  the lock on what is loaded for a short time only: no step moves more than a batch of
  anchors or bytes, and memory is reallocated in one go only below a threshold.
- `utf8`, `layout`: lenient decoding, and the positions that it gives to bytes.
- `marks`, `linemap`, `merging`, `filling`, `linemapper`: the line map, which knows the
  positions of some offsets, and how it grows piece by piece.
- `truth`, `lines`, `pieces`, `answers`: that the line map and what is looked up in it tell the truth about
  the file, whatever was loaded in whatever order.
- `strict`, `seams`, `patchwork`, `stitched`: a line map with strict decoding, whose
  segments are mapped without their surroundings and stitched together later.
- `surroundings`, `loaded`, `lookup`, `position`: what is loaded, what to load next, and
  how to look things up.
- `fileview`, `tabs`, `input`, `cfg`: what the user does with a file.

Horizontal distances are integers, in units of a 2^24th of the font height.

`app/` is the program around the library: the window, drawing, the settings file, the
clipboard and the threads. `tests/` runs the library.
