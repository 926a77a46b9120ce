# tape-decode

Field assembly for a tape decoder: which blocks of the input a field needs, in
what order fields are written when the recording skips or repeats some, and the
index arithmetic of the filters, searches and resamplers around it. The library
under `src/` is verified with Verus; every function carries its contract.

Samples and measured quantities are floating-point numbers. The library holds them
by their bit patterns: it compares them, holds them in a range and turns them into
whole numbers (`double`), and rounds places on the disk, which are ratios of whole
numbers, and their distances to them (`rounding`).
Other arithmetic on them it takes as functions, whose results its contracts relate
to their arguments.

- `decoder` is the state machine of a decode. It is told events, and answers with
  the next piece of signal work to do; `blocks`, `field`, `field_order` and `info`
  hold what it decides with.
- `laws` states what holds of whole runs: that a decode which waits for input goes
  on as if it had never waited, that fields alternate, that what is returned is
  what is entered.
- `levels` encodes samples for the output.
- `slices`, `comb`, `resample`, `separation`, `spectrum`, `chroma`, `picture`,
  `pulses` and `rank` are the parts of the signal path that move, choose and order
  samples.

`app/` holds the floating-point arithmetic, the transforms and filter designs, the
serialized metadata, and the loop that runs the state machine.
