# librestrings

The verified core of LibreStrings, a physically modelled bowed-string
instrument (violin, viola, cello, double bass) and its string sections.

`src/` is a Verus library. Verus proves its functions against their
contracts, except a few small ones that call std (the clock, atomic fences
and spinning, lossy UTF-8 decoding, collecting characters)
and whose contracts it trusts. The seqlock's words and version, and the
clock's time, are read from outside and have no value in the contracts.

It holds the parts of the instrument that the notes decide, not the sound:

- `section`: a section of up to twelve players. The chord a divisi section
  divides among its players (`divide`: an even share per note, the front
  desks first, a player keeping its note while the chord holds it), the
  seating when a chord has more notes than players (`steal`), the notes
  waiting within one sample, each player's queue of delayed events, and the
  `Divisi` bookkeeping that ties them together.
- `performer`: the keys a performer holds, and the choices a released key
  or a legato line makes.
- `sync` and `seqlock`: the stage file that instances on one computer share:
  how a section's name and details pack into its slot, the file's name, and
  when a slot is live or free, under seqlocks.
- `layout`, `stage`, `params`, `keyboard`, `articulation`, `tuning`,
  `analysis`, `bow`, `engine`, `telemetry`, `random`: the rooms and modes and
  their names and numbers, the keyboard's note names and keyswitches, the
  editor's labels, the MIDI controllers, the published telemetry, and the
  integer random numbers behind the humanizing draws.

`app/` is ordinary Rust around it: the memory-mapped stage file, the layout
saved as JSON, the section's delays in seconds, and the editor's event queue.
The floating-point sound model plugs in through `app::section::Play`.

`tests/` exercises the library on concrete values.
