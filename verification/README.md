# soullink-levelcap

Level-cap daemon for a Soullink challenge in Pokémon Alpha Sapphire on the
Citra emulator. It reads the number of Hoenn badges from Citra's memory and
freezes the experience of the party Pokémon at the level cap that `caps.txt`
assigns to that badge count.

Layout:

- `src/` — the verified library (Verus): the cap table parser (`caps`), the
  Gen-6 party-slot encryption (`game::decrypt`), growth rates and levels
  (`game::growth_rates`), party slots (`game::party`), badges
  (`game::badges`), the location of the FCRAM in the Citra process
  (`emulator`, `memory`), offset detection from the save file (`setup`) and
  one round of the cap policy and the reconnect state machine (`daemon`).
  The functions that touch process memory do so through
  `memory::LoggedMemory`, which keeps a log of the reads and writes made, so
  their contracts state exactly which accesses they make.
- `app/` — the program around it: command line, process listing, reading and
  writing the Citra process's memory on Linux and Windows, the reconnect loop.
- `tests/` — tests of the library.
