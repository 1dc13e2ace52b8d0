# redox_race

A bike race in which bikes trade electrons: reduction pads hand electrons out,
oxidation hazards take them away, and bikes close to each other exchange
electrons from the richer to the poorer. A negative balance rusts a bike and
wears its integrity down until it corrodes; the race ends when a bike has
completed the configured laps.

- `src/` is the verified rule book (Verus): race phases (`phase`), the electron
  economy (`electrons`), redox wear and corrosion decisions (`wear`), checkpoint
  and lap bookkeeping (`laps`), the standings (`ranking`) and the starting grid
  (`roster`). Bikes are identified by `u64` entity bits; distances enter the
  standings as their `f32` bit patterns.
- `app/` is the Bevy game around it: scene setup, input, movement, rendering,
  and every floating-point computation (distances, rust, integrity, speed).
  Each system gathers plain values from the ECS, asks the library, and writes
  the answer back.
- `tests/` runs the library on concrete races.
