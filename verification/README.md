# GIMP curve to ICC

Turns curves from GIMP's curve tool, or a gamma value, into an ICC profile that calibrates a
display through the video card's tables.

- `src/` is the library, verified with Verus: reading the settings, the arithmetic, the ramps
  and the profile. Calls into `regex` and `lcms2` stand behind a few functions whose contracts
  are taken on trust; each says in its documentation what is claimed.
- `app/` is the program around it: arguments, files, messages, and powers of gamma.
- `tests/` runs the library, most of it against the floating-point unit.

Functions named `law_*` state what holds of the library as a whole.
