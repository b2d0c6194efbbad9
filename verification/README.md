# vac

The core of a virtual audio cable application, verified with Verus.

`src/` is the library; every function in it has a contract that Verus proves:

- `routing`: the routing matrix. Routes are numbered `route_1`, `route_2`, ...;
  identifiers stay unique, a route that is added, updated or removed is found
  (or no longer found) by its identifier, and the per-route mix parameters
  (volume, effects) are carried as an opaque type parameter.
- `devices`: the registry of virtual devices (`vac_<n>` created by the user,
  `virtual_<i>` detected among the host's outputs by name).
- `audio`: which host devices become sources and under which identifiers,
  which device an identifier designates, which routes carry a captured frame,
  and the per-device effect settings table.
- `commands`: the logic behind the user's commands: the device list, route
  edits addressed by input and output, preset file names and listing, preset
  timestamps.
- `config`: the application's settings and their defaults.
- `text`: decimal rendering and reading of indices, substring search,
  lexicographic sorting.

`app/` is the desktop program around it: the audio streams and threads, the
floating-point effect pipeline, the files and the user interface shell.
`tests/` runs the library on concrete values.
