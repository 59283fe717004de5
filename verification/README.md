# MiaoSuan

A tactical map and globe: units of two sides move over maps of the real world, sensors lift the fog
of war, tiles and satellites are loaded as the view needs them.

- `src/` is the library. Everything in it is verified with Verus: maps are read and classified
  (`osm`, `extract`, `mvt`, `mvt_laws`, `xml`), tiles are streamed and cached (`stream`, `tiles`, `globe_tiles`,
  `web_cache`), units move, are seen and are drawn (`sim`, `units`, `input`, `ui`), time passes
  (`civil`, `timeline`), satellites are loaded (`satellites`), views are kept in addresses and
  arguments (`weburl`, `launch`, `decimal`), cameras move (`camera`, `globe`), and meshes are put
  together (`mesh`, `map_render`).
- `app/` is the program around it: windows, drawing, downloads, files, and the floating-point
  trigonometry of projections and orbits.
- `tests/` runs the library on concrete values.

The library has no floating-point numbers. Points of the map plane are in centimetres, screen
lengths in thousandths of a pixel, times in microseconds or nanoseconds, angles in millionths of a
degree; each item says which. Numbers that are only handed through, such as the coordinates of a map
file, are kept as the decimal texts in which they were read, and are known to be numbers.

A few functions of other crates are called through items whose contracts are stated but not proved:
reading XML events (`quick-xml`), unpacking gzip (`flate2`), decoding JPEG (`image`), reading orbital
elements (`sgp4`), and two string functions of the standard library. Each says above it what is
taken for granted.

The program draws with bevy 0.19, which `Cargo.toml` does not name: the library and its tests build
in a moment without it. To build the program, add `bevy = "0.19"` to the dependencies and put a
picture of the earth in `assets/earth_2048.jpg`.
