# schemgen

The verified core of a converter that turns glTF models into Minecraft
schematics (Litematica `.litematic`, WorldEdit `.schem`, structure-block
`.nbt`).

- `src/` is the library, written in Verus: every function carries a
  contract and is proved. It holds the NBT writer and reader, the three
  schematic encoders, modified UTF-8, NumPy's PCG64 stream, the Minecraft
  version table, the settings rules and schema, the command line's and the
  server's decisions (arguments, uploads, jobs and their event streams, host
  and token checks, output folders), the preview and thumbnail geometry,
  glTF references (relative paths, data URIs, required extensions, scene
  order) and the block textures read out of a game jar.
- `tests/` runs the library on concrete values.
- `app/` is the `schemgen2` program around it: arguments, the environment,
  files and processes.

The floating-point geometry and colour matching (voxelizing, sampling,
dithering, CIEDE2000) are not part of the library.

## What this build cannot do

The block colour table, the palette and dithering rules, the block
availability list and the conversion pipeline that ties them together are
not included in this repository. So in this build:

- `schemgen2 convert`, `schemgen2 palette` and `schemgen2 build-table` print
  an error and exit with status 2;
- `schemgen2 serve` (and `schemgen2` with no command) checks its options and
  the texture source, then prints an error and exits with status 1 instead
  of starting the HTTP server.

`schemgen2 help`, `version`, `targets` and `schema` work in full.
