# gd_level

Builds Geometry Dash level strings and writes them into the game's
local-levels save file, with the logic verified by Verus.

- `src/level.rs`: level objects (`GDObject`), their text and the level string.
- `src/codec.rs`: the XOR cipher, the two base64 alphabets, the gzip framing
  and the level-data prefix of the save format.
- `src/encoding.rs`: base64, gzip, zlib and CRC-32 through the `base64`,
  `libflate` and `crc32fast` crates, with what the library relies on about them.
- `src/xml.rs`: which XML event receives the level data and which events name
  the level, and the rewrite of the save file's XML through `quick-xml`.
- `src/save.rs`: reading the XML out of a save file and writing it back.
- `app/`: the program that slices a textured mesh into level objects and writes
  them into the save file; its geometry is floating point and its work is file
  I/O, so it stays outside the verified library.
