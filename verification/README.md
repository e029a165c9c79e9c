# bin-extract

A verified library (Verus) and a command-line tool for the encrypted `.bin`
game data files of Albion Online: DES-CBC, then gzip, then XML.

- `src/` is the library, proved with Verus. `decrypt` undoes the CBC chaining
  and the padding around the `des` block cipher and inflates the result with
  `flate2`; `xml` turns the events of `quick-xml` into plain values;
  `extract` folds those events into items, mobs, spells, buildings, world
  clusters, translations and settings; `gamedata` knows the extractable file
  types, picks the data directory and lists its files; `menu` holds the
  decisions of the interactive front end.
- `app/` is the program around it: argument parsing, the terminal menu,
  reading and writing files, and the JSON output.
- `tests/` runs the library on concrete data, including files encrypted and
  compressed the way the game stores them.
