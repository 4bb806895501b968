# stella_stage

A tool for the game files of iDOLM@STER Stella Stage, with its core proved
correct in Verus.

- `src/` is the verified library:
  - `crypt`, `prng`: decryption and encryption of game files (key and IV
    derivation, the obfuscated first kilobyte, AES-192-CBC, CRC-32 and zlib
    through their crates);
  - `jxb`, `node`, `tree`, `encode`: `jxb` node trees, their records and
    string tables, and building them from trees;
  - `format`, `parse`: the binary form of `jxb` files and `jxk` archives,
    written and read;
  - `reread`, `built`: the bytes written for a file or an archive read back
    as it, and a file built from a tree reads back from its bytes;
  - `xml`: trees from xml events and xml events from trees;
  - `csv`, `table`, `inject`: text tables, extracted and injected;
  - `jxk`, `strset`, `text`: archives, sorted string sets, string helpers.
- `app/` is the command-line program: argument handling, files, directories
  and the xml reader and writer around the library.
- `tests/` runs the library on concrete inputs.
