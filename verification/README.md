# rust_tar

Packing a folder into a tar archive and unpacking it again, in the ustar
layout: 512-byte header blocks with octal number fields, file contents
padded to whole blocks, and two zero blocks at the end.

- `src/` is the verified library (Verus):
  - `octal`: octal number fields, written and read back;
  - `header`: the header block and its byte layout;
  - `entar`: header blocks and archive bytes for the entries being packed;
  - `untar`: reading entries back from header blocks;
  - `walk`: which entries of a folder listing are packed and walked;
  - `roundtrip`: proofs that unpacking gives back what packing wrote.
- `app/` holds the file system work: `file_entar`, `process_files_recursively`
  and `file_untar`.
- `tests/` runs the library on concrete values.
