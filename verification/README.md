# afs-ld

The parts of a linker for ARM64 Mach-O images and x86-64 ELF images that decide and
compute, written in Rust and verified with Verus.

- `src/macho` reads and writes Mach-O: headers and load commands, dylibs, text stubs
  (`tbd`, over the subset of YAML in `tbd_yaml`), and in `writer` the symbol table, the
  tables of the link-edit segment, the load commands and the bytes of an image.
- `src/reloc` reads and writes relocations; `reloc/arm64` resolves and applies them,
  plans branch thunks, and fills stubs, pointer tables and thread-local variables.
- `src/resolve` holds the symbol table with its insertion rules, the registry of inputs,
  seeding, the fetching of archive members, and the reports on what is left undefined.
- `src/elf` reads the command line and the linker scripts of an ELF link and says where
  its files are looked for and what they are.
- `src/output.rs` and `src/path.rs` decide about the file that is written.
- The other files hold what these share: bytes, texts, sorting, LEB128, atoms, sections
  and layouts.

Every function states in its contract what it returns. Public proof functions whose
names begin with `law_` state what holds of several functions together, such as that
what was written is read back.

`app` is the command line around the library. It reads the arguments of an ELF link,
finds and classifies its inputs, and holds the code that publishes a file at once. It
makes no images: the library reads no ELF objects, so an ELF link ends with an error
after its inputs were listed, and there is no driver for Mach-O links. A program that
drives one reads the objects and makes the layouts; the library plans the tables
(`writer/image_plan.rs`), says when a layout is final (`writer/finalize.rs`) and writes
the image (`writer/file.rs`).
