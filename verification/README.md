# lib — verified core of a small x86 hobby kernel

The kernel's decisions and data structures, written in Verus and proved
against their contracts:

- `src/` — the library: byte-order and string helpers; the Ethernet, ARP,
  IPv4, ICMP, UDP, TCP and DNS packet logic; the physical page allocator and
  the kernel heap; the round-robin thread scheduler, locks and keyboard
  buffer; the in-memory file system (directories, RAM files, devices, file
  descriptors, paths, rename), the ramdisk image reader and a FAT16 file
  system on a disk image; the ELF loader's checks and load plan; the
  system-call decisions; the shell's and line editor's parsing; and the
  built-in compiler (lexer, symbol table, code emitter, parser).
- `tests/` — tests on concrete values.
- `app/` — a hosted front end: boots the file system from a ramdisk image
  and an optional FAT16 image and runs the shell on standard input and
  output.

Each module states its behaviour over spec functions and views, and the
laws that relate several operations (a read after a write, a lookup after
an insert, a free after an allocation, a file read back from the disk after
it was written, ...) are public proof functions next to the code they are
about.

The compiler's contracts are exact for a part of the language only:

- the lexer, the symbol table and the code emitter are specified in full;
- constant expressions (number literals, `true`, `false`, parentheses,
  casts to primitive types, prefix `-` and `!`, and every binary operator
  by precedence level, left to right within a level, `&&` and `||`
  short-circuit) compile to the code that `lit_expr` gives, at every
  precedence level of the parser;
- a lone variable, `x = N` and the compound assignments compile to their
  loads and stores; `postfix_step` states the tail of indexing,
  member loads and casts, and `parse_type` the primitive, pointer, array,
  struct and alias types it reads;
- whole programs made of parameterless functions whose bodies are
  `return E;` statements with constant `E` (one function named `main`) and
  of statics `static [mut] NAME: T [= [-]N];` of a primitive type are
  accepted when they fit the symbol table and the code buffer; the output
  holds, after the entry jump, each function's code (prologue, statements,
  epilogue) in order; each static gets the next 4-byte slot after the code
  area and its initial value is stored by the start-up code, whose bytes are
  stated for every program that compiles.

For the rest (variables in expressions, calls, structs, loops, `match`,
functions with parameters or locals) the parser's contracts state what
every run keeps (the lexer's progress, the symbol table's scopes, the
emitter's invariants) and how each error is reported, not the code it
emits.
