# rlox

A bytecode interpreter for Lox, the language of *Crafting Interpreters*,
whose front end is verified with Verus.

- `src/` is the verified library: the scanner (`lexer`), the instruction set
  and chunks (`chunk`), NaN-boxed values (`value`), the hybrid identifier
  table (`vecmap`, a vector that spills into an FNV hash map) and the
  single-pass compiler (`compiler`), which compiles a script into function
  objects of a heap; the rules of the virtual machine that do not touch its
  heap (`vm`: one step of the dispatch loop for the instructions that work
  on the stack, the globals and the instruction offset, how a call of each
  kind of value proceeds, where a property is found, the table of open
  upvalues that closures share) and the collector's side (`gc`: what each
  kind of object refers to, and the marking of exactly the reachable
  objects).
  Every public function carries a contract; the laws of the library are
  public proof functions.
- `app/` is the command-line program: it loads compiled functions into a
  virtual machine with a garbage-collected heap of raw-pointer objects,
  hands each instruction to the library's step and carries out the ones
  that it hands back (objects, calls, upvalues and floating-point
  arithmetic), prints disassembly and errors, and offers a REPL.
- `tests/` runs the library on concrete inputs.

Usage: `rlox [FILE] [-d|--debug] [-t|--tracing] [-g|--gc-logging]`; without a
file it starts a REPL. A script that does not compile exits with status 65,
one that fails at run time with 70.
