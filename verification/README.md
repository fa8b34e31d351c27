# boa_compiler

A compiler, verified with Verus, for a small expression language with
numbers, booleans, `let`, `if`, `loop`/`break`, `set!` and `block`. It reads
a program as an s-expression and writes x86-64 assembly text that a small
runtime links against.

- `src/` is the verified library:
  - `tagging` — the tagged word representation of values;
  - `text` — decimal rendering of integers;
  - `sexpr` — the s-expression tree and its reading by the `sexp` crate;
  - `ast`, `parser` — the syntax and the parser, with its grammar as spec functions;
  - `env` — the `im` persistent maps that hold environments;
  - `assembly` — instructions and their text;
  - `limits` — the stack slots and label numbers that must fit in `i32`;
  - `compiler` — code generation, specified by `compile_spec`;
  - `pipeline` — from program text to the assembly file;
  - `runtime` — what the runtime writes for values and error codes;
  - `properties` — proved properties of the generated code: unique labels,
    resolved jumps, stores inside the stack frame, when compilation succeeds,
    and what straight-line code computes on a model of the machine.
- `app/` is the command-line compiler (`<input.snek> <output.s>`) and the
  runtime's entry points.
- `tests/` exercises the library on concrete programs.
