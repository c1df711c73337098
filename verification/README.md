# miden_replay

Verified parts of a virtual machine:

- **Recursive types.** Struct and enum types that refer to one another are described by name and
  built into groups of mutually recursive definitions. A built type is exactly what its definition
  describes, one level deep at a time; it has a finite size; and neither the order of the definitions
  nor the number of times they are built makes a difference. Types are cut into the parts that
  represent them on the operand stack.
- **Resolution.** The decisions of a linker that resolves constants and types: what is known, what is
  to be evaluated, what makes an enum, and which cycles are errors.
- **Replay.** What an execution records and a trace builder replays, the bytes in which it is sent to
  a remote prover, and the budget under which these are read. What is written is read back.

`src/` is the library. Every function in it is verified with Verus against its contract; what it
takes from other crates stands behind functions marked `external_body`, whose doc comments say what is
claimed of them:

- `reader.rs`: the byte readers and writers of `miden_crypto`,
- `fields.rs`: its field elements,
- `lists.rs`: the lists of `smallvec`,
- `names.rs`, `wire.rs`, `types.rs`: shared pointers, arrays and hashers of the standard library.

The laws that relate several functions are public proof functions; most stand in
`recursive_laws.rs`, `order_laws.rs`, `alike.rs`, `resolver.rs` and `inputs.rs`, and that writing and
reading agree is part of the trait `Codec` in `wire.rs`.

`app/` is what surrounds the library: the program as the linker sees it, the channel of streamed
requests, a running processor, and proof generation. `tests/` runs the library on concrete values.
