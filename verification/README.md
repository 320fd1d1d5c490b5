# ch32_data

Machine-readable data tooling for WCH's 32-bit microcontrollers, verified with Verus.

The library in `src/` holds the logic, each function with a contract that Verus proves:

- `chip`, `resolve`, `size`: the chip description types, memory resolution along an include
  chain (region merging, size overrides, code/RAM splits) and byte sizes with `K` suffixes.
- `mem_layout`, `memory_x_render`: memory regions, the `regions` file format, bank merging and
  the `memory.x` linker script.
- `nv`: the codec of non-volatile structures (option bytes and the like) over their register
  descriptions: lookup, decode, encode with complement sync, validation and factory reset.
- `generator`: what the chip-support crate generator computes: memory variants, metadata and
  manifest texts, per-core extras and the adjustments of rendered register-access code.
- `dump_memory_x`, `nv_descriptors`: the decisions of the `memory.x` dump command and of the
  non-volatile descriptor build step.

Laws that span several functions are public proof functions, most of them in files named
`laws.rs` and in `nv/consistency.rs`.

`app/` is the unverified shell: file and directory I/O, serde models of the JSON and YAML files,
and the calls into chiptool, which reads, transforms and renders register descriptions.

`tests/` runs the library on concrete values.
