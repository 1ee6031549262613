# jemalloc_pprof

Collects heap profiles of the [jemalloc](https://jemalloc.net/) allocator and converts them to the
[pprof](https://github.com/google/pprof/tree/main/proto) format. The logic is verified with
[Verus](https://github.com/verus-lang/verus).

## Layout

`src/` is the verified library.

| Module | What it does |
| --- | --- |
| `jeheap`, `text` | reads the heap dumps of jemalloc |
| `profile` | collects stacks, their weights and their annotations |
| `pprof`, `string_table`, `distinct`, `hex` | converts a profile into the message of the pprof format |
| `proto`, `wire` | the messages, their protobuf encoding and its compression |
| `elf`, `macho`, `bytes` | find the loaded segments and the build IDs of shared objects in memory |
| `mappings` | turns shared objects into mappings |
| `control` | decides how the profiler is activated and deactivated, and how requests are answered |
| `capi` | decides what a caller from C is told |
| `cast`, `double` | casts between integers, and between integers and double-precision numbers |

What holds of them beyond the contracts of single functions stands in `jeheap_laws`, `pprof_laws`,
`wire_laws`, `elf_laws` and `macho_laws`, and in the proof functions named `law_*` of the other
modules. `wire_laws` holds a reader of the protobuf format, and the proof that it gets back every
profile from its encoding.

`app/` is a server that hands out the heap profile of its own process. It accesses jemalloc, the
dynamic linker, files and the clock, and computes the weights of the stacks with floating-point
numbers. `tests/` holds the tests of the library.

Double-precision numbers are held as their bit patterns, and the paths of files as their bytes.
