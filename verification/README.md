# kmod_arch

Architecture support for a loader of kernel modules, verified with Verus: the
global offset table and the procedure linkage table of a module, and the
relocations of x86-64.

Module memory is a value, `memory::Memory`, whose view is a map from addresses to
bytes. Every function that reads or writes a module takes it, so that contracts say
exactly which bytes change and how.

| module | contents |
| --- | --- |
| `bits`, `bytes` | sign extension, the `r_info` word, little-endian images |
| `memory`, `ptr` | module memory, typed access to it |
| `search` | where something comes first |
| `object` | section headers, section names, relocation sections |
| `common` | global offset table, procedure linkage table, duplicates |
| `prepare` | making room for the tables before sections are laid out |
| `x86_64::reloc_type` | relocation types and their numbers |
| `x86_64::relocation` | what one relocation does |
| `x86_64::relocate` | applying the relocations of a section |
| `x86_64::sequence` | what holds of relocations applied one after another |
| `x86_64::sections` | room for the global offset table of an x86-64 module |

Proof functions whose names begin with `law_` state what the library promises as a
whole. `goblin` parses ELF objects; the wrappers around it are in `object`, and
their contracts are believed, not proved.

`app/` connects the library to `goblin`'s types, to raw memory and to the log.
