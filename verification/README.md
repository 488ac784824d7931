# lib

The verified core of a boot stub that loads an ELF executable into an address space of its
own before handing control to it.

`src/` holds the logic, each function with a contract proved by Verus:

- `elf`, `layout`, `relocation`, `x86_64`: parsing the executable, placing it in the virtual
  address space and resolving its `RELA` relocations.
- `descriptor`, `paging`: address space descriptions, the translation scheme interface and the
  search for free regions.
- `bits_32`, `long_mode`, `x86_paging`: 32-bit and 4/5-level x86 page tables held in a model of
  physical memory, and the choice of a paging configuration from what the processor reports.
- `pae`: PAE page tables: translation, mapping and unmapping.
- `pae_mapping`: mapping the loadable segments of a 32-bit executable into PAE tables and
  placing it: layout, segments and relocations.
- `aarch64`, `vmsa`, `vmsa_tables`, `vmsa_map`, `vmsa_range`: the VMSAv8 configuration, its
  `TCR` value, the walk of its two regions' tables, and mapping and unmapping ranges of pages.
- `mapping`, `executable`: mapping the loadable segments of an executable and loading it.
- `calls`, `utf8_check`: the calls that the loaded executable makes into the stub (writing a
  well-formed UTF-8 message, allocating and giving back frames, mapping and unmapping pages)
  and their dispatch.
- `memory_map`: writing the platform's memory map into a buffer of the executable.
- `cpu_storage`: the per-processor storage of the switching code: the executable's control
  registers, segments and descriptor table, its stack and the routines placed for each side.
- `command_line`: the part of the stub's command line that is handed on to the executable.
- `frame_vec`, `physical_memory`, `context`: frame ranges, physical memory and frame allocation.
- `initgraph`, `graph`: the dependency graph of initialization tasks.
- `idt`: interrupt descriptor table entries, and the table installed for the executable.

Physical memory and the platform's frame allocator are values handed to the library: the
page-table walks read and write `PhysicalMemory32` / `PhysicalMemory64`, and tables are taken
from a `FrameAllocator`.

`app/` is a hosted front end that reads an executable from a file and reports its layout.
