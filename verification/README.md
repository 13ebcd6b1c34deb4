# pika

A memory scanner for Wine and Proton games on Linux. It reads and writes the memory of a game
through `process_vm_readv` and `process_vm_writev`, without stopping it. Scans read, and values
are written to, nothing but regions that belong to the game itself.

- `src/` is the library. Its functions are verified with Verus against their contracts, all but
  the few that call into outside crates (see below).
- `app/` is the program around it: the command line, the daemon's socket and threads, the
  process file system and `ptrace`.
- `tests/` runs the library on concrete values, with the outside crates it links.

## How the contracts are laid out

Memory is reached through one trait, `mem::access::MemoryAccess`. It keeps a ghost trace: a
sequence with one event for each request, holding what was asked and what came back. A function
that uses memory states its contract as a predicate over the events that it added and its
result, named after it: `write_ran`, `first_scan_ran`, `patch_ran`. It also keeps the trait's
invariant, `sound`: for the simulated process `MockMemoryAccess`, the relation between its trace
and its memory.

Properties that span functions are public proof functions beside those predicates:

| Property | Where |
|---|---|
| A value is written only into a safe region of a memory map read right before | `mem::write::writes_are_guarded`, `rpc::methods::safety::every_write_is_guarded` |
| A success means that all of the value was written | `mem::write::success_means_written` |
| Methods that neither write values nor change code only look | `rpc::methods::safety::other_methods_only_look` |
| Scans and searches stay in their regions | `scan::engine::scans_stay_in_safe_regions`, `scan::aob::byte_searches_stay_in_their_regions`, `scan::pointer::pointer_searches_stay_in_their_regions` |
| Scans and searches miss nothing and make nothing up | `scan::engine::scans_find_every_match`, `scan::aob::byte_searches_find_every_match` |
| Pointers in a module that reach the target directly are found, unless the result is full, and no link reaches past the limit | `scan::pointer::direct_pointers_are_found`, `scan::pointer::links_stay_within_reach` |
| Filtering only narrows, opposite filters share the candidates out, and unchanged memory keeps them all | `scan::filter::filter_only_narrows`, `scan::filter::opposites_share_out`, `scan::filter::unchanged_memory_keeps_all` |
| Restoring undoes a patch | `mem::patch::restoring_undoes_a_patch` |
| Every applied patch is kept under its address until its bytes are back, those of other processes too | `mem::patch::patches_of_others_stay`, `mem::patch::patches_stay_filed` |
| A watch that is told to stop disarms what it armed, where its thread can be interrupted | `mem::watch::ends_disarmed` |
| Shared, device and wineserver mappings are classed as not to be touched, and only the game's own as safe | `process::maps` |
| A simulated process holds, and answers, what was asked of it made of it | `mem::access::simulation_follows_its_trace`, `mem::write::written_values_stand`, `mem::patch::restored_memory_is_as_before` |
| Every request is answered as JSON-RPC 2.0 asks | `rpc::methods::safety::every_request_is_well_answered` |

## What is trusted

Calls into outside crates stand in small functions marked `external_body`, each with a comment
that says what is believed of the call: the entries of a `DashMap`, the members of a JSON value,
the identifiers that `nid` makes up and the instructions that Capstone decodes.
