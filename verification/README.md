# elf_proof

Extracts correctness statements from the ELF file of a linked program, and checks that they can
be proved.

* `elf` -- the file: its headers, its segment, and the check of the whole file
* `assembly` -- the items of the segment: procedures and constants, in file order
* `procs` -- single procedures, and the order in which they are proved
* `blocks` -- the physical blocks of a procedure, and their instructions
* `block_tree` -- tree-structured proofs of the blocks of a procedure
* `check` -- what it means that such a proof goes through
* `soundness` -- what follows when it does
* `context` -- the map that a block proof carries along, from the `im` crate
* `code`, `mir`, `ids` -- linked code, control flow graphs, identifiers

`app/` adapts the iterators of the library to the standard iterator traits.
