# mir_lower

Lowers functions of the MIR dialect to LLVM functions, on `pliron` IR. What the lowering decides
is verified with Verus; a driver that owns the IR carries it out.

The LLVM function takes flattened arguments: a pointer and a length for a slice, one value for
each sized field of a struct, one host-layout value for an opaque kernel argument such as a closure
environment. Its entry block puts the MIR arguments together again and branches to the MIR body.

| Module | What it holds |
|:--|:--|
| `text`, `number` | splitting text, reading and writing decimal numbers |
| `layout`, `layout_text` | host layouts in the text form of the kernel attributes, and that they read back |
| `attributes` | kernel attributes in `pliron` dictionaries: reading and carrying over |
| `types` | argument types and how each argument is flattened |
| `prologue` | the operations of the entry prologue |
| `semantics`, `entry_laws`, `entry_success` | what a prologue computes, that every argument arrives, when it succeeds |
| `smem` | alignment and symbol of dynamic shared memory |
| `convert`, `convert_laws` | the lowering of a function, step by step, and what comes of it |
| `error` | failures and their messages |

`app/` is the driver. It gets the MIR and LLVM dialects and the type converter through a trait.
