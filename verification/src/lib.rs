//! Lowering functions of the MIR dialect to LLVM functions.
//!
//! The LLVM function takes flattened arguments. Its entry block puts the arguments of the MIR
//! function together again and branches to the MIR body. This crate decides what the lowering
//! does and proves what comes of it; a driver that owns the IR carries it out.

pub mod argument_laws;
pub mod attribute_laws;
pub mod attributes;
pub mod convert;
pub mod convert_laws;
pub mod entry_laws;
pub mod entry_success;
pub mod error;
pub mod error_laws;
pub mod layout;
pub mod layout_laws;
pub mod layout_text;
pub mod number;
pub mod number_laws;
pub mod operation_laws;
pub mod prologue;
pub mod semantics;
pub mod smem;
pub mod smem_laws;
pub mod text;
pub mod text_laws;
pub mod type_laws;
pub mod types;
