//! What can go wrong while a function is lowered, and how it is reported.

use vstd::prelude::*;
use vstd::string::*;

use crate::number::{decimal, number_error_text, push_decimal, NumberError};

verus! {

/// A failed lowering, over the kind of text that it quotes.
#[derive(Clone, PartialEq, Eq, Debug)]
pub enum LoweringErrorOf<T> {
    /// The attribute with the host layouts is no text.
    LayoutsNotText,
    /// A host layout has not four parts.
    InvalidLayoutEntry { entry: T },
    /// The argument index of a host layout is no number.
    InvalidLayoutIndex { text: T, error: NumberError },
    /// An entry of a list is no number. The label says which list it is.
    InvalidListValue { label: T, part: T, error: NumberError },
    /// The total size of a host layout is no number.
    InvalidLayoutSize { text: T, error: NumberError },
    /// No LLVM argument is left for an argument that has a host layout.
    NoArgForOpaqueStruct { arg: usize },
    /// Fewer than two LLVM arguments are left for a slice.
    TooFewArgsForSlice,
    /// Fewer LLVM arguments are left than a struct has sized fields.
    TooFewArgsForStruct { fields: usize },
    /// No LLVM argument is left for a plain argument.
    NoMoreArgs,
    /// A sized struct field has no flattened value.
    MissingFieldValue { field: usize },
    /// A sized struct field has no place in the LLVM struct.
    FieldWithoutIndex { field: usize },
    /// More flattened values came than the struct has sized fields.
    UnusedFieldValues { count: usize },
    /// A sized field has no place in the host layout.
    FieldWithoutHostIndex { field: usize },
    /// A sized field has no place in the logical struct.
    FieldWithoutLogicalIndex { field: usize },
    /// An aggregate is rebuilt of something that is no struct.
    NotAStruct,
    /// The type conversion or the operation builder failed, with this message.
    Outside { text: T },
}

/// A failed lowering.
pub type LoweringError = LoweringErrorOf<String>;

/// A failed lowering as contracts speak of it.
pub type ErrorModel = LoweringErrorOf<Seq<char>>;

impl View for LoweringErrorOf<String> {
    type V = ErrorModel;

    open spec fn view(&self) -> ErrorModel {
        match *self {
            LoweringErrorOf::LayoutsNotText => LoweringErrorOf::LayoutsNotText,
            LoweringErrorOf::InvalidLayoutEntry { entry } => {
                LoweringErrorOf::InvalidLayoutEntry { entry: entry@ }
            },
            LoweringErrorOf::InvalidLayoutIndex { text, error } => {
                LoweringErrorOf::InvalidLayoutIndex { text: text@, error }
            },
            LoweringErrorOf::InvalidListValue { label, part, error } => {
                LoweringErrorOf::InvalidListValue { label: label@, part: part@, error }
            },
            LoweringErrorOf::InvalidLayoutSize { text, error } => {
                LoweringErrorOf::InvalidLayoutSize { text: text@, error }
            },
            LoweringErrorOf::NoArgForOpaqueStruct { arg } => {
                LoweringErrorOf::NoArgForOpaqueStruct { arg }
            },
            LoweringErrorOf::TooFewArgsForSlice => LoweringErrorOf::TooFewArgsForSlice,
            LoweringErrorOf::TooFewArgsForStruct { fields } => {
                LoweringErrorOf::TooFewArgsForStruct { fields }
            },
            LoweringErrorOf::NoMoreArgs => LoweringErrorOf::NoMoreArgs,
            LoweringErrorOf::MissingFieldValue { field } => {
                LoweringErrorOf::MissingFieldValue { field }
            },
            LoweringErrorOf::FieldWithoutIndex { field } => {
                LoweringErrorOf::FieldWithoutIndex { field }
            },
            LoweringErrorOf::UnusedFieldValues { count } => {
                LoweringErrorOf::UnusedFieldValues { count }
            },
            LoweringErrorOf::FieldWithoutHostIndex { field } => {
                LoweringErrorOf::FieldWithoutHostIndex { field }
            },
            LoweringErrorOf::FieldWithoutLogicalIndex { field } => {
                LoweringErrorOf::FieldWithoutLogicalIndex { field }
            },
            LoweringErrorOf::NotAStruct => LoweringErrorOf::NotAStruct,
            LoweringErrorOf::Outside { text } => LoweringErrorOf::Outside { text: text@ },
        }
    }
}

/// The message of a failed lowering.
pub open spec fn error_message(e: ErrorModel) -> Seq<char> {
    match e {
        LoweringErrorOf::LayoutsNotText => "opaque_kernel_arg_layouts attribute must be a string"@,
        LoweringErrorOf::InvalidLayoutEntry { entry } => {
            "Invalid opaque kernel arg layout entry `"@ + entry + "`"@
        },
        LoweringErrorOf::InvalidLayoutIndex { text, error } => {
            "Invalid opaque kernel arg layout index `"@ + text + "`: "@ + number_error_text(error)
        },
        LoweringErrorOf::InvalidListValue { label, part, error } => {
            "Invalid "@ + label + " value `"@ + part + "`: "@ + number_error_text(error)
        },
        LoweringErrorOf::InvalidLayoutSize { text, error } => {
            "Invalid opaque kernel arg layout total size `"@ + text + "`: "@
                + number_error_text(error)
        },
        LoweringErrorOf::NoArgForOpaqueStruct { arg } => {
            "Entry block arg mismatch: no LLVM arg available for opaque struct argument "@
                + decimal(arg as nat)
        },
        LoweringErrorOf::TooFewArgsForSlice => {
            "Entry block arg mismatch: need 2 more LLVM args for slice"@
        },
        LoweringErrorOf::TooFewArgsForStruct { fields } => {
            "Entry block arg mismatch: need "@ + decimal(fields as nat)
                + " more LLVM args for struct"@
        },
        LoweringErrorOf::NoMoreArgs => "Entry block arg mismatch: no more LLVM args available"@,
        LoweringErrorOf::MissingFieldValue { field } => {
            "Entry block arg mismatch: missing flattened value for struct field "@
                + decimal(field as nat)
        },
        LoweringErrorOf::FieldWithoutIndex { field } => {
            "Struct field "@ + decimal(field as nat) + " has no LLVM field for reconstruction"@
        },
        LoweringErrorOf::UnusedFieldValues { count } => {
            "Entry block arg mismatch: "@ + decimal(count as nat)
                + " unused flattened struct values"@
        },
        LoweringErrorOf::FieldWithoutHostIndex { field } => {
            "Opaque struct field "@ + decimal(field as nat) + " has no host-layout LLVM field"@
        },
        LoweringErrorOf::FieldWithoutLogicalIndex { field } => {
            "Opaque struct field "@ + decimal(field as nat) + " has no logical LLVM field"@
        },
        LoweringErrorOf::NotAStruct => "Expected MIR struct type for aggregate reconstruction"@,
        LoweringErrorOf::Outside { text } => text,
    }
}

impl LoweringErrorOf<String> {
    /// The message of this failure.
    pub fn message(&self) -> (r: String)
        ensures
            r@ == error_message(self@),
    {
        let mut out: String = String::new();
        match self {
            LoweringErrorOf::LayoutsNotText => {
                out.append("opaque_kernel_arg_layouts attribute must be a string");
            },
            LoweringErrorOf::InvalidLayoutEntry { entry } => {
                out.append("Invalid opaque kernel arg layout entry `");
                out.append(entry.as_str());
                out.append("`");
            },
            LoweringErrorOf::InvalidLayoutIndex { text, error } => {
                out.append("Invalid opaque kernel arg layout index `");
                out.append(text.as_str());
                out.append("`: ");
                out.append(error.text());
            },
            LoweringErrorOf::InvalidListValue { label, part, error } => {
                out.append("Invalid ");
                out.append(label.as_str());
                out.append(" value `");
                out.append(part.as_str());
                out.append("`: ");
                out.append(error.text());
            },
            LoweringErrorOf::InvalidLayoutSize { text, error } => {
                out.append("Invalid opaque kernel arg layout total size `");
                out.append(text.as_str());
                out.append("`: ");
                out.append(error.text());
            },
            LoweringErrorOf::NoArgForOpaqueStruct { arg } => {
                out.append("Entry block arg mismatch: no LLVM arg available for opaque struct argument ");
                push_decimal(&mut out, *arg as u64);
            },
            LoweringErrorOf::TooFewArgsForSlice => {
                out.append("Entry block arg mismatch: need 2 more LLVM args for slice");
            },
            LoweringErrorOf::TooFewArgsForStruct { fields } => {
                out.append("Entry block arg mismatch: need ");
                push_decimal(&mut out, *fields as u64);
                out.append(" more LLVM args for struct");
            },
            LoweringErrorOf::NoMoreArgs => {
                out.append("Entry block arg mismatch: no more LLVM args available");
            },
            LoweringErrorOf::MissingFieldValue { field } => {
                out.append("Entry block arg mismatch: missing flattened value for struct field ");
                push_decimal(&mut out, *field as u64);
            },
            LoweringErrorOf::FieldWithoutIndex { field } => {
                out.append("Struct field ");
                push_decimal(&mut out, *field as u64);
                out.append(" has no LLVM field for reconstruction");
            },
            LoweringErrorOf::UnusedFieldValues { count } => {
                out.append("Entry block arg mismatch: ");
                push_decimal(&mut out, *count as u64);
                out.append(" unused flattened struct values");
            },
            LoweringErrorOf::FieldWithoutHostIndex { field } => {
                out.append("Opaque struct field ");
                push_decimal(&mut out, *field as u64);
                out.append(" has no host-layout LLVM field");
            },
            LoweringErrorOf::FieldWithoutLogicalIndex { field } => {
                out.append("Opaque struct field ");
                push_decimal(&mut out, *field as u64);
                out.append(" has no logical LLVM field");
            },
            LoweringErrorOf::NotAStruct => {
                out.append("Expected MIR struct type for aggregate reconstruction");
            },
            LoweringErrorOf::Outside { text } => {
                out.append(text.as_str());
            },
        }
        assert(out@ =~= error_message(self@));
        out
    }
}

}
