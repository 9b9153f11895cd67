//! What a failure says.

use vstd::prelude::*;

use crate::error::{error_message, ErrorModel, LoweringError, LoweringErrorOf};
use crate::number::{decimal, number_error_text, NumberError};

verus! {

/// A model says of a failure which one it is and what it quotes, so that failures with the same
/// model are of the same kind and quote the same texts and numbers.
pub proof fn models_tell_failures_apart(a: LoweringError, b: LoweringError)
    requires
        a@ == b@,
    ensures
        match a {
            LoweringErrorOf::LayoutsNotText => b is LayoutsNotText && a@ is LayoutsNotText,
            LoweringErrorOf::InvalidLayoutEntry { entry } => b
                matches LoweringErrorOf::InvalidLayoutEntry { entry: other } && other@ == entry@
                && a@ == (ErrorModel::InvalidLayoutEntry { entry: entry@ }),
            LoweringErrorOf::InvalidLayoutIndex { text, error } => b
                matches LoweringErrorOf::InvalidLayoutIndex { text: t, error: e } && t@ == text@
                && e == error && a@ == (ErrorModel::InvalidLayoutIndex { text: text@, error }),
            LoweringErrorOf::InvalidListValue { label, part, error } => b
                matches LoweringErrorOf::InvalidListValue { label: l, part: p, error: e } && l@
                == label@ && p@ == part@ && e == error && a@ == (ErrorModel::InvalidListValue {
                label: label@,
                part: part@,
                error,
            }),
            LoweringErrorOf::InvalidLayoutSize { text, error } => b
                matches LoweringErrorOf::InvalidLayoutSize { text: t, error: e } && t@ == text@ && e
                == error && a@ == (ErrorModel::InvalidLayoutSize { text: text@, error }),
            LoweringErrorOf::NoArgForOpaqueStruct { arg } => b == a && a@ == (
            ErrorModel::NoArgForOpaqueStruct { arg }),
            LoweringErrorOf::TooFewArgsForSlice => b == a && a@ is TooFewArgsForSlice,
            LoweringErrorOf::TooFewArgsForStruct { fields } => b == a && a@ == (
            ErrorModel::TooFewArgsForStruct { fields }),
            LoweringErrorOf::NoMoreArgs => b == a && a@ is NoMoreArgs,
            LoweringErrorOf::MissingFieldValue { field } => b == a && a@ == (
            ErrorModel::MissingFieldValue { field }),
            LoweringErrorOf::FieldWithoutIndex { field } => b == a && a@ == (
            ErrorModel::FieldWithoutIndex { field }),
            LoweringErrorOf::UnusedFieldValues { count } => b == a && a@ == (
            ErrorModel::UnusedFieldValues { count }),
            LoweringErrorOf::FieldWithoutHostIndex { field } => b == a && a@ == (
            ErrorModel::FieldWithoutHostIndex { field }),
            LoweringErrorOf::FieldWithoutLogicalIndex { field } => b == a && a@ == (
            ErrorModel::FieldWithoutLogicalIndex { field }),
            LoweringErrorOf::NotAStruct => b == a && a@ is NotAStruct,
            LoweringErrorOf::Outside { text } => b matches LoweringErrorOf::Outside { text: t }
                && t@ == text@ && a@ == (ErrorModel::Outside { text: text@ }),
        },
{
}

/// Messages quote the whole text that failed and why it is no number.
pub proof fn messages_quote_the_text(
    text: Seq<char>,
    label: Seq<char>,
    error: NumberError,
)
    ensures
        error_message(ErrorModel::Outside { text }) == text,
        error_message(ErrorModel::InvalidLayoutEntry { entry: text })
            == "Invalid opaque kernel arg layout entry `"@ + text + "`"@,
        error_message(ErrorModel::InvalidLayoutIndex { text, error })
            == "Invalid opaque kernel arg layout index `"@ + text + "`: "@ + number_error_text(
            error,
        ),
        error_message(ErrorModel::InvalidListValue { label, part: text, error }) == "Invalid "@
            + label + " value `"@ + text + "`: "@ + number_error_text(error),
        error_message(ErrorModel::InvalidLayoutSize { text, error })
            == "Invalid opaque kernel arg layout total size `"@ + text + "`: "@
            + number_error_text(error),
{
}

/// Messages give the number of the argument, the field or the values in decimal.
pub proof fn messages_give_the_number(n: usize)
    ensures
        error_message(ErrorModel::NoArgForOpaqueStruct { arg: n })
            == "Entry block arg mismatch: no LLVM arg available for opaque struct argument "@
            + decimal(n as nat),
        error_message(ErrorModel::TooFewArgsForStruct { fields: n })
            == "Entry block arg mismatch: need "@ + decimal(n as nat)
            + " more LLVM args for struct"@,
        error_message(ErrorModel::MissingFieldValue { field: n })
            == "Entry block arg mismatch: missing flattened value for struct field "@ + decimal(
            n as nat,
        ),
        error_message(ErrorModel::FieldWithoutIndex { field: n }) == "Struct field "@ + decimal(
            n as nat,
        ) + " has no LLVM field for reconstruction"@,
        error_message(ErrorModel::UnusedFieldValues { count: n }) == "Entry block arg mismatch: "@
            + decimal(n as nat) + " unused flattened struct values"@,
        error_message(ErrorModel::FieldWithoutHostIndex { field: n }) == "Opaque struct field "@
            + decimal(n as nat) + " has no host-layout LLVM field"@,
        error_message(ErrorModel::FieldWithoutLogicalIndex { field: n }) == "Opaque struct field "@
            + decimal(n as nat) + " has no logical LLVM field"@,
{
}

}
