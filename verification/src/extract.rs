//! Interpreting the code-signing inspector's output.
//!
//! The inspector itself is an external process; the caller hands over its
//! exit code and captured streams. This module decides, exactly as stated in
//! `inspection_contract`, whether that run yields an entitlement dictionary
//! or which failure it is: a reported inspection failure carrying the decoded
//! streams, a stream that is not text, or output that is not a property list
//! with a dictionary root.

use vstd::prelude::*;
use crate::codec::{parse_dictionary, plist_dict_of};
use crate::dict::Entitlements;
use vstd::utf8::{decode_utf8, valid_utf8};

verus! {

/// The stream of the inspector whose bytes were not valid text.
#[derive(PartialEq, Eq, Structural, Clone, Copy, Debug)]
pub enum StreamName {
    Stdout,
    Stderr,
}

/// Why no entitlement dictionary could be extracted.
#[derive(Debug)]
pub enum ExtractError {
    /// The inspector exited with a failure; its decoded streams are carried
    /// for diagnostics.
    InspectionFailed { exit_code: Option<i32>, stdout: String, stderr: String },
    /// A stream of a failed inspection was not valid text.
    InvalidProcessOutput { stream: StreamName },
    /// The inspector succeeded but its output is not a property list with a
    /// dictionary root; the carried text says what went wrong.
    MalformedEntitlements { detail: String },
}

/// What `interpret_inspection` returns for a given inspector run: a
/// dictionary exactly when the inspector succeeded and emitted a
/// property-list document with a dictionary root, and otherwise the one
/// failure that run falls under.
pub open spec fn inspection_contract(
    exit_code: Option<i32>,
    stdout: Seq<u8>,
    stderr: Seq<u8>,
    r: Result<Entitlements, ExtractError>,
) -> bool {
    if exit_code == Some(0i32) {
        match plist_dict_of(stdout) {
            Some(es) => match r {
                Ok(e) => e@ == es,
                Err(_) => false,
            },
            None => match r {
                Err(ExtractError::MalformedEntitlements { .. }) => true,
                _ => false,
            },
        }
    } else if !valid_utf8(stdout) {
        r == Err::<Entitlements, ExtractError>(
            ExtractError::InvalidProcessOutput { stream: StreamName::Stdout },
        )
    } else if !valid_utf8(stderr) {
        r == Err::<Entitlements, ExtractError>(
            ExtractError::InvalidProcessOutput { stream: StreamName::Stderr },
        )
    } else {
        match r {
            Err(ExtractError::InspectionFailed { exit_code: c, stdout: so, stderr: se }) => c
                == exit_code && so@ == decode_utf8(stdout) && se@ == decode_utf8(stderr),
            _ => false,
        }
    }
}

/// Relies on String::from_utf8: it succeeds exactly on valid UTF-8 and
/// decodes it as vstd's `decode_utf8` states.
#[verifier::external_body]
fn utf8_string(bytes: Vec<u8>) -> (r: Option<String>)
    ensures
        r is Some <==> valid_utf8(bytes@),
        r matches Some(s) ==> s@ == decode_utf8(bytes@),
{
    String::from_utf8(bytes).ok()
}

/// Turns one run of the code-signing inspector into an entitlement
/// dictionary, or into the failure that run falls under.
pub fn interpret_inspection(exit_code: Option<i32>, stdout: Vec<u8>, stderr: Vec<u8>) -> (r: Result<
    Entitlements,
    ExtractError,
>)
    ensures
        inspection_contract(exit_code, stdout@, stderr@, r),
{
    let succeeded = match exit_code {
        Some(c) => c == 0,
        None => false,
    };
    if !succeeded {
        let out_text = match utf8_string(stdout) {
            Some(s) => s,
            None => {
                return Err(ExtractError::InvalidProcessOutput { stream: StreamName::Stdout });
            },
        };
        let err_text = match utf8_string(stderr) {
            Some(s) => s,
            None => {
                return Err(ExtractError::InvalidProcessOutput { stream: StreamName::Stderr });
            },
        };
        return Err(
            ExtractError::InspectionFailed { exit_code, stdout: out_text, stderr: err_text },
        );
    }
    match parse_dictionary(stdout.as_slice()) {
        Ok(entries) => Ok(Entitlements::from_entries(entries)),
        Err(detail) => Err(ExtractError::MalformedEntitlements { detail }),
    }
}

} // verus!
