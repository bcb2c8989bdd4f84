//! Drive identifiers as users type them.
use vstd::prelude::*;
use crate::outside::{upper_of, uppercase};
use crate::text::chars_of;

verus! {

pub open spec fn is_ascii_letter(c: char) -> bool {
    ('a' <= c && c <= 'z') || ('A' <= c && c <= 'Z')
}

/// The root path named by an upper-cased drive identifier: a single letter
/// `X` names `X:/`, and `X:/` names itself. Anything else names none.
pub open spec fn drive_root_spec(up: Seq<char>) -> Option<Seq<char>> {
    if up.len() == 1 && is_ascii_letter(up[0]) {
        Some(up + ":/"@)
    } else if up.len() == 3 && is_ascii_letter(up[0]) && up[1] == ':' && up[2] == '/' {
        Some(up)
    } else {
        None
    }
}

/// Why a drive identifier was refused.
#[derive(Debug, Clone, Copy, PartialEq, Eq, Structural)]
pub enum DriveError {
    /// Neither a single letter nor a letter followed by `:/`.
    InvalidFormat,
}

/// The root path named by `up`, an identifier already in upper case.
pub fn drive_root_of(up: String) -> (r: Option<String>)
    ensures
        match r {
            Some(s) => drive_root_spec(up@) == Some(s@),
            None => drive_root_spec(up@) is None,
        },
{
    let cs = chars_of(up.as_str());
    let letter = cs.len() >= 1 && (('a' <= cs[0] && cs[0] <= 'z') || ('A' <= cs[0] && cs[0] <= 'Z'));
    if cs.len() == 1 && letter {
        Some(up.concat(":/"))
    } else if cs.len() == 3 && letter && cs[1] == ':' && cs[2] == '/' {
        Some(up)
    } else {
        None
    }
}

/// Validates a drive identifier and puts it in the form `X:/` (upper case).
pub fn validate_and_format_drive(drive: &str) -> (r: Result<String, DriveError>)
    ensures
        match r {
            Ok(s) => drive_root_spec(upper_of(drive@)) == Some(s@),
            Err(_) => drive_root_spec(upper_of(drive@)) is None,
        },
{
    match drive_root_of(uppercase(drive)) {
        Some(s) => Ok(s),
        None => Err(DriveError::InvalidFormat),
    }
}

} // verus!
