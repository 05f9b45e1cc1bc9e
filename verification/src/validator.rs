//! Checks of keys and values before they are written.
use vstd::prelude::*;
use vstd::string::StringSliceAdditionalSpecFns;
use crate::constants::{MAX_KEY_LENGTH, MAX_VALUE_LENGTH};

verus! {

/// A key is non-empty and at most `MAX_KEY_LENGTH` bytes long.
pub fn check_key(key: &str) -> (r: bool)
    ensures
        r == (key@.len() > 0 && key.spec_bytes().len() <= MAX_KEY_LENGTH),
{
    !key.is_empty() && key.as_bytes().len() <= MAX_KEY_LENGTH
}

/// A value is non-empty and at most `MAX_VALUE_LENGTH` bytes long.
pub fn check_value(value: &str) -> (r: bool)
    ensures
        r == (value@.len() > 0 && value.spec_bytes().len() <= MAX_VALUE_LENGTH),
{
    !value.is_empty() && value.as_bytes().len() <= MAX_VALUE_LENGTH
}

} // verus!
