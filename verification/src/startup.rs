//! What is settled before a run starts: that there is a credential, and that
//! the source language is one that the backend knows.

use crate::language::{backend_id, match_to_deepl_lang};
use vstd::prelude::*;

verus! {

/// Why a run cannot start.
#[derive(Debug, Clone, Copy, PartialEq, Eq, Structural)]
pub enum StartupError {
    /// No credential for the backend was given.
    MissingCredential,
    /// The backend has no identifier for the source language.
    UnsupportedSourceLanguage,
}

/// Checks what a run is started with. The credential comes first: without
/// one the source language is not looked at.
pub fn check_arguments(auth_key: &str, source_language: &str) -> (checked: Result<
    (),
    StartupError,
>)
    ensures
        checked == if auth_key@.len() == 0 {
            Err::<(), StartupError>(StartupError::MissingCredential)
        } else if backend_id(source_language@) is None {
            Err(StartupError::UnsupportedSourceLanguage)
        } else {
            Ok(())
        },
{
    if auth_key.is_empty() {
        Err(StartupError::MissingCredential)
    } else if match_to_deepl_lang(source_language).is_none() {
        Err(StartupError::UnsupportedSourceLanguage)
    } else {
        Ok(())
    }
}

} // verus!
