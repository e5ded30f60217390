//! Errors of the engine: a message, fixed or made at run time.

use vstd::prelude::*;
use vstd::std_specs::convert::{FromSpec, FromSpecImpl};

verus! {

/// Anything that can report what went wrong as a message.
pub trait EngineErrorTrait {
    /// The message, as plain text.
    spec fn message(&self) -> Seq<char>;

    /// The message of the error.
    fn get_error_message(&self) -> (s: &str)
        ensures
            s@ == self.message(),
    ;
}

/// An error with a message that is fixed in the program text.
#[derive(Debug)]
pub struct StaticEngineError {
    s: &'static str,
}

impl EngineErrorTrait for StaticEngineError {
    closed spec fn message(&self) -> Seq<char> {
        self.s@
    }

    fn get_error_message(&self) -> (s: &str) {
        self.s
    }
}

/// An error with a message that was put together at run time.
#[derive(Debug)]
pub struct DynamicEngineError {
    s: String,
}

impl EngineErrorTrait for DynamicEngineError {
    closed spec fn message(&self) -> Seq<char> {
        self.s@
    }

    fn get_error_message(&self) -> (s: &str) {
        self.s.as_str()
    }
}

/// Any error of the engine.
#[derive(Debug)]
pub enum EngineError {
    Static(StaticEngineError),
    Dynamic(DynamicEngineError),
}

impl EngineErrorTrait for EngineError {
    open spec fn message(&self) -> Seq<char> {
        match self {
            EngineError::Static(e) => e.message(),
            EngineError::Dynamic(e) => e.message(),
        }
    }

    fn get_error_message(&self) -> (s: &str) {
        match self {
            EngineError::Static(e) => e.get_error_message(),
            EngineError::Dynamic(e) => e.get_error_message(),
        }
    }
}

impl From<&'static str> for EngineError {
    fn from(s: &'static str) -> (e: EngineError) {
        EngineError::Static(StaticEngineError { s })
    }
}

impl FromSpecImpl<&'static str> for EngineError {
    open spec fn obeys_from_spec() -> bool {
        true
    }

    closed spec fn from_spec(s: &'static str) -> EngineError {
        EngineError::Static(StaticEngineError { s })
    }
}

impl From<String> for EngineError {
    fn from(s: String) -> (e: EngineError) {
        EngineError::Dynamic(DynamicEngineError { s })
    }
}

impl FromSpecImpl<String> for EngineError {
    open spec fn obeys_from_spec() -> bool {
        true
    }

    closed spec fn from_spec(s: String) -> EngineError {
        EngineError::Dynamic(DynamicEngineError { s })
    }
}

/// An error made from a fixed text carries that text as its message.
pub proof fn lemma_static_message(s: &'static str)
    ensures
        <EngineError as FromSpec<&'static str>>::from_spec(s).message() == s@,
{
}

/// An error made from a string carries that string as its message.
pub proof fn lemma_dynamic_message(s: String)
    ensures
        <EngineError as FromSpec<String>>::from_spec(s).message() == s@,
{
}

} // verus!
