//! The one place where a trace-completion handler is kept.
//!
//! A handler can be installed once. A second installation is refused and
//! leaves the first in place.

use vstd::prelude::*;

verus! {

/// Why a handler was not installed.
#[derive(Debug, Clone, Copy, PartialEq, Eq, Structural)]
pub enum ConfigError {
    /// A handler is installed already.
    AlreadyConfigured,
}

impl ConfigError {
    /// The error in words.
    pub fn message(&self) -> (text: &'static str)
        ensures
            text@ == "already configured"@,
    {
        "already configured"
    }
}

/// A write-once slot for a handler of type `H`.
pub struct CompletionSlot<H> {
    handler: Option<H>,
}

impl<H> CompletionSlot<H> {
    /// The handler that is installed, if any.
    pub closed spec fn installed(&self) -> Option<H> {
        self.handler
    }

    /// An empty slot.
    pub fn new() -> (slot: CompletionSlot<H>)
        ensures
            slot.installed() is None,
    {
        CompletionSlot { handler: None }
    }

    /// Install `handler`, unless one is installed already: then the call fails
    /// and the slot stays as it was.
    pub fn install(&mut self, handler: H) -> (r: Result<(), ConfigError>)
        ensures
            match old(self).installed() {
                Some(first) => r == Err::<(), ConfigError>(ConfigError::AlreadyConfigured)
                    && final(self).installed() == Some(first),
                None => r is Ok && final(self).installed() == Some(handler),
            },
    {
        if self.handler.is_some() {
            Err(ConfigError::AlreadyConfigured)
        } else {
            self.handler = Some(handler);
            Ok(())
        }
    }

    /// The handler that is installed, if any.
    pub fn handler(&self) -> (h: Option<&H>)
        ensures
            h is Some <==> self.installed() is Some,
            h matches Some(r) ==> self.installed() == Some(*r),
    {
        self.handler.as_ref()
    }
}

} // verus!
