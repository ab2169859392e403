//! The active context: a named scope selecting which variable mapping the
//! resolver reads.  Persisting the selection is left to the caller.

use vstd::prelude::*;
use crate::errors::DooError;

verus! {

/// Holds the name of the currently selected context.
pub struct ContextManager {
    pub current_context: String,
}

impl View for ContextManager {
    type V = Seq<char>;

    open spec fn view(&self) -> Seq<char> {
        self.current_context@
    }
}

impl ContextManager {
    /// A manager starting in the context named `default`.
    pub fn new() -> (r: ContextManager)
        ensures
            r@ == "default"@,
    {
        ContextManager { current_context: "default".to_owned() }
    }

    /// A manager starting in the given context (for callers that restored a
    /// previously persisted selection).
    pub fn with_current(context: &str) -> (r: ContextManager)
        ensures
            r@ == context@,
    {
        ContextManager { current_context: context.to_owned() }
    }

    /// The name of the active context.
    pub fn current_context(&self) -> (r: &str)
        ensures
            r@ == self@,
    {
        self.current_context.as_str()
    }

    /// Selects another context.
    pub fn switch_context(&mut self, context: &str) -> (r: Result<(), DooError>)
        ensures
            r is Ok,
            final(self)@ == context@,
    {
        self.current_context = context.to_owned();
        Ok(())
    }
}

} // verus!
