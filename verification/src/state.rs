//! The state that commands read and change: the aliases.
use vstd::prelude::*;
use crate::aliases::AliasTable;

verus! {

/// The shell's state as the parser and the builtins see it.
pub struct ShellState {
    pub aliases: AliasTable,
}

impl ShellState {
    /// The state is well formed.
    pub open spec fn wf(&self) -> bool {
        self.aliases.wf()
    }

    /// A state with the given aliases.
    pub fn new(aliases: AliasTable) -> (r: ShellState)
        ensures
            r.aliases == aliases,
    {
        ShellState { aliases }
    }
}

} // verus!
