//! The shell's current and previous working directories.
use vstd::prelude::*;

verus! {

/// Tracks the shell's current and previous working directories,
/// enabling `cd -` (return to the previous directory).
#[derive(Debug)]
pub struct PwdState {
    current_dir: String,
    old_dir: String,
}

impl View for PwdState {
    /// The current directory, then the previous one.
    type V = (Seq<char>, Seq<char>);

    closed spec fn view(&self) -> (Seq<char>, Seq<char>) {
        (self.current_dir@, self.old_dir@)
    }
}

impl PwdState {
    /// A state with the given current and previous directories.
    pub fn new(current_dir: String, old_dir: String) -> (s: Self)
        ensures
            s@ == (current_dir@, old_dir@),
    {
        Self { current_dir, old_dir }
    }

    /// Updates both the current and the previous directory at once.
    pub fn set_states(&mut self, new_current: String, new_old: String)
        ensures
            final(self)@ == (new_current@, new_old@),
    {
        self.current_dir = new_current;
        self.old_dir = new_old;
    }

    /// Records a successful change of directory: the new current directory,
    /// and the one it was left for as the previous directory (where `cd -`
    /// goes back to).
    pub fn after_cd(&mut self, new_current: String)
        ensures
            final(self)@ == (new_current@, old(self)@.0),
    {
        let before = self.current_dir.clone();
        self.current_dir = new_current;
        self.old_dir = before;
    }

    /// The current directory.
    pub fn get_current_dir(&self) -> (r: String)
        ensures
            r@ == self@.0,
    {
        self.current_dir.clone()
    }

    /// The previous directory.
    pub fn get_old_dir(&self) -> (r: String)
        ensures
            r@ == self@.1,
    {
        self.old_dir.clone()
    }
}

} // verus!
