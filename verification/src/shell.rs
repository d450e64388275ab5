//! Driving an enclosing interactive shell: a capability set of
//! operations, with derived git operations, and fan-out to several
//! targets at once with per-target fault isolation.

use vstd::prelude::*;

use vstd::string::StringSliceAdditionalSpecFns;

verus! {

/// A sink for emitted command lines: the rim an embedding provides
/// (a file, a pipe, an in-memory buffer).
pub trait ByteSink {
    fn write_line(&mut self, line: &str) -> Result<(), ()>;
}

/// An in-memory sink: every line lands whole at the end of the
/// buffer, and writing never fails.
impl ByteSink for Vec<u8> {
    fn write_line(&mut self, line: &str) -> (r: Result<(), ()>)
        ensures
            r is Ok,
            final(self)@ == old(self)@ + line.spec_bytes(),
    {
        self.extend_from_slice(line.as_bytes());
        Ok(())
    }
}

/// A target able to receive shell commands.  An implementation emits
/// each operation to its sink and reports a failed emission as Err.
pub trait Shell {
    fn cd(&mut self, path: &str) -> Result<(), ()>;

    fn cmd(&mut self, exe: &str, args: &Vec<String>) -> Result<(), ()>;

    fn env(&mut self, key: &str, val: &str) -> Result<(), ()>;

    /// Checking a branch out is `git checkout <branch>`, expressed
    /// purely through `cmd`.
    fn checkout(&mut self, branch: &str) -> Result<(), ()> {
        let mut args: Vec<String> = Vec::new();
        args.push(String::from_str("checkout"));
        args.push(String::from_str(branch));
        self.cmd("git", &args)
    }

    /// Creating a branch is `git checkout -b <branch>`, with
    /// `--no-track <source>` when a source is named.
    fn new_branch(&mut self, branch: &str, source: Option<&str>) -> Result<(), ()> {
        let mut args: Vec<String> = Vec::new();
        args.push(String::from_str("checkout"));
        args.push(String::from_str("-b"));
        args.push(String::from_str(branch));
        match source {
            None => (),
            Some(source) => {
                args.push(String::from_str("--no-track"));
                args.push(String::from_str(source));
            },
        }
        self.cmd("git", &args)
    }
}

/// Several targets driven as one: each member is offered the
/// operation once, in order; a member whose emission fails is removed
/// for good, every other member keeps receiving commands, and the
/// fan-out itself always reports success — one broken sink never
/// aborts the session.  The contract pins what holds of every
/// outcome: the call succeeds and the target set never grows; which
/// members remain, and what state each reaches, depend on the
/// members' own uncontracted emissions.
impl<S: Shell> Shell for Vec<S> {
    fn cd(&mut self, path: &str) -> (r: Result<(), ()>)
        ensures
            r is Ok,
            final(self)@.len() <= old(self)@.len(),
    {
        let mut i: usize = 0;
        while i != self.len()
            invariant
                i <= self@.len(),
                self@.len() <= old(self)@.len(),
            decreases self@.len() - i,
        {
            match self[i].cd(path) {
                Ok(_) => {
                    i += 1;
                },
                Err(_) => {
                    self.remove(i);
                },
            }
        }
        Ok(())
    }

    fn cmd(&mut self, exe: &str, args: &Vec<String>) -> (r: Result<(), ()>)
        ensures
            r is Ok,
            final(self)@.len() <= old(self)@.len(),
    {
        let mut i: usize = 0;
        while i != self.len()
            invariant
                i <= self@.len(),
                self@.len() <= old(self)@.len(),
            decreases self@.len() - i,
        {
            match self[i].cmd(exe, args) {
                Ok(_) => {
                    i += 1;
                },
                Err(_) => {
                    self.remove(i);
                },
            }
        }
        Ok(())
    }

    fn env(&mut self, key: &str, val: &str) -> (r: Result<(), ()>)
        ensures
            r is Ok,
            final(self)@.len() <= old(self)@.len(),
    {
        let mut i: usize = 0;
        while i != self.len()
            invariant
                i <= self@.len(),
                self@.len() <= old(self)@.len(),
            decreases self@.len() - i,
        {
            match self[i].env(key, val) {
                Ok(_) => {
                    i += 1;
                },
                Err(_) => {
                    self.remove(i);
                },
            }
        }
        Ok(())
    }
}

/// A boxed target behaves as the target it holds.
impl Shell for Box<dyn Shell> {
    fn cd(&mut self, path: &str) -> Result<(), ()> {
        (**self).cd(path)
    }

    fn cmd(&mut self, exe: &str, args: &Vec<String>) -> Result<(), ()> {
        (**self).cmd(exe, args)
    }

    fn env(&mut self, key: &str, val: &str) -> Result<(), ()> {
        (**self).env(key, val)
    }
}

} // verus!
