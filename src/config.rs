//! Unit file configuration: the declarative description of a service or a
//! timer.

use vstd::prelude::*;

verus! {

/// Shell used where a unit names none.
pub fn shell() -> (r: String)
    ensures
        r@ == "/bin/sh"@,
{
    "/bin/sh".to_owned()
}

/// Top level unit file structure.
pub struct Unit {
    /// Human readable description, printed when listing units.
    pub description: String,
    /// Shell used for interpreting shell commands: an absolute path to any
    /// executable which accepts a program on stdin.
    pub shell: String,
    pub unit_type: Type,
}

/// Exactly one type of unit is configured.
pub enum Type {
    Service(Service),
    Timer(Timer),
}

/// Exactly one way to run is configured.
pub enum Run {
    /// Execute a file with arguments.
    Exec(Vec<String>),
    /// Use the configured shell to execute a script.
    Shell(String),
}

/// Starts and maintains a child process.
pub struct Service {
    pub run: Run,
}

/// Runs periodically according to the configuration.
pub struct Timer {
    pub run: Run,
    /// Start immediately for the first time, don't wait for the first
    /// scheduled time.
    pub on_startup: bool,
}

impl Unit {
    /// A unit with the fields that were given; a missing description is
    /// empty and a missing shell is `/bin/sh`.
    pub fn new(description: Option<String>, shell: Option<String>, unit_type: Type) -> (r: Unit)
        ensures
            r.description@ == match description {
                Some(d) => d@,
                None => Seq::<char>::empty(),
            },
            r.shell@ == match shell {
                Some(s) => s@,
                None => "/bin/sh"@,
            },
            r.unit_type == unit_type,
    {
        let description = match description {
            Some(d) => d,
            None => String::new(),
        };
        let shell = match shell {
            Some(s) => s,
            None => crate::config::shell(),
        };
        Unit { description, shell, unit_type }
    }
}

} // verus!
