use crate::common::number::append_bytes;
use crate::config::settings::Verbosity;
use vstd::prelude::*;

verus! {

/// The bytes `Error: `.
pub open spec fn error_prefix() -> Seq<u8> {
    seq![69u8, 114u8, 114u8, 111u8, 114u8, 58u8, 32u8]
}

/// The bytes `Warning: `.
pub open spec fn warning_prefix() -> Seq<u8> {
    seq![87u8, 97u8, 114u8, 110u8, 105u8, 110u8, 103u8, 58u8, 32u8]
}

/// Something that decides what of a message reaches the user. Each method
/// gives the line to show, or nothing where the message is held back.
pub trait Logger {
    /// How much is shown, in contracts.
    spec fn spec_verbosity(&self) -> Verbosity;

    /// The line for an error: it is always shown, after `Error: `.
    fn error(&self, message: &[u8]) -> (line: Option<Vec<u8>>)
        ensures
            line matches Some(shown) && shown@ == error_prefix() + message@,
    ;

    /// The line for a warning: it is shown, after `Warning: `, unless only
    /// errors are.
    fn warning(&self, message: &[u8]) -> (line: Option<Vec<u8>>)
        ensures
            self.spec_verbosity() == Verbosity::Error ==> line is None,
            self.spec_verbosity() != Verbosity::Error ==> (line matches Some(shown) && shown@
                == warning_prefix() + message@),
    ;

    /// The line for a remark: it is shown, as it is, where everything is.
    fn debug(&self, message: &[u8]) -> (line: Option<Vec<u8>>)
        ensures
            self.spec_verbosity() != Verbosity::Debug ==> line is None,
            self.spec_verbosity() == Verbosity::Debug ==> (line matches Some(shown) && shown@
                == message@),
    ;
}

/// The logger of the program: it shows what its verbosity admits.
#[derive(Debug, PartialEq, Eq, Clone, Copy, Structural)]
pub struct UserLogger {
    verbosity: Verbosity,
}

impl UserLogger {
    /// A logger that shows what the given verbosity admits.
    pub fn with_verbosity(verbosity: &Verbosity) -> (logger: UserLogger)
        ensures
            logger.spec_verbosity() == *verbosity,
    {
        UserLogger { verbosity: *verbosity }
    }
}

impl Logger for UserLogger {
    closed spec fn spec_verbosity(&self) -> Verbosity {
        self.verbosity
    }

    fn error(&self, message: &[u8]) -> (line: Option<Vec<u8>>) {
        let mut line: Vec<u8> = vec![69u8, 114u8, 114u8, 111u8, 114u8, 58u8, 32u8];
        proof {
            assert(line@ =~= error_prefix());
        }
        append_bytes(&mut line, message);
        Some(line)
    }

    fn warning(&self, message: &[u8]) -> (line: Option<Vec<u8>>) {
        match self.verbosity {
            Verbosity::Error => None,
            Verbosity::Warning | Verbosity::Debug => {
                let mut line: Vec<u8> = vec![
                    87u8,
                    97u8,
                    114u8,
                    110u8,
                    105u8,
                    110u8,
                    103u8,
                    58u8,
                    32u8,
                ];
                proof {
                    assert(line@ =~= warning_prefix());
                }
                append_bytes(&mut line, message);
                Some(line)
            },
        }
    }

    fn debug(&self, message: &[u8]) -> (line: Option<Vec<u8>>) {
        match self.verbosity {
            Verbosity::Debug => {
                let mut line: Vec<u8> = Vec::new();
                append_bytes(&mut line, message);
                proof {
                    assert(line@ =~= message@);
                }
                Some(line)
            },
            Verbosity::Warning | Verbosity::Error => None,
        }
    }
}

} // verus!
