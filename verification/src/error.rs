//! What can go wrong in a pass.

use vstd::prelude::*;
use vstd::string::StringExecFns;

verus! {

/// The error that ends a pass.
#[derive(Debug, PartialEq, Eq)]
pub enum PassError {
    /// A variable was read that no declaration before it binds; holds its name.
    UnresolvedIdentifier(String),
    /// An operation on two literals has no value: its result does not fit, or it
    /// divides by zero.
    ArithmeticFault,
}

impl PassError {
    /// The text of [`PassError::message`].
    pub open spec fn message_text(&self) -> Seq<char> {
        match *self {
            PassError::UnresolvedIdentifier(name) => "Failed to look up name '"@ + name@ + "'"@,
            PassError::ArithmeticFault => "Arithmetic fault in a constant expression"@,
        }
    }

    /// The error in words.
    pub fn message(&self) -> (text: String)
        ensures
            text@ == self.message_text(),
    {
        match self {
            PassError::UnresolvedIdentifier(name) => {
                let mut text = String::from_str("Failed to look up name '");
                text.append(name.as_str());
                text.append("'");
                text
            },
            PassError::ArithmeticFault => String::from_str(
                "Arithmetic fault in a constant expression",
            ),
        }
    }
}

} // verus!
