use vstd::prelude::*;
use vstd::string::StringExecFns;

verus! {

/// What can go wrong when the interpreter reads or evaluates code.
#[derive(Debug, Clone)]
pub enum InterpreterError {
    /// The parser met a token that the grammar does not allow where it stands.
    UnexpectedToken {
        /// The text of the token that was found (empty at the end of the input).
        found: String,
        /// A description of what was expected instead.
        expect: &'static str,
        /// The byte index at which the token starts.
        index: usize,
    },
    /// Reduction went on for more steps than the interpreter's limit allows.
    ReductionLimit,
}

/// The mathematical content of an [`InterpreterError`].
pub enum ErrorView {
    UnexpectedToken { found: Seq<char>, expect: Seq<char>, index: nat },
    ReductionLimit,
}

impl View for InterpreterError {
    type V = ErrorView;

    open spec fn view(&self) -> ErrorView {
        match self {
            InterpreterError::UnexpectedToken { found, expect, index } => ErrorView::UnexpectedToken {
                found: found@,
                expect: expect@,
                index: *index as nat,
            },
            InterpreterError::ReductionLimit => ErrorView::ReductionLimit,
        }
    }
}

impl InterpreterError {
    /// The message that describes the error.
    pub fn message(&self) -> (res: String)
        ensures
            res@ == self.message_spec(),
    {
        let mut s = String::new();
        match self {
            InterpreterError::UnexpectedToken { found, expect, index } => {
                s.append("Syntax error: Expected ");
                s.append(expect);
                s.append(", found \"");
                s.append(found.as_str());
                s.append("\" at byte index ");
                crate::text::push_decimal(&mut s, *index);
            },
            InterpreterError::ReductionLimit => {
                s.append("Reduction limit exceeded");
            },
        }
        s
    }

    /// The message as a sequence of characters.
    pub open spec fn message_spec(&self) -> Seq<char> {
        match self {
            InterpreterError::UnexpectedToken { found, expect, index } => "Syntax error: Expected "@
                + expect@ + ", found \""@ + found@ + "\" at byte index "@ + crate::text::decimal(
                *index as nat,
            ),
            InterpreterError::ReductionLimit => "Reduction limit exceeded"@,
        }
    }
}

} // verus!
