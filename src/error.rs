use vstd::prelude::*;

verus! {

/// The ways an execution can fail. Each carries a human-readable detail.
#[derive(Debug)]
pub enum QuasarError {
    VariableNotFound(String),
    TypeError(String),
    ExternalFunctionError(String),
    InvalidOperation(String),
    RuntimeError(String),
}

impl QuasarError {
    /// The detail carried by the error.
    pub open spec fn detail(&self) -> Seq<char> {
        match self {
            QuasarError::VariableNotFound(s) => s@,
            QuasarError::TypeError(s) => s@,
            QuasarError::ExternalFunctionError(s) => s@,
            QuasarError::InvalidOperation(s) => s@,
            QuasarError::RuntimeError(s) => s@,
        }
    }

    /// The heading that introduces the error's detail in a message.
    pub open spec fn heading(&self) -> Seq<char> {
        match self {
            QuasarError::VariableNotFound(_) => "Variable not found: "@,
            QuasarError::TypeError(_) => "Type error: "@,
            QuasarError::ExternalFunctionError(_) => "External function error: "@,
            QuasarError::InvalidOperation(_) => "Invalid operation: "@,
            QuasarError::RuntimeError(_) => "Runtime error: "@,
        }
    }

    /// The full message: heading followed by detail.
    pub fn message(&self) -> (r: String)
        ensures
            r@ == self.heading() + self.detail(),
    {
        let (head, detail) = match self {
            QuasarError::VariableNotFound(s) => (String::from_str("Variable not found: "), s),
            QuasarError::TypeError(s) => (String::from_str("Type error: "), s),
            QuasarError::ExternalFunctionError(s) => (
                String::from_str("External function error: "),
                s,
            ),
            QuasarError::InvalidOperation(s) => (String::from_str("Invalid operation: "), s),
            QuasarError::RuntimeError(s) => (String::from_str("Runtime error: "), s),
        };
        head.concat(detail.as_str())
    }
}

} // verus!
