//! The messages of errors.
//!
//! Some messages show what an error carries: a value, an expression, or the text
//! of an internal error. How these look is for the caller to say, who hands in
//! one text for each.

use vstd::prelude::*;
use vstd::string::*;
use crate::error::{ExecutionError, Fault};
use crate::text::{decimal, decimal_text};
use crate::value::Val;

verus! {

/// How many texts the message of an error shows.
pub open spec fn shown_count(fault: Fault) -> nat {
    match fault {
        Fault::InvalidArgumentCount { .. } => 0,
        Fault::UnexpectedType { .. } => 0,
        Fault::NoSuchKey(..) => 0,
        Fault::NoSuchOverload => 0,
        Fault::UndeclaredReference(..) => 0,
        Fault::MissingArgumentOrTarget => 0,
        Fault::FunctionError { .. } => 0,
        Fault::CostLimitExceeded { .. } => 0,
        Fault::ValuesNotComparable(..) => 2,
        Fault::UnsupportedBinaryOperator(..) => 2,
        Fault::UnsupportedIndex(..) => 2,
        Fault::Overflow(..) => 2,
        _ => 1,
    }
}

/// The message of an error, where the things that it shows look like `shown`.
pub open spec fn message_text(fault: Fault, shown: Seq<Seq<char>>) -> Seq<char> {
    match fault {
        Fault::InvalidArgumentCount { expected, actual } => {
            "Invalid argument count: expected "@ + decimal(expected as nat) + ", got "@
                + decimal(actual as nat)
        },
        Fault::UnsupportedTargetType { .. } => "Invalid argument type: "@ + shown[0],
        Fault::NotSupportedAsMethod { method, .. } => {
            "Method '"@ + method + "' not supported on type '"@ + shown[0] + "'"@
        },
        Fault::UnsupportedKeyType(_) => "Unable to use value '"@ + shown[0] + "' as a key"@,
        Fault::UnexpectedType { got, want } => {
            "Unexpected type: got '"@ + got + "', want '"@ + want + "'"@
        },
        Fault::NoSuchKey(key) => "No such key: "@ + key,
        Fault::NoSuchOverload => "No such overload"@,
        Fault::UndeclaredReference(name) => "Undeclared reference to '"@ + name + "'"@,
        Fault::MissingArgumentOrTarget => "Missing argument or target"@,
        Fault::ValuesNotComparable(_, _) => shown[0] + " can not be compared to "@ + shown[1],
        Fault::UnsupportedUnaryOperator(op, _) => {
            "Unsupported unary operator '"@ + op + "': "@ + shown[0]
        },
        Fault::UnsupportedBinaryOperator(op, _, _) => {
            "Unsupported binary operator '"@ + op + "': "@ + shown[0] + ", "@ + shown[1]
        },
        Fault::UnsupportedMapIndex(_) => "Cannot use value as map index: "@ + shown[0],
        Fault::UnsupportedListIndex(_) => "Cannot use value as list index: "@ + shown[0],
        Fault::UnsupportedIndex(_, _) => "Cannot use value "@ + shown[0] + " to index "@ + shown[1],
        Fault::UnsupportedFunctionCallIdentifierType(_) => {
            "Unsupported function call identifier type: "@ + shown[0]
        },
        Fault::UnsupportedFieldsConstruction(_) => "Unsupported fields construction: "@ + shown[0],
        Fault::FunctionError { function, message } => {
            "Error executing function '"@ + function + "': "@ + message
        },
        Fault::DivisionByZero(_) => "Division by zero of "@ + shown[0],
        Fault::RemainderByZero(_) => "Remainder by zero of "@ + shown[0],
        Fault::Overflow(op, _, _) => {
            "Overflow from binary operator '"@ + op + "': "@ + shown[0] + ", "@ + shown[1]
        },
        Fault::IndexOutOfBounds(_) => "Index out of bounds: "@ + shown[0],
        Fault::CostLimitExceeded { limit, actual } => {
            "actual cost limit exceeded: limit "@ + decimal(limit as nat) + ", actual cost "@
                + decimal(actual as nat)
        },
        Fault::InternalError(_) => "InternalError: "@ + shown[0],
    }
}

/// The characters of some texts.
pub open spec fn texts_of(shown: Seq<String>) -> Seq<Seq<char>> {
    Seq::new(shown.len(), |i: int| shown[i]@)
}

impl ExecutionError {
    /// How many texts [`ExecutionError::message_showing`] takes.
    pub fn shown_count(&self) -> (count: usize)
        ensures
            count == shown_count(self@),
    {
        match self {
            ExecutionError::InvalidArgumentCount { .. } => 0,
            ExecutionError::UnexpectedType { .. } => 0,
            ExecutionError::NoSuchKey(..) => 0,
            ExecutionError::NoSuchOverload => 0,
            ExecutionError::UndeclaredReference(..) => 0,
            ExecutionError::MissingArgumentOrTarget => 0,
            ExecutionError::FunctionError { .. } => 0,
            ExecutionError::CostLimitExceeded { .. } => 0,
            ExecutionError::ValuesNotComparable(..) => 2,
            ExecutionError::UnsupportedBinaryOperator(..) => 2,
            ExecutionError::UnsupportedIndex(..) => 2,
            ExecutionError::Overflow(..) => 2,
            _ => 1,
        }
    }

    /// The message of the error. Each value, expression or internal text that it
    /// shows looks like its text in `shown`, in the order of the error's fields.
    pub fn message_showing(&self, shown: &[String]) -> (message: String)
        requires
            shown@.len() == shown_count(self@),
        ensures
            message@ == message_text(self@, texts_of(shown@)),
    {
        match self {
            ExecutionError::InvalidArgumentCount { expected, actual } => {
                "Invalid argument count: expected ".to_string()
                    .concat(decimal_text(*expected as u64).as_str())
                    .concat(", got ")
                    .concat(decimal_text(*actual as u64).as_str())
            },
            ExecutionError::UnsupportedTargetType { .. } => {
                "Invalid argument type: ".to_string().concat(shown[0].as_str())
            },
            ExecutionError::NotSupportedAsMethod { method, .. } => {
                "Method '".to_string()
                    .concat(method.as_str())
                    .concat("' not supported on type '")
                    .concat(shown[0].as_str())
                    .concat("'")
            },
            ExecutionError::UnsupportedKeyType(_) => {
                "Unable to use value '".to_string().concat(shown[0].as_str()).concat("' as a key")
            },
            ExecutionError::UnexpectedType { got, want } => {
                "Unexpected type: got '".to_string()
                    .concat(got.as_str())
                    .concat("', want '")
                    .concat(want.as_str())
                    .concat("'")
            },
            ExecutionError::NoSuchKey(key) => "No such key: ".to_string().concat(key.as_str()),
            ExecutionError::NoSuchOverload => "No such overload".to_string(),
            ExecutionError::UndeclaredReference(name) => {
                "Undeclared reference to '".to_string().concat(name.as_str()).concat("'")
            },
            ExecutionError::MissingArgumentOrTarget => "Missing argument or target".to_string(),
            ExecutionError::ValuesNotComparable(_, _) => {
                shown[0].as_str().to_string()
                    .concat(" can not be compared to ")
                    .concat(shown[1].as_str())
            },
            ExecutionError::UnsupportedUnaryOperator(op, _) => {
                "Unsupported unary operator '".to_string()
                    .concat(op)
                    .concat("': ")
                    .concat(shown[0].as_str())
            },
            ExecutionError::UnsupportedBinaryOperator(op, _, _) => {
                "Unsupported binary operator '".to_string()
                    .concat(op)
                    .concat("': ")
                    .concat(shown[0].as_str())
                    .concat(", ")
                    .concat(shown[1].as_str())
            },
            ExecutionError::UnsupportedMapIndex(_) => {
                "Cannot use value as map index: ".to_string().concat(shown[0].as_str())
            },
            ExecutionError::UnsupportedListIndex(_) => {
                "Cannot use value as list index: ".to_string().concat(shown[0].as_str())
            },
            ExecutionError::UnsupportedIndex(_, _) => {
                "Cannot use value ".to_string()
                    .concat(shown[0].as_str())
                    .concat(" to index ")
                    .concat(shown[1].as_str())
            },
            ExecutionError::UnsupportedFunctionCallIdentifierType(_) => {
                "Unsupported function call identifier type: ".to_string().concat(shown[0].as_str())
            },
            ExecutionError::UnsupportedFieldsConstruction(_) => {
                "Unsupported fields construction: ".to_string().concat(shown[0].as_str())
            },
            ExecutionError::FunctionError { function, message } => {
                "Error executing function '".to_string()
                    .concat(function.as_str())
                    .concat("': ")
                    .concat(message.as_str())
            },
            ExecutionError::DivisionByZero(_) => {
                "Division by zero of ".to_string().concat(shown[0].as_str())
            },
            ExecutionError::RemainderByZero(_) => {
                "Remainder by zero of ".to_string().concat(shown[0].as_str())
            },
            ExecutionError::Overflow(op, _, _) => {
                "Overflow from binary operator '".to_string()
                    .concat(op)
                    .concat("': ")
                    .concat(shown[0].as_str())
                    .concat(", ")
                    .concat(shown[1].as_str())
            },
            ExecutionError::IndexOutOfBounds(_) => {
                "Index out of bounds: ".to_string().concat(shown[0].as_str())
            },
            ExecutionError::CostLimitExceeded { limit, actual } => {
                "actual cost limit exceeded: limit ".to_string()
                    .concat(decimal_text(*limit).as_str())
                    .concat(", actual cost ")
                    .concat(decimal_text(*actual).as_str())
            },
            ExecutionError::InternalError(_) => {
                "InternalError: ".to_string().concat(shown[0].as_str())
            },
        }
    }

    /// The message of an error that shows no value, expression or internal text.
    /// For the others there is [`ExecutionError::message_showing`].
    pub fn message(&self) -> (message: Option<String>)
        ensures
            match message {
                Some(m) => shown_count(self@) == 0 && m@ == message_text(self@, seq![]),
                None => shown_count(self@) > 0,
            },
    {
        if self.shown_count() > 0 {
            return None;
        }
        let none: Vec<String> = Vec::new();
        assert(texts_of(none@) =~= seq![]);
        Some(self.message_showing(none.as_slice()))
    }
}

/// The message begins with the one text and ends with the other.
pub open spec fn framed(message: Seq<char>, first: Seq<char>, last: Seq<char>) -> bool {
    exists|middle: Seq<char>| message == first + #[trigger] (middle + last)
}

proof fn lemma_framed(first: Seq<char>, middle: Seq<char>, last: Seq<char>)
    ensures
        framed(first + middle + last, first, last),
        framed(first + last, first, last),
{
    assert(first + middle + last =~= first + (middle + last));
    assert(first + last =~= first + (Seq::<char>::empty() + last));
}

/// A message with two numbers tells what was allowed first, and what there was
/// at its end.
pub proof fn law_messages_tell_both_numbers(expected: usize, actual: usize, limit: u64, cost: u64)
    ensures
        framed(
            message_text(Fault::InvalidArgumentCount { expected, actual }, seq![]),
            "Invalid argument count: expected "@ + decimal(expected as nat),
            decimal(actual as nat),
        ),
        framed(
            message_text(Fault::CostLimitExceeded { limit, actual: cost }, seq![]),
            "actual cost limit exceeded: limit "@ + decimal(limit as nat),
            decimal(cost as nat),
        ),
{
    lemma_framed(
        "Invalid argument count: expected "@ + decimal(expected as nat),
        ", got "@,
        decimal(actual as nat),
    );
    lemma_framed(
        "actual cost limit exceeded: limit "@ + decimal(limit as nat),
        ", actual cost "@,
        decimal(cost as nat),
    );
}

/// A message about a name quotes it, and a message about a key ends with it.
pub proof fn law_messages_tell_the_name(name: Seq<char>, other: Seq<char>)
    ensures
        framed(
            message_text(Fault::UndeclaredReference(name), seq![]),
            "Undeclared reference to '"@ + name,
            "'"@,
        ),
        framed(message_text(Fault::NoSuchKey(name), seq![]), "No such key: "@, name),
        framed(
            message_text(Fault::UnexpectedType { got: name, want: other }, seq![]),
            "Unexpected type: got '"@ + name,
            other + "'"@,
        ),
        framed(
            message_text(Fault::FunctionError { function: name, message: other }, seq![]),
            "Error executing function '"@ + name,
            other,
        ),
{
    lemma_framed("Undeclared reference to '"@ + name, seq![], "'"@);
    lemma_framed("No such key: "@, seq![], name);
    lemma_framed("Unexpected type: got '"@ + name, "', want '"@, other + "'"@);
    assert("Unexpected type: got '"@ + name + "', want '"@ + other + "'"@
        =~= "Unexpected type: got '"@ + name + "', want '"@ + (other + "'"@));
    lemma_framed("Error executing function '"@ + name, "': "@, other);
}

/// A message about two operands shows the left one before the right one, and an
/// operator before both.
pub proof fn law_messages_show_operands_in_order(
    op: Seq<char>,
    l: Val,
    r: Val,
    left: Seq<char>,
    right: Seq<char>,
)
    ensures
        framed(
            message_text(Fault::Overflow(op, l, r), seq![left, right]),
            "Overflow from binary operator '"@ + op,
            left + ", "@ + right,
        ),
        framed(
            message_text(Fault::UnsupportedBinaryOperator(op, l, r), seq![left, right]),
            "Unsupported binary operator '"@ + op,
            left + ", "@ + right,
        ),
        framed(message_text(Fault::ValuesNotComparable(l, r), seq![left, right]), left, right),
        framed(
            message_text(Fault::UnsupportedIndex(l, r), seq![left, right]),
            "Cannot use value "@ + left,
            right,
        ),
        framed(message_text(Fault::DivisionByZero(l), seq![left]), "Division by zero"@, left),
        framed(message_text(Fault::RemainderByZero(l), seq![left]), "Remainder by zero"@, left),
{
    let overflow = "Overflow from binary operator '"@ + op;
    let unsupported = "Unsupported binary operator '"@ + op;
    lemma_framed(overflow, "': "@, left + ", "@ + right);
    assert(overflow + "': "@ + left + ", "@ + right =~= overflow + "': "@ + (left + ", "@ + right));
    lemma_framed(unsupported, "': "@, left + ", "@ + right);
    assert(unsupported + "': "@ + left + ", "@ + right =~= unsupported + "': "@ + (left + ", "@
        + right));
    lemma_framed(left, " can not be compared to "@, right);
    lemma_framed("Cannot use value "@ + left, " to index "@, right);
    reveal_strlit("Division by zero of ");
    reveal_strlit("Division by zero");
    reveal_strlit("Remainder by zero of ");
    reveal_strlit("Remainder by zero");
    reveal_strlit(" of ");
    assert("Division by zero of "@ =~= "Division by zero"@ + " of "@);
    assert("Remainder by zero of "@ =~= "Remainder by zero"@ + " of "@);
    lemma_framed("Division by zero"@, " of "@, left);
    lemma_framed("Remainder by zero"@, " of "@, left);
}

/// A message about one thing shows it, after a text that says what is wrong.
pub proof fn law_messages_show_what_they_are_about(fault: Fault, shown: Seq<char>)
    requires
        shown_count(fault) == 1,
    ensures
        exists|before: Seq<char>, after: Seq<char>|
            before.len() > 0 && message_text(fault, seq![shown]) == #[trigger] (before + shown
                + after),
{
    let message = message_text(fault, seq![shown]);
    let none = Seq::<char>::empty();
    reveal_strlit("Invalid argument type: ");
    reveal_strlit("Method '");
    reveal_strlit("Unable to use value '");
    reveal_strlit("Unsupported unary operator '");
    reveal_strlit("Cannot use value as map index: ");
    reveal_strlit("Cannot use value as list index: ");
    reveal_strlit("Unsupported function call identifier type: ");
    reveal_strlit("Unsupported fields construction: ");
    reveal_strlit("Division by zero of ");
    reveal_strlit("Remainder by zero of ");
    reveal_strlit("Index out of bounds: ");
    reveal_strlit("InternalError: ");
    let (before, after) = match fault {
        Fault::UnsupportedTargetType { .. } => ("Invalid argument type: "@, none),
        Fault::NotSupportedAsMethod { method, .. } => (
            "Method '"@ + method + "' not supported on type '"@,
            "'"@,
        ),
        Fault::UnsupportedKeyType(_) => ("Unable to use value '"@, "' as a key"@),
        Fault::UnsupportedUnaryOperator(op, _) => (
            "Unsupported unary operator '"@ + op + "': "@,
            none,
        ),
        Fault::UnsupportedMapIndex(_) => ("Cannot use value as map index: "@, none),
        Fault::UnsupportedListIndex(_) => ("Cannot use value as list index: "@, none),
        Fault::UnsupportedFunctionCallIdentifierType(_) => (
            "Unsupported function call identifier type: "@,
            none,
        ),
        Fault::UnsupportedFieldsConstruction(_) => ("Unsupported fields construction: "@, none),
        Fault::DivisionByZero(_) => ("Division by zero of "@, none),
        Fault::RemainderByZero(_) => ("Remainder by zero of "@, none),
        Fault::IndexOutOfBounds(_) => ("Index out of bounds: "@, none),
        _ => ("InternalError: "@, none),
    };
    assert(before + shown + none =~= before + shown);
    assert(message == before + shown + after);
}

} // verus!
