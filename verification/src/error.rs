use vstd::prelude::*;
use vstd::string::StringExecFns;

use crate::vector::VectorId;

verus! {

/// Everything that the index can refuse.
#[derive(Debug, Clone, PartialEq, Eq)]
pub enum VecHnswError {
    DuplicateVectorId(VectorId),
    EmptyVector,
    DimensionMismatch { expected: usize, actual: usize },
    InvalidConfig(&'static str),
    VectorNotFound(VectorId),
}

pub type Result<T> = core::result::Result<T, VecHnswError>;

/// The character of the decimal digit `d`.
pub open spec fn digit_char(d: nat) -> char {
    (d + 48) as char
}

/// The decimal notation of `n`, without leading zeros.
pub open spec fn decimal(n: nat) -> Seq<char>
    decreases n,
{
    if n < 10 {
        seq![digit_char(n)]
    } else {
        decimal(n / 10).push(digit_char(n % 10))
    }
}

/// The text that describes `error`.
pub open spec fn message_text(error: VecHnswError) -> Seq<char> {
    match error {
        VecHnswError::DuplicateVectorId(id) => "vector id "@ + decimal(id as nat) + " already exists"@,
        VecHnswError::EmptyVector => "vector must not be empty"@,
        VecHnswError::DimensionMismatch { expected, actual } => "vector dimension mismatch: expected "@
            + decimal(expected as nat) + ", got "@ + decimal(actual as nat),
        VecHnswError::InvalidConfig(message) => "invalid HNSW config: "@ + message@,
        VecHnswError::VectorNotFound(id) => "vector id "@ + decimal(id as nat) + " was not found"@,
    }
}

impl VecHnswError {
    /// The human-readable description of the error.
    pub fn message(&self) -> (text: String)
        ensures
            text@ == message_text(*self),
    {
        match self {
            VecHnswError::DuplicateVectorId(id) => {
                let mut text = String::from_str("vector id ");
                append_decimal(&mut text, *id);
                text.append(" already exists");
                text
            },
            VecHnswError::EmptyVector => String::from_str("vector must not be empty"),
            VecHnswError::DimensionMismatch { expected, actual } => {
                let mut text = String::from_str("vector dimension mismatch: expected ");
                append_decimal(&mut text, *expected as u64);
                text.append(", got ");
                append_decimal(&mut text, *actual as u64);
                text
            },
            VecHnswError::InvalidConfig(message) => {
                let mut text = String::from_str("invalid HNSW config: ");
                text.append(message);
                text
            },
            VecHnswError::VectorNotFound(id) => {
                let mut text = String::from_str("vector id ");
                append_decimal(&mut text, *id);
                text.append(" was not found");
                text
            },
        }
    }
}

/// The one-character text of the decimal digit `d`.
fn digit_text(d: u64) -> (text: &'static str)
    requires
        d < 10,
    ensures
        text@ == seq![digit_char(d as nat)],
{
    proof {
        reveal_strlit("0");
        reveal_strlit("1");
        reveal_strlit("2");
        reveal_strlit("3");
        reveal_strlit("4");
        reveal_strlit("5");
        reveal_strlit("6");
        reveal_strlit("7");
        reveal_strlit("8");
        reveal_strlit("9");
    }
    if d == 0 {
        "0"
    } else if d == 1 {
        "1"
    } else if d == 2 {
        "2"
    } else if d == 3 {
        "3"
    } else if d == 4 {
        "4"
    } else if d == 5 {
        "5"
    } else if d == 6 {
        "6"
    } else if d == 7 {
        "7"
    } else if d == 8 {
        "8"
    } else {
        "9"
    }
}

/// Appends the decimal notation of `n`.
fn append_decimal(text: &mut String, n: u64)
    ensures
        final(text)@ == old(text)@ + decimal(n as nat),
{
    let mut digits: Vec<u64> = Vec::new();
    let ghost mut tail: Seq<char> = Seq::empty();
    let mut rest = n;
    loop
        invariant_except_break
            decimal(n as nat) == decimal(rest as nat) + tail,
        invariant
            tail.len() == digits@.len(),
            forall|j: int| 0 <= j < digits@.len() ==> #[trigger] digits@[j] < 10,
            forall|j: int|
                0 <= j < tail.len() ==> #[trigger] tail[j] == digit_char(
                    digits@[digits@.len() - 1 - j] as nat,
                ),
        ensures
            decimal(n as nat) == tail,
        decreases rest,
    {
        let d = rest % 10;
        let ghost before = digits@;
        let ghost old_tail = tail;
        digits.push(d);
        proof {
            tail = seq![digit_char(d as nat)] + tail;
            assert forall|j: int| 0 <= j < tail.len() implies #[trigger] tail[j] == digit_char(
                digits@[digits@.len() - 1 - j] as nat,
            ) by {
                if j > 0 {
                    assert(tail[j] == old_tail[j - 1]);
                }
            }
        }
        let ghost previous = rest;
        rest = rest / 10;
        if rest == 0 {
            assert(decimal(previous as nat) == seq![digit_char(d as nat)]);
            assert(decimal(n as nat) =~= tail);
            break;
        }
        assert(decimal(previous as nat) == decimal(rest as nat).push(digit_char(d as nat)));
        assert(decimal(n as nat) =~= decimal(rest as nat) + tail);
    }
    let ghost start = text@;
    let mut i = digits.len();
    while i > 0
        invariant
            i <= digits@.len(),
            tail.len() == digits@.len(),
            forall|j: int| 0 <= j < digits@.len() ==> #[trigger] digits@[j] < 10,
            forall|j: int|
                0 <= j < tail.len() ==> #[trigger] tail[j] == digit_char(
                    digits@[digits@.len() - 1 - j] as nat,
                ),
            text@ == start + tail.subrange(0, digits@.len() - i),
        decreases i,
    {
        i = i - 1;
        let ghost done = tail.subrange(0, digits@.len() - i - 1);
        text.append(digit_text(digits[i]));
        assert(tail.subrange(0, digits@.len() - i) =~= done.push(tail[digits@.len() - i - 1]));
        assert(text@ =~= start + tail.subrange(0, digits@.len() - i));
    }
    assert(tail.subrange(0, digits@.len() as int) =~= tail);
}

} // verus!
