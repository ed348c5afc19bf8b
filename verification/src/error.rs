//! What can go wrong when a table is written or checked.

use vstd::prelude::*;
use vstd::string::StringExecFns;

verus! {

/// Why the memory of a table cannot be laid out.
#[derive(Clone, Copy, Debug, PartialEq, Eq)]
pub enum LayoutError {
    /// Overflow while adjusting the capacity to the load factor.
    CapacityOverflow,
    /// Overflow while calculating the number of control bytes.
    ControlCountOverflow,
    /// The buckets and control bytes are too large for a block of memory.
    TooLarge,
}

/// A load factor that is not a fraction in the range (0, 1].
#[derive(Clone, Copy, Debug, PartialEq, Eq)]
pub struct InvalidLoadFactor {
    pub numerator: usize,
    pub denominator: usize,
}

/// A source of items that has more items than it announced.
#[derive(Clone, Copy, Debug, PartialEq, Eq)]
pub struct IteratorLengthMismatch {
    /// The number of items that were announced.
    pub expected: usize,
    /// The number of announced items and all items of the source together. The
    /// announced items count twice: once as announced, and once as items of the
    /// source. Where none was announced, this is the number of items.
    pub actual: usize,
}

/// A table that claims not to have a bucket to spare.
#[derive(Clone, Copy, Debug, PartialEq, Eq)]
pub struct InvalidLength {
    pub len: usize,
    pub cap: usize,
}

/// A control byte after the last bucket that does not repeat the one it should.
#[derive(Clone, Copy, Debug, PartialEq, Eq)]
pub struct UnwrappedControlByte {
    pub index: usize,
}

/// Why a table was not written. `E` is the error of the serializer.
#[derive(Debug, PartialEq, Eq)]
pub enum SerializeError<E> {
    InvalidLoadFactor(InvalidLoadFactor),
    IteratorLengthMismatch(IteratorLengthMismatch),
    Layout(LayoutError),
    /// No window of the hash of this item has an empty bucket.
    NoEmptyBucket { item: usize },
    Serializer(E),
}

/// Why a table is not valid. `E` is the error of the checks of its memory and its
/// entries.
#[derive(Debug, PartialEq, Eq)]
pub enum VerifyError<E> {
    InvalidLength(InvalidLength),
    Layout(LayoutError),
    /// The context does not grant the block of memory of the buckets and control bytes,
    /// or cannot leave it.
    Memory(E),
    /// The buckets and control bytes are not inside the archive.
    OutOfBounds,
    /// The entry in this bucket is not valid.
    Entry { index: usize, error: E },
    UnwrappedControlByte(UnwrappedControlByte),
}

/// The character of a decimal digit.
pub open spec fn digit(d: nat) -> char {
    if d == 0 {
        '0'
    } else if d == 1 {
        '1'
    } else if d == 2 {
        '2'
    } else if d == 3 {
        '3'
    } else if d == 4 {
        '4'
    } else if d == 5 {
        '5'
    } else if d == 6 {
        '6'
    } else if d == 7 {
        '7'
    } else if d == 8 {
        '8'
    } else {
        '9'
    }
}

/// A number in decimal, without leading zeros.
pub open spec fn decimal(n: nat) -> Seq<char>
    decreases n,
{
    if n < 10 {
        seq![digit(n)]
    } else {
        decimal(n / 10).push(digit(n % 10))
    }
}

/// A decimal number ends in its last digit, behind the decimal number of its other
/// digits, if there are any; and a digit is the character that many places behind `'0'`.
pub proof fn law_decimal(n: nat, d: nat)
    requires
        d < 10,
    ensures
        decimal(d).len() == 1,
        decimal(d)[0] as u32 == '0' as u32 + d,
        n > 0 ==> decimal(10 * n + d) == decimal(n) + decimal(d),
{
    if n > 0 {
        assert(decimal(10 * n + d) =~= decimal(n) + decimal(d));
    }
}

fn digit_text(d: usize) -> (text: &'static str)
    requires
        d < 10,
    ensures
        text@ == seq![digit(d as nat)],
{
    proof {
        reveal_strlit("0");
        reveal_strlit("1");
        reveal_strlit("2");
        reveal_strlit("3");
        reveal_strlit("4");
        reveal_strlit("5");
        reveal_strlit("6");
        reveal_strlit("7");
        reveal_strlit("8");
        reveal_strlit("9");
    }
    if d == 0 {
        "0"
    } else if d == 1 {
        "1"
    } else if d == 2 {
        "2"
    } else if d == 3 {
        "3"
    } else if d == 4 {
        "4"
    } else if d == 5 {
        "5"
    } else if d == 6 {
        "6"
    } else if d == 7 {
        "7"
    } else if d == 8 {
        "8"
    } else {
        "9"
    }
}

fn decimal_text(n: usize) -> (text: String)
    ensures
        text@ == decimal(n as nat),
    decreases n,
{
    let mut text = if n < 10 {
        String::new()
    } else {
        decimal_text(n / 10)
    };
    text.append(digit_text(n % 10));
    text
}

impl InvalidLoadFactor {
    /// The text of the error.
    pub fn message(&self) -> (text: String)
        ensures
            text@ == "invalid load factor "@ + decimal(self.numerator as nat) + " / "@ + decimal(
                self.denominator as nat,
            ) + ", load factor must be a fraction in the range (0, 1]"@,
    {
        let mut text = String::from_str("invalid load factor ");
        text.append(decimal_text(self.numerator).as_str());
        text.append(" / ");
        text.append(decimal_text(self.denominator).as_str());
        text.append(", load factor must be a fraction in the range (0, 1]");
        text
    }
}

impl IteratorLengthMismatch {
    /// The text of the error.
    pub fn message(&self) -> (text: String)
        ensures
            text@ == "iterator claimed that it contained "@ + decimal(self.expected as nat)
                + " elements, but yielded "@ + decimal(self.actual as nat)
                + " items during iteration"@,
    {
        let mut text = String::from_str("iterator claimed that it contained ");
        text.append(decimal_text(self.expected).as_str());
        text.append(" elements, but yielded ");
        text.append(decimal_text(self.actual).as_str());
        text.append(" items during iteration");
        text
    }
}

impl LayoutError {
    /// The text of the error.
    pub fn message(&self) -> (text: &'static str)
        ensures
            text@ == match self {
                LayoutError::CapacityOverflow => "overflow while adjusting capacity"@,
                LayoutError::ControlCountOverflow =>
                    "overflow while calculating buckets from adjusted capacity"@,
                LayoutError::TooLarge => "the memory of the hash table is too large"@,
            },
    {
        match self {
            LayoutError::CapacityOverflow => "overflow while adjusting capacity",
            LayoutError::ControlCountOverflow => {
                "overflow while calculating buckets from adjusted capacity"
            },
            LayoutError::TooLarge => "the memory of the hash table is too large",
        }
    }
}

impl InvalidLength {
    /// The text of the error.
    pub fn message(&self) -> (text: String)
        ensures
            text@
                == "hash table length must be strictly less than its capacity (length: "@
                + decimal(self.len as nat) + ", capacity: "@ + decimal(self.cap as nat) + ")"@,
    {
        let mut text = String::from_str(
            "hash table length must be strictly less than its capacity (length: ",
        );
        text.append(decimal_text(self.len).as_str());
        text.append(", capacity: ");
        text.append(decimal_text(self.cap).as_str());
        text.append(")");
        text
    }
}

impl UnwrappedControlByte {
    /// The text of the error.
    pub fn message(&self) -> (text: String)
        ensures
            text@ == "unwrapped control byte at index "@ + decimal(self.index as nat),
    {
        let mut text = String::from_str("unwrapped control byte at index ");
        text.append(decimal_text(self.index).as_str());
        text
    }
}

} // verus!
