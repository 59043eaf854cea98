//! References to the states, setups and operations of a driver.

use crate::text::{decimal, handed, law_numeral, push_decimal, write_text};
use cranelift_entity::EntityRef;
use vstd::prelude::*;

verus! {

/// A reference to a state: its index among the driver's states.
#[derive(Copy, Clone, PartialEq, Eq, Hash, Structural)]
pub struct StateRef(pub u32);

/// A reference to a setup: its index among the driver's setups.
#[derive(Copy, Clone, PartialEq, Eq, Hash, Structural)]
pub struct SetupRef(pub u32);

/// A reference to an operation: its index among the driver's operations.
#[derive(Copy, Clone, PartialEq, Eq, Hash, Structural)]
pub struct OpRef(pub u32);

impl EntityRef for StateRef {
    fn new(index: usize) -> (r: Self)
        ensures
            index <= u32::MAX ==> r.0 == index,
    {
        StateRef(index as u32)
    }

    fn index(self) -> (i: usize)
        ensures
            i == self.0,
    {
        self.0 as usize
    }
}

impl EntityRef for SetupRef {
    fn new(index: usize) -> (r: Self)
        ensures
            index <= u32::MAX ==> r.0 == index,
    {
        SetupRef(index as u32)
    }

    fn index(self) -> (i: usize)
        ensures
            i == self.0,
    {
        self.0 as usize
    }
}

impl EntityRef for OpRef {
    fn new(index: usize) -> (r: Self)
        ensures
            index <= u32::MAX ==> r.0 == index,
    {
        OpRef(index as u32)
    }

    fn index(self) -> (i: usize)
        ensures
            i == self.0,
    {
        self.0 as usize
    }
}

impl StateRef {
    /// The index of the state, and one more, can be counted in a `usize`.
    pub open spec fn valid(self) -> bool {
        self.0 < usize::MAX
    }

    /// How the reference is printed.
    pub open spec fn label(self) -> Seq<char> {
        "state"@ + decimal(self.0 as nat)
    }

    /// The printed form of the reference, such as `state3`.
    pub fn text(self) -> (s: String)
        ensures
            s@ == self.label(),
    {
        let mut s = "state".to_string();
        push_decimal(&mut s, self.0);
        s
    }

    /// A reference is printed as the word `state` and its index in decimal digits, without
    /// leading zeros.
    pub proof fn law_printed(self, text: String)
        requires
            call_ensures(StateRef::text, (self,), text),
        ensures
            text@ == self.label(),
            text@.len() > 5,
            text@.take(5) == "state"@,
            forall|i: int| 5 <= i < text@.len() ==> '0' <= #[trigger] text@[i] <= '9',
            text@.len() > 6 ==> text@[5] != '0',
            text@.skip(5).fold_left(0int, |sum: int, c: char| 10 * sum + (c as int - 48))
                == self.0,
    {
        reveal_strlit("state");
        let numeral = decimal(self.0 as nat);
        law_numeral(self.0 as nat);
        assert(text@.take(5) =~= "state"@);
        assert(text@.skip(5) =~= numeral);
        assert forall|i: int| 5 <= i < text@.len() implies '0' <= #[trigger] text@[i] <= '9' by {
            assert(text@[i] == numeral[i - 5]);
        }
    }
}

impl SetupRef {
    /// How the reference is printed.
    pub open spec fn label(self) -> Seq<char> {
        "setup"@ + decimal(self.0 as nat)
    }

    /// The printed form of the reference, such as `setup3`.
    pub fn text(self) -> (s: String)
        ensures
            s@ == self.label(),
    {
        let mut s = "setup".to_string();
        push_decimal(&mut s, self.0);
        s
    }

    /// A reference is printed as the word `setup` and its index in decimal digits, without
    /// leading zeros.
    pub proof fn law_printed(self, text: String)
        requires
            call_ensures(SetupRef::text, (self,), text),
        ensures
            text@ == self.label(),
            text@.len() > 5,
            text@.take(5) == "setup"@,
            forall|i: int| 5 <= i < text@.len() ==> '0' <= #[trigger] text@[i] <= '9',
            text@.len() > 6 ==> text@[5] != '0',
            text@.skip(5).fold_left(0int, |sum: int, c: char| 10 * sum + (c as int - 48))
                == self.0,
    {
        reveal_strlit("setup");
        let numeral = decimal(self.0 as nat);
        law_numeral(self.0 as nat);
        assert(text@.take(5) =~= "setup"@);
        assert(text@.skip(5) =~= numeral);
        assert forall|i: int| 5 <= i < text@.len() implies '0' <= #[trigger] text@[i] <= '9' by {
            assert(text@[i] == numeral[i - 5]);
        }
    }
}

impl OpRef {
    /// How the reference is printed.
    pub open spec fn label(self) -> Seq<char> {
        "operation"@ + decimal(self.0 as nat)
    }

    /// The printed form of the reference, such as `operation3`.
    pub fn text(self) -> (s: String)
        ensures
            s@ == self.label(),
    {
        let mut s = "operation".to_string();
        push_decimal(&mut s, self.0);
        s
    }

    /// A reference is printed as the word `operation` and its index in decimal digits, without
    /// leading zeros.
    pub proof fn law_printed(self, text: String)
        requires
            call_ensures(OpRef::text, (self,), text),
        ensures
            text@ == self.label(),
            text@.len() > 9,
            text@.take(9) == "operation"@,
            forall|i: int| 9 <= i < text@.len() ==> '0' <= #[trigger] text@[i] <= '9',
            text@.len() > 10 ==> text@[9] != '0',
            text@.skip(9).fold_left(0int, |sum: int, c: char| 10 * sum + (c as int - 48))
                == self.0,
    {
        reveal_strlit("operation");
        let numeral = decimal(self.0 as nat);
        law_numeral(self.0 as nat);
        assert(text@.take(9) =~= "operation"@);
        assert(text@.skip(9) =~= numeral);
        assert forall|i: int| 9 <= i < text@.len() implies '0' <= #[trigger] text@[i] <= '9' by {
            assert(text@[i] == numeral[i - 9]);
        }
    }
}

impl std::fmt::Display for StateRef {
    fn fmt(&self, f: &mut std::fmt::Formatter<'_>) -> (r: std::fmt::Result)
        ensures
            handed(*final(f)) == handed(*old(f)) + self.label(),
    {
        write_text(f, self.text().as_str())
    }
}

impl std::fmt::Debug for StateRef {
    fn fmt(&self, f: &mut std::fmt::Formatter<'_>) -> (r: std::fmt::Result)
        ensures
            handed(*final(f)) == handed(*old(f)) + self.label(),
    {
        write_text(f, self.text().as_str())
    }
}

impl std::fmt::Display for SetupRef {
    fn fmt(&self, f: &mut std::fmt::Formatter<'_>) -> (r: std::fmt::Result)
        ensures
            handed(*final(f)) == handed(*old(f)) + self.label(),
    {
        write_text(f, self.text().as_str())
    }
}

impl std::fmt::Debug for SetupRef {
    fn fmt(&self, f: &mut std::fmt::Formatter<'_>) -> (r: std::fmt::Result)
        ensures
            handed(*final(f)) == handed(*old(f)) + self.label(),
    {
        write_text(f, self.text().as_str())
    }
}

impl std::fmt::Display for OpRef {
    fn fmt(&self, f: &mut std::fmt::Formatter<'_>) -> (r: std::fmt::Result)
        ensures
            handed(*final(f)) == handed(*old(f)) + self.label(),
    {
        write_text(f, self.text().as_str())
    }
}

impl std::fmt::Debug for OpRef {
    fn fmt(&self, f: &mut std::fmt::Formatter<'_>) -> (r: std::fmt::Result)
        ensures
            handed(*final(f)) == handed(*old(f)) + self.label(),
    {
        write_text(f, self.text().as_str())
    }
}

} // verus!
