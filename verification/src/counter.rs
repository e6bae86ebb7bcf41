use crate::error::RegistryError;
use vstd::prelude::*;

verus! {

/// The cell that holds the number of live tokens. A cell that was never
/// written stands for zero.
#[derive(Clone, Copy, Debug, PartialEq, Eq, Structural)]
pub struct TokenCounter {
    stored: Option<u64>,
}

impl TokenCounter {
    /// What the cell holds, if it was ever written.
    pub closed spec fn cell(&self) -> Option<u64> {
        self.stored
    }

    /// The count that the cell stands for.
    pub open spec fn count(&self) -> nat {
        match self.cell() {
            Some(n) => n as nat,
            None => 0,
        }
    }

    /// A cell that was never written.
    pub fn new() -> (counter: TokenCounter)
        ensures
            counter.cell() == None::<u64>,
    {
        TokenCounter { stored: None }
    }

    /// The counter over a cell as it was read from storage.
    pub fn from_stored(stored: Option<u64>) -> (counter: TokenCounter)
        ensures
            counter.cell() == stored,
    {
        TokenCounter { stored }
    }

    /// The cell's contents, to be written to storage.
    pub fn stored(&self) -> (stored: Option<u64>)
        ensures
            stored == self.cell(),
    {
        self.stored
    }

    /// The count; zero where the cell was never written.
    pub fn token_count(&self) -> (count: u64)
        ensures
            count == self.count(),
    {
        match self.stored {
            Some(n) => n,
            None => 0,
        }
    }

    /// Adds one to the count, writes it to the cell and returns it.
    pub fn increment_tokens(&mut self) -> (count: u64)
        requires
            old(self).count() < u64::MAX,
        ensures
            count == old(self).count() + 1,
            final(self).cell() == Some(count),
    {
        let val: u64 = self.token_count() + 1;
        self.stored = Some(val);
        val
    }

    /// Takes one off the count, writes it to the cell and returns it. At
    /// zero the cell is left as it is: the count never wraps.
    pub fn decrement_tokens(&mut self) -> (outcome: Result<u64, RegistryError>)
        ensures
            old(self).count() == 0 ==> outcome == Err::<u64, RegistryError>(RegistryError::Underflow)
                && *final(self) == *old(self),
            old(self).count() > 0 ==> outcome == Ok::<u64, RegistryError>(
                (old(self).count() - 1) as u64,
            ) && final(self).cell() == Some((old(self).count() - 1) as u64),
    {
        let current: u64 = self.token_count();
        if current == 0 {
            return Err(RegistryError::Underflow);
        }
        let val: u64 = current - 1;
        self.stored = Some(val);
        Ok(val)
    }
}

} // verus!
