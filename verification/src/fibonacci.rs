//! A stepwise Fibonacci generator holding two consecutive Fibonacci numbers.

use vstd::prelude::*;

verus! {

/// The Fibonacci sequence: 0, 1, 1, 2, 3, 5, ...
pub open spec fn fib(n: nat) -> nat
    decreases n,
{
    if n == 0 {
        0
    } else if n == 1 {
        1
    } else {
        fib((n - 2) as nat) + fib((n - 1) as nat)
    }
}

/// Holds a Fibonacci number and its successor.
pub struct Fibonacci {
    pub current: u64,
    pub next: u64,
}

impl Fibonacci {
    /// Whether the generator stands at position `n` of the sequence.
    pub open spec fn is_at(self, n: nat) -> bool {
        self.current == fib(n) && self.next == fib(n + 1)
    }

    /// A generator standing at the start of the sequence.
    pub fn new() -> (r: Self)
        ensures
            r.is_at(0),
    {
        Fibonacci { current: 0, next: 1 }
    }

    /// Hands out the current Fibonacci number and advances one position.
    pub fn step(&mut self) -> (r: u64)
        requires
            old(self).current + old(self).next <= u64::MAX,
        ensures
            r == old(self).current,
            final(self).current == old(self).next,
            final(self).next == old(self).current + old(self).next,
            forall|n: nat| old(self).is_at(n) ==> final(self).is_at(n + 1),
    {
        let result = self.current;
        self.current = self.next;
        self.next = result + self.current;
        result
    }
}

} // verus!
