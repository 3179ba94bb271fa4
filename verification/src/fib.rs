use vstd::prelude::*;

verus! {

/// The Fibonacci numbers as the demo firmware counts them:
/// `fib(0) == 1`, `fib(1) == 1`, `fib(n) == fib(n - 1) + fib(n - 2)`.
pub open spec fn fib(n: nat) -> nat
    decreases n,
{
    if n < 2 {
        1
    } else {
        fib((n - 1) as nat) + fib((n - 2) as nat)
    }
}

/// Consecutive Fibonacci numbers never decrease.
pub proof fn lemma_fib_monotonic(i: nat, j: nat)
    requires
        i <= j,
    ensures
        fib(i) <= fib(j),
    decreases j - i,
{
    if i < j {
        lemma_fib_monotonic(i, (j - 1) as nat);
        if j >= 2 {
        }
    }
}

/// Iterative Fibonacci with three live variables.
///
/// The loop adds two 16-bit numbers `n` times; the last sum is `fib(n + 1)`,
/// so the inputs on which a sum would leave `u16` are left out.
pub fn fibonacci_iter(n: u16) -> (r: u16)
    requires
        n == 0 || fib(n as nat + 1) <= u16::MAX,
    ensures
        r == fib(n as nat),
{
    let mut a: u16 = 1;
    let mut b: u16 = 1;
    let mut i: u16 = 0;
    while i < n
        invariant
            i <= n,
            a == fib(i as nat),
            b == fib(i as nat + 1),
            n == 0 || fib(n as nat + 1) <= u16::MAX,
        decreases n - i,
    {
        proof {
            lemma_fib_monotonic(i as nat + 2, n as nat + 1);
        }
        let temp = a + b;
        a = b;
        b = temp;
        i += 1;
    }
    a
}

/// The numbers start 1, 1, and each further one is the sum of the two
/// before it.
pub proof fn law_fib_recurrence(n: nat)
    ensures
        fib(0) == 1,
        fib(1) == 1,
        fib(n + 2) == fib(n + 1) + fib(n),
{
}

} // verus!
