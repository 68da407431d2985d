//! Small arithmetic and string helpers exercising values, borrowing and
//! function arguments.

use vstd::prelude::*;

use vstd::string::{StrSliceExecFns, StringExecFns};

verus! {

/// The square of `x`.
pub fn square(x: i32) -> (r: i32)
    requires
        i32::MIN <= x * x <= i32::MAX,
    ensures
        r == x * x,
{
    x * x
}

/// The sum of `a` and `b`.
pub fn add(a: i32, b: i32) -> (r: i32)
    requires
        i32::MIN <= a + b <= i32::MAX,
    ensures
        r == a + b,
{
    a + b
}

/// Applies a caller-supplied function to `x` and hands back its result.
pub fn apply_function<F: Fn(i32) -> i32>(f: F, x: i32) -> (r: i32)
    requires
        call_requires(f, (x,)),
    ensures
        call_ensures(f, (x,), r),
{
    f(x)
}

/// Builds the function that multiplies its argument by `a`.
pub fn multiply(a: i32) -> (f: impl Fn(i32) -> i32)
    ensures
        forall|b: i32, r: i32| #[trigger] call_ensures(f, (b,), r) ==> r == a * b,
        forall|b: i32| i32::MIN <= a * b <= i32::MAX ==> #[trigger] call_requires(f, (b,)),
{
    move |b: i32| -> (r: i32)
        requires
            i32::MIN <= a * b <= i32::MAX,
        ensures
            r == a * b,
        { a * b }
}

/// The length of a borrowed string, counted in characters.
pub fn calculate_length(s: &String) -> (n: usize)
    ensures
        n == s@.len(),
{
    s.as_str().unicode_len()
}

/// Appends a friendly suffix to the borrowed string in place.
pub fn modify_string(s: &mut String)
    ensures
        final(s)@ == old(s)@ + ", world!"@,
{
    s.append(", world!");
}

} // verus!
