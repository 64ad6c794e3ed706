//! Bookkeeping of the nested refractive media a ray traverses.
//!
//! A ray keeps a stack of the indices of refraction of the media it has
//! entered, with the environment's index at the bottom.  At a refractive
//! surface the renderer asks which index it is in and which it is about to
//! enter, then pushes or pops the stack depending on whether it leaves or
//! enters the body.  The selection is independent of the number type, so it is
//! verified here for any copyable element.

use vstd::prelude::*;

verus! {

/// Returns the index of refraction of the current medium and of the medium
/// the ray is about to enter.
///
/// `inside` says whether the ray is leaving the body it hit.  Leaving, the
/// next medium is the one below the top of the stack; a stack too shallow to
/// know it yields the caller's `fallback` pair.  Entering, the next medium is
/// the body's own index `nt`.
pub fn get_n<T: Copy>(inside: bool, n_stack: &Vec<T>, nt: T, fallback: (T, T)) -> (r: (T, T))
    requires
        !inside ==> n_stack@.len() >= 1,
    ensures
        inside && n_stack@.len() >= 2 ==> r == (
            n_stack@[n_stack@.len() - 1],
            n_stack@[n_stack@.len() - 2],
        ),
        inside && n_stack@.len() < 2 ==> r == fallback,
        !inside ==> r == (n_stack@[n_stack@.len() - 1], nt),
{
    if inside {
        let len = n_stack.len();
        if len < 2 {
            fallback
        } else {
            (n_stack[len - 1], n_stack[len - 2])
        }
    } else {
        (n_stack[n_stack.len() - 1], nt)
    }
}

/// The stack of media for the refracted branch of a ray: leaving a body pops
/// the stack (an already empty stack stays empty), entering pushes the body's
/// own index `nt`.
pub fn next_stack<T: Copy>(n_stack: &Vec<T>, inside: bool, nt: T) -> (r: Vec<T>)
    ensures
        inside && n_stack@.len() > 0 ==> r@ == n_stack@.subrange(0, n_stack@.len() - 1),
        inside && n_stack@.len() == 0 ==> r@ == n_stack@,
        !inside ==> r@ == n_stack@.push(nt),
{
    let mut r: Vec<T> = Vec::new();
    let mut i: usize = 0;
    while i < n_stack.len()
        invariant
            i <= n_stack@.len(),
            r@ == n_stack@.subrange(0, i as int),
        decreases n_stack@.len() - i,
    {
        r.push(n_stack[i]);
        i = i + 1;
    }
    proof {
        assert(r@ =~= n_stack@);
    }
    if inside {
        r.pop();
    } else {
        r.push(nt);
    }
    r
}

} // verus!
