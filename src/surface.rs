use vstd::prelude::*;

verus! {

/// The largest scale factor among the outputs a surface is shown on, or
/// `None` when it is shown on none.
pub fn largest_scale_factor(factors: &Vec<i32>) -> (r: Option<i32>)
    ensures
        r is None <==> factors@.len() == 0,
        r is Some ==> exists|i: int| 0 <= i < factors@.len() && factors@[i] == r.unwrap(),
        r is Some ==> forall|i: int| 0 <= i < factors@.len() ==> factors@[i] <= r.unwrap(),
{
    if factors.len() == 0 {
        return None;
    }
    let mut best: i32 = factors[0];
    let mut i: usize = 1;
    while i < factors.len()
        invariant
            1 <= i <= factors@.len(),
            exists|k: int| 0 <= k < i && factors@[k] == best,
            forall|k: int| 0 <= k < i ==> factors@[k] <= best,
        decreases factors@.len() - i,
    {
        if factors[i] > best {
            best = factors[i];
        }
        i += 1;
    }
    Some(best)
}

/// The scale factor a surface takes after its outputs changed, and whether
/// that is a change to report: with no output left the factor stays as it is.
pub fn next_scale_factor(current: i32, factors: &Vec<i32>) -> (r: (i32, bool))
    ensures
        factors@.len() == 0 ==> r == (current, false),
        factors@.len() > 0 ==> exists|i: int| 0 <= i < factors@.len() && factors@[i] == r.0,
        factors@.len() > 0 ==> forall|i: int| 0 <= i < factors@.len() ==> factors@[i] <= r.0,
        r.1 == (r.0 != current),
{
    match largest_scale_factor(factors) {
        Some(f) => (f, f != current),
        None => (current, false),
    }
}

} // verus!
