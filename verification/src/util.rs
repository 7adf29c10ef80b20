use vstd::prelude::*;

verus! {

/// The elements of `v` in reverse order: popping the result yields `v`
/// from its first element on.
pub fn into_reversed<T>(v: Vec<T>) -> (r: Vec<T>)
    ensures
        r@ == v@.reverse(),
{
    let mut v = v;
    let ghost orig = v@;
    let mut r: Vec<T> = Vec::new();
    while v.len() > 0
        invariant
            v@ == orig.take(v@.len() as int),
            r@ == orig.skip(v@.len() as int).reverse(),
            v@.len() <= orig.len(),
        decreases v@.len(),
    {
        let ghost n = v@.len() as int;
        let x = v.pop().unwrap();
        r.push(x);
        assert(r@ =~= orig.skip(n - 1).reverse());
        assert(v@ =~= orig.take(n - 1));
    }
    assert(orig.skip(0) =~= orig);
    r
}

} // verus!
