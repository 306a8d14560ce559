//! Text output to the console, which takes one character code at a time.
use vstd::prelude::*;

verus! {

broadcast use vstd::string::axiom_spec_iter;

/// The character codes the console receives for `s`, one per character,
/// in order.
pub fn console_codes(s: &str) -> (r: Vec<usize>)
    ensures
        r@ == s@.map_values(|c: char| c as usize),
{
    let mut r: Vec<usize> = Vec::new();
    for c in it: s.chars()
        invariant
            it.seq() == s@,
            r@ == it.seq().take(it.index() as int).map_values(|c: char| c as usize),
    {
        r.push(c as usize);
        assert(it.seq().take(it.index() + 1) =~= it.seq().take(it.index() as int).push(c));
        assert(r@ =~= it.seq().take(it.index() + 1).map_values(|c: char| c as usize));
    }
    assert(s@.take(s@.len() as int) =~= s@);
    r
}

} // verus!
