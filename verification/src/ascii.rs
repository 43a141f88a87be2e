//! Comparison of names without regard to the case of ASCII letters.

use vstd::prelude::*;

verus! {

/// Maps an upper-case ASCII letter to its lower-case form and leaves every
/// other byte as it is.
pub open spec fn ascii_lower(b: u8) -> u8 {
    if 0x41 <= b && b <= 0x5a {
        (b + 0x20) as u8
    } else {
        b
    }
}

/// A name with every upper-case ASCII letter replaced by its lower-case form.
pub open spec fn fold_case(name: Seq<u8>) -> Seq<u8> {
    Seq::new(name.len(), |i: int| ascii_lower(name[i]))
}

/// Two names match when they are equal up to the case of ASCII letters.
pub open spec fn same_name(a: Seq<u8>, b: Seq<u8>) -> bool {
    fold_case(a) == fold_case(b)
}

/// Executable form of [`ascii_lower`].
pub fn to_ascii_lower(b: u8) -> (r: u8)
    ensures
        r == ascii_lower(b),
{
    if 0x41 <= b && b <= 0x5a {
        b + 0x20
    } else {
        b
    }
}

/// Compares two names without regard to the case of ASCII letters.
pub fn eq_ignore_case(a: &[u8], b: &[u8]) -> (r: bool)
    ensures
        r == same_name(a@, b@),
{
    if a.len() != b.len() {
        assert(fold_case(a@).len() != fold_case(b@).len());
        return false;
    }
    let mut i: usize = 0;
    while i < a.len()
        invariant
            i <= a@.len(),
            a@.len() == b@.len(),
            forall|j: int| 0 <= j < i ==> ascii_lower(a@[j]) == ascii_lower(b@[j]),
        decreases a@.len() - i,
    {
        if to_ascii_lower(a[i]) != to_ascii_lower(b[i]) {
            assert(fold_case(a@)[i as int] != fold_case(b@)[i as int]);
            return false;
        }
        i += 1;
    }
    assert(fold_case(a@) =~= fold_case(b@));
    true
}

} // verus!
