//! Suffix enumeration for a sequence of elements.

use vstd::prelude::*;

verus! {

/// All suffixes of the list, in descending order of length: the entry
/// at index `i` is the list without its first `i` elements, so the
/// first entry is the whole list and the last is empty.
pub fn suffixes<T: Copy>(lst: &Vec<T>) -> (r: Vec<Vec<T>>)
    ensures
        r@.len() == lst@.len() + 1,
        forall|i: int|
            0 <= i <= lst@.len() ==> (#[trigger] r@[i])@ == lst@.subrange(i, lst@.len() as int),
{
    let mut r: Vec<Vec<T>> = Vec::new();
    let mut i: usize = 0;
    while i < lst.len()
        invariant
            i <= lst@.len(),
            r@.len() == i,
            forall|j: int|
                0 <= j < i ==> (#[trigger] r@[j])@ == lst@.subrange(j, lst@.len() as int),
        decreases lst@.len() - i,
    {
        let mut suf: Vec<T> = Vec::new();
        let mut j: usize = i;
        while j < lst.len()
            invariant
                i <= j <= lst@.len(),
                suf@ == lst@.subrange(i as int, j as int),
            decreases lst@.len() - j,
        {
            suf.push(lst[j]);
            proof {
                assert(suf@ =~= lst@.subrange(i as int, j as int + 1));
            }
            j = j + 1;
        }
        proof {
            assert(suf@ =~= lst@.subrange(i as int, lst@.len() as int));
        }
        r.push(suf);
        i = i + 1;
    }
    let last: Vec<T> = Vec::new();
    proof {
        assert(last@ =~= lst@.subrange(lst@.len() as int, lst@.len() as int));
    }
    r.push(last);
    r
}

} // verus!
