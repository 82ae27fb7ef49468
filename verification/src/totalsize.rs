use vstd::prelude::*;
use vstd::layout::spec_size_of_val;

verus! {

/// A size as a `usize`: sizes beyond `usize::MAX` count as `usize::MAX`.
pub open spec fn capped_size(n: nat) -> usize {
    if n <= usize::MAX {
        n as usize
    } else {
        usize::MAX
    }
}

/// The number of bytes a value takes, counting the elements of collections.
pub trait TotalSize {
    /// The size of the value, as a number.
    spec fn size_of_value(&self) -> nat;

    fn total_size(&self) -> (n: usize)
        ensures
            n == capped_size(self.size_of_value()),
    ;
}

impl TotalSize for usize {
    open spec fn size_of_value(&self) -> nat {
        spec_size_of_val::<usize>(self)
    }

    fn total_size(&self) -> (n: usize) {
        core::mem::size_of_val(self)
    }
}

impl TotalSize for i64 {
    open spec fn size_of_value(&self) -> nat {
        spec_size_of_val::<i64>(self)
    }

    fn total_size(&self) -> (n: usize) {
        core::mem::size_of_val(self)
    }
}

impl TotalSize for bool {
    open spec fn size_of_value(&self) -> nat {
        spec_size_of_val::<bool>(self)
    }

    fn total_size(&self) -> (n: usize) {
        core::mem::size_of_val(self)
    }
}

impl TotalSize for String {
    open spec fn size_of_value(&self) -> nat {
        spec_size_of_val::<String>(self)
    }

    fn total_size(&self) -> (n: usize) {
        core::mem::size_of_val(self)
    }
}

/// A sum that stops at `usize::MAX`.
pub fn add_sizes(a: usize, b: usize) -> (r: usize)
    ensures
        r == (if a + b <= usize::MAX {
            (a + b) as usize
        } else {
            usize::MAX
        }),
{
    if a <= usize::MAX - b {
        a + b
    } else {
        usize::MAX
    }
}

/// The sizes of the values of `s`, added up.
pub open spec fn sizes_sum<T: TotalSize>(s: Seq<T>) -> nat
    decreases s.len(),
{
    if s.len() == 0 {
        0
    } else {
        sizes_sum(s.drop_last()) + s.last().size_of_value()
    }
}

/// The sizes of the elements, added up.
impl<T: TotalSize> TotalSize for Vec<T> {
    open spec fn size_of_value(&self) -> nat {
        sizes_sum(self@)
    }

    fn total_size(&self) -> (n: usize) {
        let mut sum: usize = 0;
        let mut i: usize = 0;
        proof {
            assert(self@.take(0) =~= Seq::<T>::empty());
        }
        while i < self.len()
            invariant
                i <= self@.len(),
                sum == capped_size(sizes_sum(self@.take(i as int))),
            decreases self@.len() - i,
        {
            let x = self[i].total_size();
            proof {
                assert(self@.take(i + 1).drop_last() =~= self@.take(i as int));
                assert(self@.take(i + 1).last() == self@[i as int]);
            }
            sum = add_sizes(sum, x);
            i = i + 1;
        }
        proof {
            assert(self@.take(i as int) =~= self@);
        }
        sum
    }
}

} // verus!
