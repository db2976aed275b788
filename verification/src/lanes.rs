//! The values of one full word, borrowed from the storage that holds them.

use vstd::prelude::*;

verus! {

/// Where the values of a word lie.
#[derive(Debug)]
enum Storage<'a, T> {
    /// In initialized storage.
    Values(&'a [T]),
    /// In slots that may be uninitialized; these 64 are not.
    Slots(&'a [Option<T>]),
}

/// The 64 initialized values of one word, in physical order.
///
/// Lanes borrow the storage; nothing is read before `array`.
#[derive(Debug)]
pub struct Lanes<'a, T> {
    storage: Storage<'a, T>,
}

impl<'a, T> Clone for Storage<'a, T> {
    fn clone(&self) -> (storage: Self)
        ensures
            storage == *self,
    {
        *self
    }
}

impl<'a, T> Copy for Storage<'a, T> {

}

impl<'a, T> Clone for Lanes<'a, T> {
    fn clone(&self) -> (lanes: Self)
        ensures
            lanes == *self,
    {
        *self
    }
}

impl<'a, T> Copy for Lanes<'a, T> {

}

impl<'a, T> View for Lanes<'a, T> {
    type V = Seq<T>;

    closed spec fn view(&self) -> Seq<T> {
        match self.storage {
            Storage::Values(values) => values@,
            Storage::Slots(slots) => Seq::new(slots@.len(), |i: int| slots@[i]->0),
        }
    }
}

impl<'a, T> Lanes<'a, T> {
    #[verifier::type_invariant]
    spec fn inv(self) -> bool {
        &&& self@.len() == 64
        &&& self.storage matches Storage::Slots(slots) ==> forall|i: int|
            0 <= i < slots@.len() ==> #[trigger] slots@[i] is Some
    }

    /// Borrow 64 values; `None` for any other number.
    pub fn new(values: &'a [T]) -> (lanes: Option<Self>)
        ensures
            lanes is Some <==> values@.len() == 64,
            lanes matches Some(lanes) ==> lanes@ == values@,
    {
        if values.len() == 64 {
            Some(Lanes { storage: Storage::Values(values) })
        } else {
            None
        }
    }

    /// Borrow the values of 64 initialized slots.
    pub(crate) fn of_slots(slots: &'a [Option<T>]) -> (lanes: Self)
        requires
            slots@.len() == 64,
            forall|i: int| 0 <= i < 64 ==> #[trigger] slots@[i] is Some,
        ensures
            lanes@.len() == 64,
            forall|i: int| 0 <= i < 64 ==> slots@[i] == Some(#[trigger] lanes@[i]),
    {
        Lanes { storage: Storage::Slots(slots) }
    }

    /// Load the values.
    pub fn array(&self) -> (array: [T; 64]) where T: Copy
        ensures
            array@ == self@,
    {
        proof {
            use_type_invariant(self);
        }
        match self.storage {
            Storage::Values(values) => {
                let mut array = [values[0];64];
                let mut i: usize = 0;
                while i < 64
                    invariant
                        i <= 64,
                        values@.len() == 64,
                        forall|k: int| 0 <= k < i ==> #[trigger] array@[k] == values@[k],
                    decreases 64 - i,
                {
                    array[i] = values[i];
                    i = i + 1;
                }
                assert(array@ =~= self@);
                array
            },
            Storage::Slots(slots) => {
                let mut array = [slots[0].unwrap();64];
                let mut i: usize = 0;
                while i < 64
                    invariant
                        i <= 64,
                        slots@.len() == 64,
                        forall|k: int| 0 <= k < slots@.len() ==> #[trigger] slots@[k] is Some,
                        forall|k: int| 0 <= k < i ==> Some(#[trigger] array@[k]) == slots@[k],
                    decreases 64 - i,
                {
                    array[i] = slots[i].unwrap();
                    i = i + 1;
                }
                assert(array@ =~= self@);
                array
            },
        }
    }
}

} // verus!
