//! The data tape.
//!
//! To the outside the tape is one uniform function from integer addresses
//! to byte cells, every cell zero until it is written. Inside, addresses
//! `1..1024` live in a fixed array and all the others in a hash map that
//! grows on demand.

use std::collections::HashMap;
use std::ops::{Index, IndexMut};
use vstd::prelude::*;

verus! {

/// First address above the dense region: the addresses `a` with
/// `0 < a < BOUND` are backed by the array.
pub const BOUND: i32 = 1024;

/// The tape.
///
/// Its view is the content of the tape as a total map from addresses to
/// cells. The addresses that can be read and written are those of `i32`.
pub struct Memory {
    stack: [u8; 1024],
    heap: HashMap<i32, u8>,
}

/// Whether `address` lies in the dense region.
pub open spec fn dense(address: int) -> bool {
    0 < address < BOUND
}

/// The tape on which every cell is zero.
pub open spec fn blank() -> Map<int, u8> {
    Map::total(|address: int| 0u8)
}

/// The tape after the given writes were made, in order, to a blank tape.
pub open spec fn after_writes(writes: Seq<(int, u8)>) -> Map<int, u8>
    decreases writes.len(),
{
    if writes.len() == 0 {
        blank()
    } else {
        after_writes(writes.drop_last()).insert(writes.last().0, writes.last().1)
    }
}

impl View for Memory {
    type V = Map<int, u8>;

    closed spec fn view(&self) -> Map<int, u8> {
        Map::total(|address: int| self.cell(address))
    }
}

impl Memory {
    /// The addresses that hold sparse storage: those for which the hash
    /// map has an entry. Storage is a matter of cost only; what the tape
    /// holds is its view.
    pub closed spec fn allocated(&self) -> Set<int> {
        Set::new(
            |address: int|
                i32::MIN <= address <= i32::MAX && self.heap@.contains_key(address as i32),
        )
    }

    /// The cell at `address`, looked up in the two storage tiers.
    closed spec fn cell(&self, address: int) -> u8 {
        if dense(address) {
            self.stack@[address]
        } else if self.allocated().contains(address) {
            self.heap@[address as i32]
        } else {
            0u8
        }
    }

    /// A fresh tape, all cells zero and no sparse storage in use.
    pub fn new() -> (memory: Self)
        ensures
            memory@ == blank(),
            memory.allocated() == Set::<int>::empty(),
    {
        let memory = Self { stack: [0; 1024], heap: HashMap::new() };
        assert(memory@ =~= blank());
        assert(memory.allocated() =~= Set::<int>::empty());
        memory
    }

    /// The value of the cell at `address`: the value last written there, or
    /// zero if there was none.
    pub fn read(&self, address: i32) -> (value: u8)
        ensures
            value == self@[address as int],
    {
        self[address]
    }

    /// Stores `value` in the cell at `address` and leaves every other cell
    /// as it was. Outside the dense region the cell gets sparse storage, if
    /// it has none yet.
    pub fn write(&mut self, address: i32, value: u8)
        ensures
            final(self)@ == old(self)@.insert(address as int, value),
            dense(address as int) ==> final(self).allocated() == old(self).allocated(),
            !dense(address as int) ==> final(self).allocated() == old(self).allocated().insert(
                address as int,
            ),
    {
        *self.index_mut(address) = value;
    }

    /// The tape is total: every address has a cell, written or not.
    pub proof fn lemma_total(&self)
        ensures
            self@.dom() == Set::<int>::full(),
    {
        assert(self@.dom() =~= Set::<int>::full());
    }

    /// Outside the dense region a cell without storage is zero.
    pub proof fn lemma_unallocated_is_zero(&self, address: int)
        requires
            !dense(address),
            !self.allocated().contains(address),
        ensures
            self@[address] == 0,
    {
    }
}

impl Index<i32> for Memory {
    type Output = u8;

    /// The cell at `index`, for reading. A cell that was never written is
    /// read as zero and takes no storage.
    fn index(&self, index: i32) -> (cell: &u8)
        ensures
            *cell == self@[index as int],
    {
        if index > 0 && index < BOUND {
            &self.stack[index as usize]
        } else if let Some(x) = self.heap.get(&index) {
            x
        } else {
            &0
        }
    }
}

impl vstd::std_specs::core::IndexSpecImpl<i32> for Memory {
    /// Every address may be indexed.
    open spec fn index_req(&self, index: &i32) -> bool {
        true
    }
}

impl IndexMut<i32> for Memory {
    /// The cell at `index`, for writing: what the caller stores through the
    /// reference becomes the content of that cell, and of no other. Outside
    /// the dense region the cell is allocated on first use.
    fn index_mut(&mut self, index: i32) -> (cell: &mut u8)
        ensures
            *cell == old(self)@[index as int],
            final(self)@ == old(self)@.insert(index as int, *final(cell)),
            dense(index as int) ==> final(self).allocated() == old(self).allocated(),
            !dense(index as int) ==> final(self).allocated() == old(self).allocated().insert(
                index as int,
            ),
    {
        if index > 0 && index < BOUND {
            &mut self.stack[index as usize]
        } else {
            self.heap.entry(index).or_insert(0)
        }
    }
}

/// Reading an address right after writing it gives back the value written,
/// whatever the address, and the write changes no other cell: if `after` is
/// the tape that `write(address, value)` made of `before`, then `read` finds
/// `value` at `address` and at every other address what it found before.
pub proof fn lemma_write_then_read(
    before: Memory,
    after: Memory,
    address: i32,
    value: u8,
    other: i32,
)
    requires
        after@ == before@.insert(address as int, value),
    ensures
        after@[address as int] == value,
        other != address ==> after@[other as int] == before@[other as int],
{
}

/// An address that was never written holds zero, whatever was written to
/// the other addresses.
pub proof fn lemma_unwritten_is_zero(writes: Seq<(int, u8)>, address: int)
    requires
        forall|i: int| 0 <= i < writes.len() ==> (#[trigger] writes[i]).0 != address,
    ensures
        after_writes(writes).dom().contains(address),
        after_writes(writes)[address] == 0,
    decreases writes.len(),
{
    if writes.len() > 0 {
        lemma_unwritten_is_zero(writes.drop_last(), address);
    }
}

} // verus!
