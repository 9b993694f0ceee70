//! A table of account nonces.

use vstd::prelude::*;

use crate::primitives::Address;

verus! {

/// The next nonce of each known account.
#[derive(Debug)]
pub struct NonceTable {
    entries: Vec<(Address, u64)>,
}

/// The table that a list of pairs stands for: the last pair of an address
/// counts.
spec fn table_of(entries: Seq<(Address, u64)>) -> Map<Seq<u8>, u64>
    decreases entries.len(),
{
    if entries.len() == 0 {
        Map::empty()
    } else {
        table_of(entries.drop_last()).insert(entries.last().0@, entries.last().1)
    }
}

impl View for NonceTable {
    type V = Map<Seq<u8>, u64>;

    closed spec fn view(&self) -> Map<Seq<u8>, u64> {
        table_of(self.entries@)
    }
}

/// The last pair of an address gives its nonce, and can be replaced.
proof fn lemma_table_of(entries: Seq<(Address, u64)>, address: Seq<u8>, i: int, pair: (Address, u64))
    requires
        0 <= i < entries.len(),
        entries[i].0@ == address,
        pair.0@ == address,
        forall|k: int| i < k < entries.len() ==> (#[trigger] entries[k]).0@ != address,
    ensures
        table_of(entries).contains_key(address),
        table_of(entries)[address] == entries[i].1,
        table_of(entries.update(i, pair)) == table_of(entries).insert(address, pair.1),
    decreases entries.len(),
{
    let n = entries.len() - 1;
    let after = entries.update(i, pair);
    if i == n {
        assert(after.drop_last() =~= entries.drop_last());
        assert(table_of(after) =~= table_of(entries).insert(address, pair.1));
    } else {
        assert(entries[n].0@ != address);
        lemma_table_of(entries.drop_last(), address, i, pair);
        assert(after.drop_last() =~= entries.drop_last().update(i, pair));
        assert(after.last() == entries.last());
        assert(table_of(after) =~= table_of(entries).insert(address, pair.1));
    }
}

/// An address without a pair is not in the table.
proof fn lemma_table_of_absent(entries: Seq<(Address, u64)>, address: Seq<u8>)
    requires
        forall|k: int| 0 <= k < entries.len() ==> (#[trigger] entries[k]).0@ != address,
    ensures
        !table_of(entries).contains_key(address),
    decreases entries.len(),
{
    if entries.len() > 0 {
        assert(entries[entries.len() - 1].0@ != address);
        lemma_table_of_absent(entries.drop_last(), address);
    }
}

impl NonceTable {
    /// A table that knows no account.
    pub fn new() -> (res: Self)
        ensures
            res@ == Map::<Seq<u8>, u64>::empty(),
    {
        NonceTable { entries: Vec::new() }
    }

    /// Where the nonce of `address` stands.
    fn find(&self, address: Address) -> (res: Option<usize>)
        ensures
            match res {
                Some(i) => i < self.entries@.len() && self.entries@[i as int].0@ == address@
                    && forall|k: int|
                    i < k < self.entries@.len() ==> (#[trigger] self.entries@[k]).0@ != address@,
                None => forall|k: int|
                    0 <= k < self.entries@.len() ==> (#[trigger] self.entries@[k]).0@ != address@,
            },
    {
        let mut i: usize = self.entries.len();
        while i > 0
            invariant
                i <= self.entries@.len(),
                forall|k: int|
                    i <= k < self.entries@.len() ==> (#[trigger] self.entries@[k]).0@ != address@,
            decreases i,
        {
            i -= 1;
            if self.entries[i].0 == address {
                return Some(i);
            }
        }
        None
    }

    /// The nonce of `address`, if it is known.
    pub fn get(&self, address: Address) -> (res: Option<u64>)
        ensures
            res == (if self@.contains_key(address@) {
                Some(self@[address@])
            } else {
                None
            }),
    {
        match self.find(address) {
            Some(i) => {
                proof {
                    lemma_table_of(self.entries@, address@, i as int, self.entries@[i as int]);
                }
                Some(self.entries[i].1)
            },
            None => {
                proof {
                    lemma_table_of_absent(self.entries@, address@);
                }
                None
            },
        }
    }

    /// Sets the nonce of `address`.
    pub fn insert(&mut self, address: Address, nonce: u64)
        ensures
            final(self)@ == old(self)@.insert(address@, nonce),
    {
        match self.find(address) {
            Some(i) => {
                proof {
                    lemma_table_of(self.entries@, address@, i as int, (address, nonce));
                }
                self.entries[i] = (address, nonce);
                assert(self.entries@ =~= old(self).entries@.update(i as int, (address, nonce)));
            },
            None => {
                self.entries.push((address, nonce));
                assert(self.entries@.drop_last() =~= old(self).entries@);
            },
        }
    }

    /// A copy of the table.
    pub fn copy(&self) -> (res: Self)
        ensures
            res@ == self@,
    {
        let mut entries: Vec<(Address, u64)> = Vec::new();
        let mut i: usize = 0;
        while i < self.entries.len()
            invariant
                i <= self.entries@.len(),
                entries@ =~= self.entries@.take(i as int),
            decreases self.entries@.len() - i,
        {
            entries.push((self.entries[i].0, self.entries[i].1));
            i += 1;
        }
        assert(entries@ =~= self.entries@);
        NonceTable { entries }
    }
}

} // verus!
