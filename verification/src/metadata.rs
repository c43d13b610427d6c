//! The metadata snapshot that classification reads: which protocol a pool
//! belongs to, which tokens it holds, how many decimals a token has, and
//! which contracts are factories.

use vstd::prelude::*;
use crate::primitives::Address;
use crate::actions::{NormalizedNewPool, Protocol};

verus! {

/// Whether entry `i` of a table is the entry of the given address.
pub open spec fn keyed<V>(entries: Seq<(Address, V)>, key: Address, i: int) -> bool {
    0 <= i < entries.len() && entries[i].0 == key
}

/// A table from addresses to values, with one entry per address.
#[derive(Debug)]
pub struct Table<V> {
    entries: Vec<(Address, V)>,
}

impl<V> View for Table<V> {
    type V = Map<Address, V>;

    closed spec fn view(&self) -> Map<Address, V> {
        Map::new(
            |key: Address| exists|i: int| keyed(self.entries@, key, i),
            |key: Address| self.entries@[choose|i: int| keyed(self.entries@, key, i)].1,
        )
    }
}

impl<V: Copy> Table<V> {
    /// Whether no address has two entries.
    pub closed spec fn wf(&self) -> bool {
        forall|i: int, j: int|
            0 <= i < j < self.entries@.len() ==> (#[trigger] self.entries@[i]).0 != (
            #[trigger] self.entries@[j]).0
    }

    /// In a well-formed table the entry at a place is what the table says
    /// of its address.
    proof fn lemma_entry(&self, i: int)
        requires
            self.wf(),
            0 <= i < self.entries@.len(),
        ensures
            self@.contains_key(self.entries@[i].0),
            self@[self.entries@[i].0] == self.entries@[i].1,
    {
        let key = self.entries@[i].0;
        assert(keyed(self.entries@, key, i));
        let k = choose|k: int| keyed(self.entries@, key, k);
        if k < i {
            assert(self.entries@[k].0 != self.entries@[i].0);
        } else if i < k {
            assert(self.entries@[i].0 != self.entries@[k].0);
        }
    }

    /// A table without entries.
    pub fn new() -> (r: Table<V>)
        ensures
            r.wf(),
            r@ == Map::<Address, V>::empty(),
    {
        let r = Table { entries: Vec::new() };
        assert(r@ =~= Map::<Address, V>::empty());
        r
    }

    /// The place of the entry of an address, if it has one.
    fn find(&self, key: Address) -> (r: Option<usize>)
        requires
            self.wf(),
        ensures
            match r {
                Some(i) => keyed(self.entries@, key, i as int),
                None => forall|i: int| !keyed(self.entries@, key, i),
            },
            r.is_some() == self@.contains_key(key),
    {
        let mut i: usize = 0;
        while i < self.entries.len()
            invariant
                i <= self.entries@.len(),
                forall|k: int| 0 <= k < i ==> !keyed(self.entries@, key, k),
            decreases self.entries@.len() - i,
        {
            if self.entries[i].0 == key {
                assert(keyed(self.entries@, key, i as int));
                return Some(i);
            }
            i = i + 1;
        }
        None
    }

    /// What the table says of an address.
    pub fn get(&self, key: Address) -> (r: Option<V>)
        requires
            self.wf(),
        ensures
            match r {
                Some(v) => self@.contains_key(key) && self@[key] == v,
                None => !self@.contains_key(key),
            },
    {
        match self.find(key) {
            Some(i) => {
                proof {
                    self.lemma_entry(i as int);
                }
                Some(self.entries[i].1)
            },
            None => None,
        }
    }

    /// Sets what the table says of an address.
    pub fn insert(&mut self, key: Address, value: V)
        requires
            old(self).wf(),
        ensures
            final(self).wf(),
            final(self)@ == old(self)@.insert(key, value),
    {
        let ghost before = *self;
        match self.find(key) {
            Some(i) => {
                self.entries.set(i, (key, value));
                proof {
                    assert forall|a: Address| #[trigger] self@.contains_key(a) == before@.insert(
                        key,
                        value,
                    ).contains_key(a) by {
                        if self@.contains_key(a) {
                            let k = choose|k: int| keyed(self.entries@, a, k);
                            assert(keyed(before.entries@, a, k));
                        }
                        if before@.insert(key, value).contains_key(a) {
                            if a == key {
                                assert(keyed(self.entries@, a, i as int));
                            } else {
                                let k = choose|k: int| keyed(before.entries@, a, k);
                                assert(keyed(self.entries@, a, k));
                            }
                        }
                    }
                    assert forall|a: Address| self@.contains_key(a) implies #[trigger] self@[a]
                        == before@.insert(key, value)[a] by {
                        let k = choose|k: int| keyed(self.entries@, a, k);
                        self.lemma_entry(k);
                        if k != i {
                            before.lemma_entry(k);
                        }
                    }
                    assert(self@ =~= before@.insert(key, value));
                }
            },
            None => {
                self.entries.push((key, value));
                proof {
                    let n = before.entries@.len() as int;
                    assert forall|i: int, j: int| 0 <= i < j < self.entries@.len() implies (
                    #[trigger] self.entries@[i]).0 != (#[trigger] self.entries@[j]).0 by {
                        if j == n {
                            assert(!keyed(before.entries@, key, i));
                        }
                    }
                    assert forall|a: Address| #[trigger] self@.contains_key(a) == before@.insert(
                        key,
                        value,
                    ).contains_key(a) by {
                        if self@.contains_key(a) {
                            let k = choose|k: int| keyed(self.entries@, a, k);
                            if k < n {
                                assert(keyed(before.entries@, a, k));
                            }
                        }
                        if before@.insert(key, value).contains_key(a) {
                            if a == key {
                                assert(keyed(self.entries@, a, n));
                            } else {
                                let k = choose|k: int| keyed(before.entries@, a, k);
                                assert(keyed(self.entries@, a, k));
                            }
                        }
                    }
                    assert forall|a: Address| self@.contains_key(a) implies #[trigger] self@[a]
                        == before@.insert(key, value)[a] by {
                        let k = choose|k: int| keyed(self.entries@, a, k);
                        self.lemma_entry(k);
                        if k < n {
                            before.lemma_entry(k);
                        }
                    }
                    assert(self@ =~= before@.insert(key, value));
                }
            },
        }
    }
}

/// What is known of a pool: its protocol and its two tokens.
#[derive(Clone, Copy, Debug, PartialEq, Eq, Structural)]
pub struct PoolInfo {
    pub protocol: Protocol,
    pub token_0: Address,
    pub token_1: Address,
}

/// What a metadata snapshot says.
pub struct MetadataView {
    pub pools: Map<Address, PoolInfo>,
    pub decimals: Map<Address, u8>,
    pub factories: Map<Address, Protocol>,
}

/// A metadata snapshot.
#[derive(Debug)]
pub struct Metadata {
    pools: Table<PoolInfo>,
    decimals: Table<u8>,
    factories: Table<Protocol>,
}

impl View for Metadata {
    type V = MetadataView;

    closed spec fn view(&self) -> MetadataView {
        MetadataView { pools: self.pools@, decimals: self.decimals@, factories: self.factories@ }
    }
}

impl Metadata {
    /// Whether the three tables are well formed.
    pub closed spec fn wf(&self) -> bool {
        self.pools.wf() && self.decimals.wf() && self.factories.wf()
    }

    /// A snapshot that knows nothing.
    pub fn new() -> (r: Metadata)
        ensures
            r.wf(),
            r@.pools == Map::<Address, PoolInfo>::empty(),
            r@.decimals == Map::<Address, u8>::empty(),
            r@.factories == Map::<Address, Protocol>::empty(),
    {
        Metadata { pools: Table::new(), decimals: Table::new(), factories: Table::new() }
    }

    /// The protocol of the pool at an address, if it is a known pool.
    pub fn protocol_of(&self, address: Address) -> (r: Option<Protocol>)
        requires
            self.wf(),
        ensures
            r == match self@.pools.get(address) {
                Some(info) => Some(info.protocol),
                None => None::<Protocol>,
            },
    {
        match self.pools.get(address) {
            Some(info) => Some(info.protocol),
            None => None,
        }
    }

    /// The two tokens of the pool at an address, if it is a known pool.
    pub fn tokens_of(&self, pool: Address) -> (r: Option<(Address, Address)>)
        requires
            self.wf(),
        ensures
            r == match self@.pools.get(pool) {
                Some(info) => Some((info.token_0, info.token_1)),
                None => None::<(Address, Address)>,
            },
    {
        match self.pools.get(pool) {
            Some(info) => Some((info.token_0, info.token_1)),
            None => None,
        }
    }

    /// The number of decimals of a token, if it is known.
    pub fn decimals(&self, token: Address) -> (r: Option<u8>)
        requires
            self.wf(),
        ensures
            r == self@.decimals.get(token),
    {
        self.decimals.get(token)
    }

    /// The protocol whose pools the contract at an address creates, if it
    /// is a known factory.
    pub fn factory_protocol(&self, address: Address) -> (r: Option<Protocol>)
        requires
            self.wf(),
        ensures
            r == self@.factories.get(address),
    {
        self.factories.get(address)
    }

    /// Registers a pool with its protocol and its first two tokens. A pool
    /// with fewer than two tokens is not registered.
    pub fn put_new_pool(&mut self, pool: &NormalizedNewPool) -> (done: bool)
        requires
            old(self).wf(),
        ensures
            final(self).wf(),
            done == (pool@.tokens.len() >= 2),
            final(self)@.decimals == old(self)@.decimals,
            final(self)@.factories == old(self)@.factories,
            final(self)@.pools == if done {
                old(self)@.pools.insert(
                    pool@.pool,
                    PoolInfo {
                        protocol: pool@.protocol,
                        token_0: pool@.tokens[0],
                        token_1: pool@.tokens[1],
                    },
                )
            } else {
                old(self)@.pools
            },
    {
        if pool.tokens.len() < 2 {
            return false;
        }
        self.pools.insert(
            pool.pool,
            PoolInfo { protocol: pool.protocol, token_0: pool.tokens[0], token_1: pool.tokens[1] },
        );
        true
    }

    /// Registers a pool.
    pub fn put_pool(&mut self, address: Address, info: PoolInfo)
        requires
            old(self).wf(),
        ensures
            final(self).wf(),
            final(self)@.pools == old(self)@.pools.insert(address, info),
            final(self)@.decimals == old(self)@.decimals,
            final(self)@.factories == old(self)@.factories,
    {
        self.pools.insert(address, info);
    }

    /// Sets the number of decimals of a token.
    pub fn put_decimals(&mut self, token: Address, decimals: u8)
        requires
            old(self).wf(),
        ensures
            final(self).wf(),
            final(self)@.decimals == old(self)@.decimals.insert(token, decimals),
            final(self)@.pools == old(self)@.pools,
            final(self)@.factories == old(self)@.factories,
    {
        self.decimals.insert(token, decimals);
    }

    /// Registers a factory with the protocol of the pools that it creates.
    pub fn put_factory(&mut self, address: Address, protocol: Protocol)
        requires
            old(self).wf(),
        ensures
            final(self).wf(),
            final(self)@.factories == old(self)@.factories.insert(address, protocol),
            final(self)@.pools == old(self)@.pools,
            final(self)@.decimals == old(self)@.decimals,
    {
        self.factories.insert(address, protocol);
    }
}

} // verus!
