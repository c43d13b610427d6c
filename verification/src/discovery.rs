//! Factory discovery: when a known factory creates a contract, the call
//! that asked for it says which pool was born.

use vstd::prelude::*;
use crate::primitives::Address;
use crate::abi::{address_at, address_of, selector, selector_of};
use crate::actions::{NewPoolView, NormalizedNewPool, Protocol};
use crate::metadata::{Metadata, MetadataView};

verus! {

/// The selector of `createPair(address,address)`.
pub const CREATE_PAIR_SELECTOR: u32 = 0xc9c65396;

/// What a vector of new pools holds.
pub open spec fn pools_view(pools: Seq<NormalizedNewPool>) -> Seq<NewPoolView> {
    pools.map_values(|p: NormalizedNewPool| p@)
}

/// Whether the pools of a protocol are created by `createPair`.
pub open spec fn pairs_by_factory(protocol: Protocol) -> bool {
    protocol == Protocol::UniswapV2 || protocol == Protocol::SushiSwapV2 || protocol
        == Protocol::PancakeSwapV2
}

/// The pool that a call of `createPair` with two different tokens creates:
/// its tokens are the two arguments of the call, the smaller address first.
pub open spec fn pair_created(
    protocol: Protocol,
    factory: Address,
    deployed: Address,
    trace_idx: u64,
    calldata: Seq<u8>,
) -> Seq<NewPoolView> {
    match (selector_of(calldata), address_of(calldata, 4), address_of(calldata, 36)) {
        (Some(sel), Some(a), Some(b)) => if sel == CREATE_PAIR_SELECTOR && a != b {
            seq![
                NewPoolView {
                    trace_index: trace_idx,
                    factory,
                    pool: deployed,
                    tokens: if a.value() < b.value() {
                        seq![a, b]
                    } else {
                        seq![b, a]
                    },
                    protocol,
                },
            ]
        } else {
            Seq::empty()
        },
        _ => Seq::empty(),
    }
}

/// A decoder of the calls of a factory.
pub trait FactoryDiscovery {
    /// The pools that the factory has created, given the address of the
    /// contract that it deployed and the call that asked for it.
    spec fn discovered(&self, deployed: Address, trace_idx: u64, calldata: Seq<u8>) -> Seq<
        NewPoolView,
    >;

    /// The pools that the factory has created.
    fn decode_new_pool(&self, deployed_address: Address, trace_idx: u64, parent_calldata: &Vec<u8>) -> (r:
        Vec<NormalizedNewPool>)
        ensures
            pools_view(r@) == self.discovered(deployed_address, trace_idx, parent_calldata@),
    ;
}

/// A factory of constant-product pools.
#[derive(Clone, Copy, Debug, PartialEq, Eq, Structural)]
pub struct PairFactory {
    pub factory: Address,
    pub protocol: Protocol,
}

/// Whether address `a` is below address `b`.
pub fn address_below(a: &Address, b: &Address) -> (r: bool)
    ensures
        r == (a.value() < b.value()),
{
    a.hi < b.hi || (a.hi == b.hi && a.lo < b.lo)
}

impl FactoryDiscovery for PairFactory {
    open spec fn discovered(&self, deployed: Address, trace_idx: u64, calldata: Seq<u8>) -> Seq<
        NewPoolView,
    > {
        pair_created(self.protocol, self.factory, deployed, trace_idx, calldata)
    }

    fn decode_new_pool(&self, deployed_address: Address, trace_idx: u64, parent_calldata: &Vec<u8>) -> (r:
        Vec<NormalizedNewPool>) {
        let mut r: Vec<NormalizedNewPool> = Vec::new();
        assert(pools_view(r@) =~= Seq::<NewPoolView>::empty());
        let sel = match selector(parent_calldata) {
            Some(s) => s,
            None => {
                return r;
            },
        };
        let a = match address_at(parent_calldata, 4) {
            Some(a) => a,
            None => {
                return r;
            },
        };
        let b = match address_at(parent_calldata, 36) {
            Some(b) => b,
            None => {
                return r;
            },
        };
        if sel != CREATE_PAIR_SELECTOR || a == b {
            return r;
        }
        let mut tokens: Vec<Address> = Vec::new();
        if address_below(&a, &b) {
            tokens.push(a);
            tokens.push(b);
            assert(tokens@ =~= seq![a, b]);
        } else {
            tokens.push(b);
            tokens.push(a);
            assert(tokens@ =~= seq![b, a]);
        }
        let pool = NormalizedNewPool {
            trace_index: trace_idx,
            factory: self.factory,
            pool: deployed_address,
            tokens,
            protocol: self.protocol,
        };
        let ghost view = pool@;
        r.push(pool);
        assert(pools_view(r@) =~= seq![view]);
        r
    }
}

/// Something that knows the factories and dispatches a creation to the
/// decoder of the factory that made it.
pub trait FactoryDiscoveryDispatch {
    /// Whether the dispatcher can be asked.
    spec fn ready(&self) -> bool;

    /// The pools that the creation of a contract by `factory` has brought.
    spec fn found(
        &self,
        factory: Address,
        deployed: Address,
        trace_idx: u64,
        calldata: Seq<u8>,
    ) -> Seq<NewPoolView>;

    /// The pools that the creation of a contract by `factory` has brought:
    /// none where `factory` is no known factory.
    fn dispatch(
        &self,
        factory: Address,
        deployed_address: Address,
        trace_idx: u64,
        parent_calldata: &Vec<u8>,
    ) -> (r: Vec<NormalizedNewPool>)
        requires
            self.ready(),
        ensures
            pools_view(r@) == self.found(factory, deployed_address, trace_idx, parent_calldata@),
    ;
}

/// The pools that the creation of a contract by `factory` has brought, as
/// far as the metadata knows the factory.
pub open spec fn creation_found(
    db: MetadataView,
    factory: Address,
    deployed: Address,
    trace_idx: u64,
    calldata: Seq<u8>,
) -> Seq<NewPoolView> {
    match db.factories.get(factory) {
        Some(protocol) => if pairs_by_factory(protocol) {
            pair_created(protocol, factory, deployed, trace_idx, calldata)
        } else {
            Seq::empty()
        },
        None => Seq::empty(),
    }
}

impl FactoryDiscoveryDispatch for Metadata {
    open spec fn ready(&self) -> bool {
        self.wf()
    }

    open spec fn found(
        &self,
        factory: Address,
        deployed: Address,
        trace_idx: u64,
        calldata: Seq<u8>,
    ) -> Seq<NewPoolView> {
        creation_found(self@, factory, deployed, trace_idx, calldata)
    }

    fn dispatch(
        &self,
        factory: Address,
        deployed_address: Address,
        trace_idx: u64,
        parent_calldata: &Vec<u8>,
    ) -> (r: Vec<NormalizedNewPool>) {
        let none: Vec<NormalizedNewPool> = Vec::new();
        assert(pools_view(none@) =~= Seq::<NewPoolView>::empty());
        match self.factory_protocol(factory) {
            Some(protocol) => {
                let by_pair = match protocol {
                    Protocol::UniswapV2 => true,
                    Protocol::SushiSwapV2 => true,
                    Protocol::PancakeSwapV2 => true,
                    _ => false,
                };
                if by_pair {
                    let decoder = PairFactory { factory, protocol };
                    decoder.decode_new_pool(deployed_address, trace_idx, parent_calldata)
                } else {
                    none
                }
            },
            None => none,
        }
    }
}

} // verus!
