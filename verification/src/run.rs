//! The arguments of a run and the decisions that are taken on them before
//! the first block is processed.

use vstd::prelude::*;
use crate::primitives::{Address, radix128};
use crate::actions::clone_vec;

verus! {

/// The inspectors that can be asked for.
#[derive(Clone, Copy, Debug, PartialEq, Eq, Hash, Structural)]
pub enum Inspectors {
    AtomicBackrun,
    CexDex,
    Jit,
    Liquidations,
    LongTail,
    Sandwich,
}

/// The arguments of a run.
#[derive(Debug)]
pub struct RunArgs {
    /// The first block.
    pub start_block: u64,
    /// The last block; without it the run follows the chain tip.
    pub end_block: Option<u64>,
    /// The number of blocks that may be in flight; without it, four fifths
    /// of the physical cores.
    pub max_tasks: Option<u64>,
    /// The quote asset, as a hexadecimal address.
    pub quote_asset: String,
    /// The inspectors to run; without it, all of them.
    pub inspectors: Option<Vec<Inspectors>>,
    /// The centralized exchanges that the inspector of their arbitrage
    /// considers.
    pub cex_exchanges: Option<Vec<String>>,
    /// Whether pool prices are computed during the run rather than read from
    /// what an earlier run stored.
    pub run_dex_pricing: bool,
}

/// Why a run cannot start.
#[derive(Clone, Copy, Debug, PartialEq, Eq, Structural)]
pub enum RunError {
    /// The quote asset is not an address.
    InvalidQuoteAsset,
    /// The state that the block range needs has not been stored.
    RangeUnavailable,
    /// Without pricing during the run the range must have an end.
    EndBlockRequired,
}

/// What a run does, once its arguments have been accepted.
#[derive(Debug)]
pub struct RunPlan {
    pub start_block: u64,
    pub end_block: Option<u64>,
    pub max_tasks: u64,
    pub quote_asset: Address,
    pub inspectors: Vec<Inspectors>,
    pub run_dex_pricing: bool,
}

/// The value of a hexadecimal digit, in either case.
pub open spec fn hex_digit(c: char) -> Option<nat> {
    if '0' <= c <= '9' {
        Some((c as nat - '0' as nat) as nat)
    } else if 'a' <= c <= 'f' {
        Some((c as nat - 'a' as nat + 10) as nat)
    } else if 'A' <= c <= 'F' {
        Some((c as nat - 'A' as nat + 10) as nat)
    } else {
        None
    }
}

/// The number that a sequence of hexadecimal digits writes, most significant
/// digit first.
pub open spec fn hex_value(digits: Seq<char>) -> nat
    decreases digits.len(),
{
    if digits.len() == 0 {
        0
    } else {
        hex_value(digits.drop_last()) * 16 + match hex_digit(digits.last()) {
            Some(d) => d,
            None => 0,
        }
    }
}

/// A text without its `0x` or `0X` prefix, if it has one.
pub open spec fn without_hex_prefix(text: Seq<char>) -> Seq<char> {
    if text.len() >= 2 && text[0] == '0' && (text[1] == 'x' || text[1] == 'X') {
        text.skip(2)
    } else {
        text
    }
}

/// The address that a text writes: forty hexadecimal digits, with or without
/// a `0x` prefix.
pub open spec fn address_of_text(text: Seq<char>) -> Option<Address> {
    let digits = without_hex_prefix(text);
    if digits.len() == 40 && (forall|i: int|
        0 <= i < digits.len() ==> (#[trigger] hex_digit(digits[i])).is_some()) {
        Some(
            Address {
                hi: (hex_value(digits) / radix128()) as u32,
                lo: (hex_value(digits) % radix128()) as u128,
            },
        )
    } else {
        None
    }
}

/// Parses an address with `alloy_primitives`: `str::parse::<Address>` goes
/// through `const_hex::decode_to_array`, which strips one `0x` or `0X`
/// prefix and accepts exactly forty hexadecimal digits of either case. The
/// twenty bytes are handed back as the two halves of the library's address.
#[verifier::external_body]
fn parse_address(text: &str) -> (r: Option<Address>)
    ensures
        r == address_of_text(text@),
{
    match text.parse::<alloy_primitives::Address>() {
        Ok(address) => {
            let bytes = address.into_array();
            let (head, tail) = bytes.split_at(4);
            Some(
                Address {
                    hi: u32::from_be_bytes(head.try_into().unwrap()),
                    lo: u128::from_be_bytes(tail.try_into().unwrap()),
                },
            )
        },
        Err(_) => None,
    }
}

/// The default number of blocks in flight on a machine with the given number
/// of physical cores: four fifths of them, rounded down.
pub open spec fn default_tasks(physical_cores: u64) -> u64 {
    (physical_cores as int * 8 / 10) as u64
}

/// The number of blocks that may be in flight: what was asked for, or four
/// fifths of the physical cores.
pub fn determine_max_tasks(max_tasks: Option<u64>, physical_cores: u64) -> (r: u64)
    ensures
        r == match max_tasks {
            Some(n) => n,
            None => default_tasks(physical_cores),
        },
{
    match max_tasks {
        Some(n) => n,
        None => {
            let whole: u64 = physical_cores / 10;
            let rest: u64 = physical_cores % 10;
            whole * 8 + rest * 8 / 10
        },
    }
}

/// Every inspector, in the order in which they are registered.
pub open spec fn all_inspectors() -> Seq<Inspectors> {
    seq![
        Inspectors::AtomicBackrun,
        Inspectors::CexDex,
        Inspectors::Jit,
        Inspectors::Liquidations,
        Inspectors::LongTail,
        Inspectors::Sandwich,
    ]
}

impl RunArgs {
    /// The error that stops the run before any block is processed, if there
    /// is one: a quote asset that is no address comes first, then a range
    /// whose state is missing, then a range without an end where prices are
    /// not computed during the run.
    pub open spec fn refusal(&self, range_available: bool) -> Option<RunError> {
        if address_of_text(self.quote_asset@).is_none() {
            Some(RunError::InvalidQuoteAsset)
        } else if self.end_block.is_some() && !range_available {
            Some(RunError::RangeUnavailable)
        } else if !self.run_dex_pricing && self.end_block.is_none() {
            Some(RunError::EndBlockRequired)
        } else {
            None
        }
    }

    /// The quote asset of the run.
    pub fn quote(&self) -> (r: Result<Address, RunError>)
        ensures
            r == match address_of_text(self.quote_asset@) {
                Some(a) => Ok::<Address, RunError>(a),
                None => Err::<Address, RunError>(RunError::InvalidQuoteAsset),
            },
    {
        match parse_address(self.quote_asset.as_str()) {
            Some(a) => Ok(a),
            None => Err(RunError::InvalidQuoteAsset),
        }
    }

    /// The block range whose stored state has to be looked up before the run
    /// starts: there is one exactly when the run has an end.
    pub fn range_to_check(&self) -> (r: Option<(u64, u64)>)
        ensures
            r == match self.end_block {
                Some(end) => Some((self.start_block, end)),
                None => None::<(u64, u64)>,
            },
    {
        match self.end_block {
            Some(end) => Some((self.start_block, end)),
            None => None,
        }
    }

    /// Decides whether the run starts, and with what. `range_available`
    /// says whether the state of the range of `range_to_check` is stored; it
    /// is not looked at where the run has no end.
    pub fn execute(&self, range_available: bool, physical_cores: u64) -> (r: Result<
        RunPlan,
        RunError,
    >)
        ensures
            match r {
                Ok(plan) => {
                    &&& self.refusal(range_available).is_none()
                    &&& plan.start_block == self.start_block
                    &&& plan.end_block == self.end_block
                    &&& plan.max_tasks == match self.max_tasks {
                        Some(n) => n,
                        None => default_tasks(physical_cores),
                    }
                    &&& Some(plan.quote_asset) == address_of_text(self.quote_asset@)
                    &&& plan.inspectors@ == match self.inspectors {
                        Some(list) => list@,
                        None => all_inspectors(),
                    }
                    &&& plan.run_dex_pricing == self.run_dex_pricing
                },
                Err(e) => self.refusal(range_available) == Some(e),
            },
    {
        let quote_asset = match self.quote() {
            Ok(a) => a,
            Err(e) => {
                return Err(e);
            },
        };
        if self.end_block.is_some() && !range_available {
            return Err(RunError::RangeUnavailable);
        }
        if !self.run_dex_pricing && self.end_block.is_none() {
            return Err(RunError::EndBlockRequired);
        }
        let inspectors = match &self.inspectors {
            Some(list) => clone_vec(list),
            None => {
                let mut all: Vec<Inspectors> = Vec::new();
                all.push(Inspectors::AtomicBackrun);
                all.push(Inspectors::CexDex);
                all.push(Inspectors::Jit);
                all.push(Inspectors::Liquidations);
                all.push(Inspectors::LongTail);
                all.push(Inspectors::Sandwich);
                assert(all@ =~= all_inspectors());
                all
            },
        };
        Ok(
            RunPlan {
                start_block: self.start_block,
                end_block: self.end_block,
                max_tasks: determine_max_tasks(self.max_tasks, physical_cores),
                quote_asset,
                inspectors,
                run_dex_pricing: self.run_dex_pricing,
            },
        )
    }
}

} // verus!
