//! Entropy models in fixed-point arithmetic.
//!
//! A model of precision `PRECISION` gives every symbol an interval of
//! quantiles `[left_cumulative, left_cumulative + probability)` within
//! `[0, 2^PRECISION)`. The intervals of two symbols never overlap, and every
//! quantile lies in the interval of exactly one symbol.

use vstd::arithmetic::power2::pow2;
use vstd::prelude::*;

use crate::bit_array::pow2_u128;

verus! {

/// The mathematical content of an entropy model.
pub trait EntropyModel<const PRECISION: usize> {
    type Symbol;

    /// The sum of the probabilities of all symbols before `symbol`.
    spec fn left_cumulative(&self, symbol: Self::Symbol) -> nat;

    /// The probability of `symbol`, in units of `2^-PRECISION`; zero for a
    /// symbol that cannot occur.
    spec fn probability(&self, symbol: Self::Symbol) -> nat;

    /// The symbol in whose interval `quantile` lies.
    spec fn quantile_symbol(&self, quantile: nat) -> Self::Symbol;

    /// The interval of every symbol lies within `[0, 2^PRECISION)`.
    proof fn lemma_interval(&self, symbol: Self::Symbol)
        ensures
            self.left_cumulative(symbol) + self.probability(symbol) <= pow2(PRECISION as nat),
    ;

    /// Every quantile lies in the interval of its symbol.
    proof fn lemma_quantile_symbol(&self, quantile: nat)
        requires
            quantile < pow2(PRECISION as nat),
        ensures
            self.left_cumulative(self.quantile_symbol(quantile)) <= quantile
                < self.left_cumulative(self.quantile_symbol(quantile)) + self.probability(
                self.quantile_symbol(quantile),
            ),
    ;

    /// A quantile lies in the interval of no other symbol.
    proof fn lemma_symbol_of_quantile(&self, symbol: Self::Symbol, quantile: nat)
        requires
            self.left_cumulative(symbol) <= quantile < self.left_cumulative(symbol)
                + self.probability(symbol),
        ensures
            self.quantile_symbol(quantile) == symbol,
    ;
}

/// A model that can be used to encode.
pub trait EncoderModel<const PRECISION: usize>: EntropyModel<PRECISION> {
    /// The left cumulative and the probability of `symbol`, or `None` for a
    /// symbol of probability zero.
    fn left_cumulative_and_probability(&self, symbol: &Self::Symbol) -> (result: Option<(u64, u64)>)
        ensures
            result is Some <==> self.probability(*symbol) > 0,
            result is Some ==> result->Some_0.0 == self.left_cumulative(*symbol)
                && result->Some_0.1 == self.probability(*symbol),
    ;
}

/// A model that can be used to decode.
pub trait DecoderModel<const PRECISION: usize>: EntropyModel<PRECISION> {
    /// The symbol in whose interval `quantile` lies, with its left
    /// cumulative and its probability.
    fn quantile_function(&self, quantile: u64) -> (result: (Self::Symbol, u64, u64))
        requires
            quantile < pow2(PRECISION as nat),
        ensures
            result.0 == self.quantile_symbol(quantile as nat),
            result.1 == self.left_cumulative(result.0),
            result.2 == self.probability(result.0),
    ;
}

/// A model over a range of consecutive integers, given by the table of its
/// left cumulatives.
///
/// The table has one entry more than there are symbols. It starts with `0`,
/// ends with `2^PRECISION` and grows strictly, so that every symbol of the
/// range has a probability above zero.
#[derive(Debug)]
pub struct ContiguousCategorical<const PRECISION: usize> {
    min_symbol: i32,
    cdf: Vec<u64>,
}

/// Whether `cdf` is the table of left cumulatives of a model of precision
/// `precision`.
pub open spec fn is_cumulative_table(cdf: Seq<u64>, precision: nat) -> bool {
    &&& cdf.len() >= 2
    &&& cdf[0] == 0
    &&& cdf[cdf.len() - 1] == pow2(precision)
    &&& forall|i: int| 0 <= i < cdf.len() - 1 ==> #[trigger] cdf[i] < cdf[i + 1]
}

/// Whether `quantile` lies between the entries `i` and `i + 1` of `cdf`.
pub open spec fn quantile_in_step(cdf: Seq<u64>, i: int, quantile: nat) -> bool {
    0 <= i < cdf.len() - 1 && cdf[i] <= quantile < cdf[i + 1]
}

/// A table that grows strictly from step to step grows strictly overall.
pub proof fn lemma_table_grows(cdf: Seq<u64>, i: int, j: int)
    requires
        forall|k: int| 0 <= k < cdf.len() - 1 ==> #[trigger] cdf[k] < cdf[k + 1],
        0 <= i <= j < cdf.len(),
    ensures
        cdf[i] <= cdf[j],
        i < j ==> cdf[i] < cdf[j],
    decreases j - i,
{
    if i < j {
        lemma_table_grows(cdf, i, j - 1);
        assert(cdf[j - 1] < cdf[j - 1 + 1]);
    }
}

impl<const PRECISION: usize> ContiguousCategorical<PRECISION> {
    /// The smallest symbol of the range.
    pub closed spec fn min(&self) -> int {
        self.min_symbol as int
    }

    /// The table of left cumulatives.
    pub closed spec fn table(&self) -> Seq<u64> {
        self.cdf@
    }

    #[verifier::type_invariant]
    spec fn inv(&self) -> bool {
        self.wf()
    }

    /// The table is one of precision `PRECISION`, and the range of symbols
    /// fits the symbol type. Every model that `new` hands out is well
    /// formed; a value that is not stands for the model in which the symbol
    /// `0` is certain.
    pub open spec fn wf(&self) -> bool {
        &&& 0 < PRECISION < 64
        &&& is_cumulative_table(self.table(), PRECISION as nat)
        &&& self.min() + self.table().len() - 2 <= i32::MAX
    }

    /// The number of symbols.
    pub open spec fn num_symbols(&self) -> nat {
        (self.table().len() - 1) as nat
    }

    /// Whether `symbol` lies in the range.
    pub open spec fn supports(&self, symbol: i32) -> bool {
        self.min() <= symbol < self.min() + self.num_symbols()
    }

    /// The model over the symbols from `min_symbol` on whose left
    /// cumulatives are `cdf`; `None` where `cdf` is no table of precision
    /// `PRECISION` or the range does not fit the symbol type.
    pub fn new(min_symbol: i32, cdf: Vec<u64>) -> (result: Option<Self>)
        ensures
            result is Some <==> 0 < PRECISION < 64 && is_cumulative_table(cdf@, PRECISION as nat)
                && min_symbol + cdf@.len() - 2 <= i32::MAX,
            result is Some ==> result->Some_0.wf() && result->Some_0.min() == min_symbol
                && result->Some_0.table() == cdf@,
    {
        if PRECISION == 0 || PRECISION >= 64 {
            return None;
        }
        let total = pow2_u128(PRECISION);
        let len = cdf.len();
        if len < 2 || cdf[0] != 0 || cdf[len - 1] as u128 != total {
            return None;
        }
        if (len - 2) as u128 > (i32::MAX as i64 - min_symbol as i64) as u128 {
            return None;
        }
        let mut i: usize = 0;
        while i < len - 1
            invariant
                len == cdf@.len(),
                len >= 2,
                i <= len - 1,
                forall|k: int| 0 <= k < i ==> #[trigger] cdf@[k] < cdf@[k + 1],
            decreases len - i,
        {
            if cdf[i] >= cdf[i + 1] {
                return None;
            }
            i += 1;
        }
        Some(Self { min_symbol, cdf })
    }

    /// The symbol with the index `index`.
    fn symbol_at(&self, index: usize) -> (symbol: i32)
        requires
            index < self.num_symbols(),
        ensures
            symbol == self.min() + index,
    {
        proof {
            use_type_invariant(self);
        }
        (self.min_symbol as i64 + index as i64) as i32
    }
}

impl<const PRECISION: usize> EntropyModel<PRECISION> for ContiguousCategorical<PRECISION> {
    type Symbol = i32;

    open spec fn left_cumulative(&self, symbol: i32) -> nat {
        if self.wf() && self.supports(symbol) {
            self.table()[symbol - self.min()] as nat
        } else {
            0
        }
    }

    open spec fn probability(&self, symbol: i32) -> nat {
        if self.wf() {
            if self.supports(symbol) {
                (self.table()[symbol - self.min() + 1] - self.table()[symbol - self.min()]) as nat
            } else {
                0
            }
        } else {
            if symbol == 0 {
                pow2(PRECISION as nat)
            } else {
                0
            }
        }
    }

    open spec fn quantile_symbol(&self, quantile: nat) -> i32 {
        if self.wf() && quantile < pow2(PRECISION as nat) {
            let index = choose|i: int| quantile_in_step(self.table(), i, quantile);
            (self.min() + index) as i32
        } else {
            0
        }
    }

    proof fn lemma_interval(&self, symbol: i32) {
        if self.wf() && self.supports(symbol) {
            let i = symbol - self.min();
            assert(self.table()[i] < self.table()[i + 1]);
            lemma_table_grows(self.table(), i + 1, self.table().len() - 1);
        }
    }

    proof fn lemma_quantile_symbol(&self, quantile: nat) {
        if self.wf() {
            self.lemma_index_exists(quantile);
        }
    }

    proof fn lemma_symbol_of_quantile(&self, symbol: i32, quantile: nat) {
        if self.wf() && self.supports(symbol) {
            let i = symbol - self.min();
            self.lemma_interval(symbol);
            self.lemma_index_exists(quantile);
            let index = choose|k: int| quantile_in_step(self.table(), k, quantile);
            if index < i {
                lemma_table_grows(self.table(), index + 1, i);
            }
            if i < index {
                lemma_table_grows(self.table(), i + 1, index);
            }
        }
    }
}

impl<const PRECISION: usize> ContiguousCategorical<PRECISION> {
    /// Every quantile lies between two neighbours of the table.
    proof fn lemma_index_exists(&self, quantile: nat)
        requires
            self.wf(),
            quantile < pow2(PRECISION as nat),
        ensures
            exists|i: int| quantile_in_step(self.table(), i, quantile),
    {
        self.lemma_index_below(quantile, self.table().len() - 1);
    }

    /// A quantile below an entry of the table lies between two neighbours
    /// before that entry.
    proof fn lemma_index_below(&self, quantile: nat, bound: int)
        requires
            self.wf(),
            0 < bound < self.table().len(),
            quantile < self.table()[bound],
        ensures
            exists|i: int| i < bound && quantile_in_step(self.table(), i, quantile),
        decreases bound,
    {
        if self.table()[bound - 1] <= quantile {
            assert(quantile_in_step(self.table(), bound - 1, quantile));
        } else {
            self.lemma_index_below(quantile, bound - 1);
        }
    }
}

impl<const PRECISION: usize> EncoderModel<PRECISION> for ContiguousCategorical<PRECISION> {
    fn left_cumulative_and_probability(&self, symbol: &i32) -> (result: Option<(u64, u64)>) {
        proof {
            use_type_invariant(self);
        }
        let len = self.cdf.len();
        if *symbol < self.min_symbol {
            return None;
        }
        let offset: i64 = *symbol as i64 - self.min_symbol as i64;
        if offset >= (len - 1) as i64 {
            return None;
        }
        let index: usize = offset as usize;
        let left = self.cdf[index];
        let right = self.cdf[index + 1];
        proof {
            assert(self.table()[index as int] < self.table()[index as int + 1]);
        }
        Some((left, right - left))
    }
}

impl<const PRECISION: usize> DecoderModel<PRECISION> for ContiguousCategorical<PRECISION> {
    fn quantile_function(&self, quantile: u64) -> (result: (i32, u64, u64)) {
        proof {
            use_type_invariant(self);
            lemma_table_grows(self.table(), 0, self.table().len() - 1);
        }
        let mut low: usize = 0;
        let mut high: usize = self.cdf.len() - 1;
        while high - low > 1
            invariant
                self.wf(),
                low < high < self.cdf@.len(),
                self.cdf@[low as int] <= quantile < self.cdf@[high as int],
            decreases high - low,
        {
            let middle: usize = low + (high - low) / 2;
            if self.cdf[middle] <= quantile {
                low = middle;
            } else {
                high = middle;
            }
        }
        let symbol = self.symbol_at(low);
        let left = self.cdf[low];
        let right = self.cdf[low + 1];
        proof {
            self.lemma_symbol_of_quantile(symbol, quantile as nat);
        }
        (symbol, left, right - left)
    }
}

} // verus!
