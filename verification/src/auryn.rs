//! `Auryn`: two ANS coders, a supply and a waste, that feed each other.
//!
//! Decoding takes a quantile off the supply and puts onto the waste what
//! the decoded symbol did not use of it; encoding does the opposite. Binary
//! data can thus be decoded with entropy models that have nothing to do
//! with it, and encoding the symbols again in reverse order restores it.

use core::convert::Infallible;
use vstd::arithmetic::power2::{lemma_pow2_pos, pow2};
use vstd::prelude::*;

use crate::arith::{
    lemma_div_below,
    lemma_div_mod_split,
    lemma_mul_add_div_mod,
    lemma_pow2_le,
    lemma_pow2_split,
    lemma_shift_in,
    lemma_shift_out,
};
use crate::bit_array::{below_pow2, div_pow2, word_values, BitArray};
use crate::stream::models::{DecoderModel, EncoderModel, EntropyModel};
use crate::stream::stack::{
    all_possible,
    ans_empty,
    ans_flush,
    ans_normal,
    ans_refill,
    ans_seal,
    ans_unseal,
    iid_items,
    iid_models,
    lemma_ans_seal_unseal,
    lemma_ok_tail_len,
    ok_tail,
    valid_precision,
    AnsCoder,
    AnsModel,
};
use crate::stream::{CoderError, EncoderFrontendError, TryCodingError};

verus! {

/// What an `Auryn` holds: its two coders.
pub struct AurynModel {
    pub supply: AnsModel,
    pub waste: AnsModel,
}

/// The invariant of the waste: its head is below `2^(sb - prec)`.
pub open spec fn waste_bounded(waste: AnsModel, sb: nat, prec: nat) -> bool {
    waste.head < pow2((sb - prec) as nat)
}

/// The invariant that the round trip rests on: the supply is in normal
/// form, the words of the waste fit their type, and the head of the waste
/// is below `2^(sb - prec)` and, unless its bulk is empty, not below
/// `2^(sb - wb - prec)`.
pub open spec fn auryn_normal(st: AurynModel, wb: nat, sb: nat, prec: nat) -> bool {
    &&& ans_normal(st.supply, wb, sb)
    &&& waste_bounded(st.waste, sb, prec)
    &&& forall|i: int| 0 <= i < st.waste.bulk.len() ==> #[trigger] st.waste.bulk[i] < pow2(wb)
    &&& st.waste.bulk.len() > 0 ==> st.waste.head >= pow2((sb - wb - prec) as nat)
}

/// The quantile that the next decoded symbol is chosen by.
pub open spec fn auryn_quantile(st: AurynModel, prec: nat) -> nat {
    st.supply.head % pow2(prec)
}

/// The pair after a symbol with the left cumulative `c` and the probability
/// `p` was decoded.
pub open spec fn auryn_decode(st: AurynModel, c: nat, p: nat, wb: nat, sb: nat, prec: nat) -> AurynModel {
    let supply = ans_refill(
        AnsModel { bulk: st.supply.bulk, head: st.supply.head / pow2(prec) },
        wb,
        sb,
    );
    let waste = AnsModel {
        bulk: st.waste.bulk,
        head: (st.waste.head * p + auryn_quantile(st, prec) - c) as nat,
    };
    AurynModel {
        supply,
        waste: if waste.head >= pow2((sb - prec) as nat) {
            ans_flush(waste, wb)
        } else {
            waste
        },
    }
}

/// The pair after a symbol with the left cumulative `c` and the probability
/// `p` was encoded.
pub open spec fn auryn_encode(st: AurynModel, c: nat, p: nat, wb: nat, sb: nat, prec: nat) -> AurynModel {
    let waste = if st.waste.head < p * pow2((sb - wb - prec) as nat) {
        ans_refill(st.waste, wb, sb)
    } else {
        st.waste
    };
    let supply = if st.supply.head / pow2((sb - prec) as nat) != 0 {
        ans_flush(st.supply, wb)
    } else {
        st.supply
    };
    AurynModel {
        supply: AnsModel { bulk: supply.bulk, head: supply.head * pow2(prec) + c + waste.head % p },
        waste: AnsModel { bulk: waste.bulk, head: waste.head / p },
    }
}

/// The pair after one symbol was decoded with each model of `models`, and
/// the symbols in the order in which they came.
pub open spec fn auryn_decode_symbols<const PRECISION: usize, D: EntropyModel<PRECISION>>(
    st: AurynModel,
    models: Seq<D>,
    wb: nat,
    sb: nat,
) -> (AurynModel, Seq<D::Symbol>)
    decreases models.len(),
{
    if models.len() == 0 {
        (st, Seq::empty())
    } else {
        let symbol = models[0].quantile_symbol(auryn_quantile(st, PRECISION as nat));
        let next = auryn_decode(
            st,
            models[0].left_cumulative(symbol),
            models[0].probability(symbol),
            wb,
            sb,
            PRECISION as nat,
        );
        let rest = auryn_decode_symbols(next, models.drop_first(), wb, sb);
        (rest.0, seq![symbol] + rest.1)
    }
}

/// The pair after the symbols of `items` were encoded in reverse order,
/// each with its model.
pub open spec fn auryn_encode_reverse<const PRECISION: usize, D: EntropyModel<PRECISION>>(
    st: AurynModel,
    items: Seq<(D::Symbol, D)>,
    wb: nat,
    sb: nat,
) -> AurynModel
    decreases items.len(),
{
    if items.len() == 0 {
        st
    } else {
        auryn_encode(
            auryn_encode_reverse(st, items.drop_first(), wb, sb),
            items[0].1.left_cumulative(items[0].0),
            items[0].1.probability(items[0].0),
            wb,
            sb,
            PRECISION as nat,
        )
    }
}

/// A supply and a waste of compressed data.
#[derive(Debug)]
pub struct Auryn<Word: BitArray, State: BitArray, const PRECISION: usize> {
    supply: AnsCoder<Word, State>,
    waste: AnsCoder<Word, State>,
}

impl<Word: BitArray, State: BitArray, const PRECISION: usize> View for Auryn<
    Word,
    State,
    PRECISION,
> {
    type V = AurynModel;

    closed spec fn view(&self) -> AurynModel {
        AurynModel { supply: self.supply@, waste: self.waste@ }
    }
}

impl<Word: BitArray, State: BitArray, const PRECISION: usize> Auryn<Word, State, PRECISION> {
    /// The head is at least two words wide, and the precision is above zero
    /// and no more than the width of a word.
    pub open spec fn valid_parameters() -> bool {
        &&& State::spec_bits() >= 2 * Word::spec_bits()
        &&& valid_precision(PRECISION as nat, Word::spec_bits())
    }

    /// The head of the waste is below its bound.
    pub open spec fn wf(&self) -> bool {
        waste_bounded(self@.waste, State::spec_bits(), PRECISION as nat)
    }

    /// The pair of `supply` and an empty waste.
    pub fn with_supply(supply: AnsCoder<Word, State>) -> (auryn: Self)
        requires
            Self::valid_parameters(),
        ensures
            auryn@ == (AurynModel { supply: supply@, waste: ans_empty() }),
            auryn.wf(),
    {
        proof {
            lemma_pow2_pos((State::spec_bits() - PRECISION) as nat);
        }
        Self { supply, waste: AnsCoder::new() }
    }

    /// The pair of `supply` and `waste`; a word of `waste` is flushed if its
    /// head is not below the bound of a waste.
    pub fn with_supply_and_waste(supply: AnsCoder<Word, State>, waste: AnsCoder<Word, State>) -> (auryn: Self)
        requires
            Self::valid_parameters(),
        ensures
            auryn@.supply == supply@,
            auryn@.waste == (if waste_bounded(waste@, State::spec_bits(), PRECISION as nat) {
                waste@
            } else {
                ans_flush(waste@, Word::spec_bits())
            }),
            auryn.wf(),
    {
        proof {
            Word::lemma_width();
            State::lemma_width();
            waste.lemma_bounded();
            lemma_shift_out(waste@.head, State::spec_bits(), Word::spec_bits());
            lemma_pow2_le(
                (State::spec_bits() - Word::spec_bits()) as nat,
                (State::spec_bits() - PRECISION) as nat,
            );
        }
        let mut waste = waste;
        if !below_pow2(waste.state().to_u64(), State::bits() - PRECISION) {
            waste.flush_state();
        }
        Self { supply, waste }
    }

    /// The pair whose supply are the compressed words `compressed` and
    /// whose waste is empty.
    pub fn with_compressed_data(compressed: Vec<Word>) -> (auryn: Self)
        requires
            Self::valid_parameters(),
        ensures
            auryn@ == (AurynModel {
                supply: ans_unseal(word_values(compressed@), Word::spec_bits(), State::spec_bits()),
                waste: ans_empty(),
            }),
            auryn.wf(),
    {
        Self::with_supply(AnsCoder::with_compressed_data(compressed))
    }

    /// The supply.
    pub fn supply(&self) -> (supply: &AnsCoder<Word, State>)
        ensures
            supply@ == self@.supply,
    {
        &self.supply
    }

    /// The supply, open to change.
    pub fn supply_mut(&mut self) -> (supply: &mut AnsCoder<Word, State>)
        ensures
            supply@ == old(self)@.supply,
            final(self)@ == (AurynModel { supply: final(supply)@, waste: old(self)@.waste }),
    {
        &mut self.supply
    }

    /// The waste. Its head may be below the threshold of a coder in normal
    /// form although its bulk holds words.
    pub fn waste(&self) -> (waste: &AnsCoder<Word, State>)
        ensures
            waste@ == self@.waste,
    {
        &self.waste
    }

    /// The waste, refilled into normal form and open to change. Before the
    /// pair codes again, [`Auryn::restore_waste`] must put the waste back
    /// into the form of a waste.
    pub fn waste_mut(&mut self) -> (waste: &mut AnsCoder<Word, State>)
        requires
            Self::valid_parameters(),
        ensures
            waste@ == ans_refill(old(self)@.waste, Word::spec_bits(), State::spec_bits()),
            final(self)@ == (AurynModel { supply: old(self)@.supply, waste: final(waste)@ }),
    {
        self.waste.refill_state_if_possible();
        &mut self.waste
    }

    /// Puts the waste back into the form of a waste after it was open to
    /// change: a word is flushed if its head is not below the bound of a
    /// waste.
    pub fn restore_waste(&mut self)
        requires
            Self::valid_parameters(),
        ensures
            final(self).wf(),
            final(self)@.supply == old(self)@.supply,
            final(self)@.waste == (if waste_bounded(
                old(self)@.waste,
                State::spec_bits(),
                PRECISION as nat,
            ) {
                old(self)@.waste
            } else {
                ans_flush(old(self)@.waste, Word::spec_bits())
            }),
    {
        proof {
            Word::lemma_width();
            State::lemma_width();
            self.waste.lemma_bounded();
            lemma_shift_out(self.waste@.head, State::spec_bits(), Word::spec_bits());
            lemma_pow2_le(
                (State::spec_bits() - Word::spec_bits()) as nat,
                (State::spec_bits() - PRECISION) as nat,
            );
        }
        if !below_pow2(self.waste.state().to_u64(), State::bits() - PRECISION) {
            self.waste.flush_state();
        }
    }

    /// The two coders; the waste is refilled into normal form.
    pub fn into_supply_and_waste(self) -> (parts: (AnsCoder<Word, State>, AnsCoder<Word, State>))
        requires
            Self::valid_parameters(),
        ensures
            parts.0@ == self@.supply,
            parts.1@ == ans_refill(self@.waste, Word::spec_bits(), State::spec_bits()),
    {
        let mut waste = self.waste;
        waste.refill_state_if_possible();
        (self.supply, waste)
    }

    /// The heads of the supply and of the waste.
    pub fn state(&self) -> (state: (State, State))
        ensures
            state.0.as_nat() == self@.supply.head,
            state.1.as_nat() == self@.waste.head,
    {
        (self.supply.state(), self.waste.state())
    }

    /// Whether the supply holds nothing.
    pub fn maybe_empty(&self) -> (empty: bool)
        ensures
            empty <==> self@.supply == ans_empty(),
    {
        self.supply.maybe_empty()
    }

    /// Decodes a symbol with `model`: its quantile comes off the supply,
    /// and what the symbol leaves of the quantile goes onto the waste.
    pub fn decode_symbol<D: DecoderModel<PRECISION>>(&mut self, model: &D) -> (symbol: D::Symbol)
        requires
            Self::valid_parameters(),
            old(self).wf(),
        ensures
            final(self).wf(),
            symbol == model.quantile_symbol(auryn_quantile(old(self)@, PRECISION as nat)),
            final(self)@ == auryn_decode(
                old(self)@,
                model.left_cumulative(symbol),
                model.probability(symbol),
                Word::spec_bits(),
                State::spec_bits(),
                PRECISION as nat,
            ),
    {
        let ghost wb = Word::spec_bits();
        let ghost sb = State::spec_bits();
        let ghost prec = PRECISION as nat;
        proof {
            Word::lemma_width();
            State::lemma_width();
            lemma_pow2_pos(prec);
        }
        let quantile = self.supply.chop_quantile_off_state::<PRECISION>();
        self.supply.refill_state_if_possible();
        let (symbol, left_cumulative, probability) = model.quantile_function(quantile);
        proof {
            model.lemma_quantile_symbol(quantile as nat);
            model.lemma_interval(symbol);
            let w = self.waste@.head;
            let t = pow2((sb - prec) as nat);
            let m = pow2(prec);
            lemma_pow2_split(sb, prec);
            assert((w + 1) * probability <= t * m) by (nonlinear_arith)
                requires
                    w + 1 <= t,
                    probability <= m,
            ;
            assert((w + 1) * probability == w * probability + probability) by (nonlinear_arith);
        }
        let remainder: u64 = quantile - left_cumulative;
        self.waste.encode_remainder_onto_state(remainder, probability);
        if !below_pow2(self.waste.state().to_u64(), State::bits() - PRECISION) {
            proof {
                self.waste.lemma_bounded();
                lemma_shift_out(self.waste@.head, sb, wb);
                lemma_pow2_le((sb - wb) as nat, (sb - prec) as nat);
            }
            self.waste.flush_state();
        }
        symbol
    }

    /// Encodes `symbol` with `model`: what distinguishes the quantile
    /// within the interval of the symbol comes off the waste, and the
    /// quantile goes onto the supply. A symbol that the model gives no
    /// probability is refused, and the pair stays as it was.
    pub fn encode_symbol<D: EncoderModel<PRECISION>>(&mut self, symbol: &D::Symbol, model: &D) -> (result: Result<(), CoderError<EncoderFrontendError, Infallible>>)
        requires
            Self::valid_parameters(),
            old(self).wf(),
        ensures
            final(self).wf(),
            model.probability(*symbol) == 0 ==> result == Err::<
                (),
                CoderError<EncoderFrontendError, Infallible>,
            >(CoderError::FrontendError(EncoderFrontendError::ImpossibleSymbol)) && final(self)@
                == old(self)@,
            model.probability(*symbol) > 0 ==> result is Ok && final(self)@ == auryn_encode(
                old(self)@,
                model.left_cumulative(*symbol),
                model.probability(*symbol),
                Word::spec_bits(),
                State::spec_bits(),
                PRECISION as nat,
            ),
    {
        let ghost wb = Word::spec_bits();
        let ghost sb = State::spec_bits();
        let ghost prec = PRECISION as nat;
        match model.left_cumulative_and_probability(symbol) {
            None => Err(CoderError::FrontendError(EncoderFrontendError::ImpossibleSymbol)),
            Some((left_cumulative, probability)) => {
                proof {
                    Word::lemma_width();
                    State::lemma_width();
                    model.lemma_interval(*symbol);
                    lemma_pow2_split(sb, prec);
                    lemma_pow2_split((sb - wb) as nat, prec);
                    lemma_pow2_split((sb - prec) as nat, wb);
                    lemma_pow2_le((sb - wb) as nat, (sb - prec) as nat);
                    self.waste.lemma_bounded();
                    self.supply.lemma_bounded();
                }
                let ghost low = pow2((sb - wb - prec) as nat);
                let waste_head = self.waste.state().to_u64();
                let scaled = div_pow2(waste_head, State::bits() - Word::bits() - PRECISION);
                proof {
                    lemma_div_below(waste_head as nat, low, probability as nat);
                }
                if scaled < probability {
                    let ghost before = self.waste@;
                    self.waste.refill_state_if_possible();
                    proof {
                        // the refilled head stays below `probability * 2^(sb - prec)`
                        let p = probability as nat;
                        let w = pow2(wb);
                        if self.waste@ != before {
                            let word = before.bulk.last();
                            assert(self.waste@.head == before.head * w + word);
                            assert(word < w);
                            assert(before.head * w + word < (p * low) * w) by (nonlinear_arith)
                                requires
                                    before.head < p * low,
                                    word < w,
                            ;
                            assert((p * low) * w == p * (low * w)) by (nonlinear_arith);
                        } else {
                            assert(p * pow2((sb - prec) as nat) >= pow2((sb - prec) as nat))
                                by (nonlinear_arith)
                                requires
                                    p >= 1,
                            ;
                        }
                    }
                } else {
                    proof {
                        let p = probability as nat;
                        assert(p * pow2((sb - prec) as nat) >= pow2((sb - prec) as nat))
                            by (nonlinear_arith)
                            requires
                                p >= 1,
                        ;
                    }
                }
                proof {
                    let p = probability as nat;
                    let t = pow2((sb - prec) as nat);
                    assert(self.waste@.head < p * t);
                    assert(p * t == t * p) by (nonlinear_arith);
                    lemma_div_below(self.waste@.head, p, t);
                    lemma_div_mod_split(self.waste@.head, p);
                }
                let remainder = self.waste.decode_remainder_off_state(probability);
                if div_pow2(self.supply.state().to_u64(), State::bits() - PRECISION) != 0 {
                    proof {
                        lemma_shift_out(self.supply@.head, sb, wb);
                    }
                    self.supply.flush_state();
                } else {
                    proof {
                        lemma_div_below(self.supply@.head, pow2((sb - prec) as nat), 1);
                    }
                }
                proof {
                    lemma_pow2_le(prec, 64);
                    vstd::arithmetic::power2::lemma2_to64_rest();
                    lemma_shift_in(
                        self.supply@.head,
                        (left_cumulative + remainder) as nat,
                        (sb - prec) as nat,
                        prec,
                    );
                }
                self.supply.append_quantile_to_state::<PRECISION>(left_cumulative + remainder);
                Ok(())
            },
        }
    }
    /// Decodes one symbol with each model of `models`, in their order.
    pub fn decode_symbols<D: DecoderModel<PRECISION>>(&mut self, models: &[D]) -> (symbols: Vec<D::Symbol>)
        requires
            Self::valid_parameters(),
            old(self).wf(),
        ensures
            final(self).wf(),
            (final(self)@, symbols@) == auryn_decode_symbols::<PRECISION, D>(
                old(self)@,
                models@,
                Word::spec_bits(),
                State::spec_bits(),
            ),
    {
        let mut symbols: Vec<D::Symbol> = Vec::new();
        let mut i: usize = 0;
        proof {
            assert(models@.skip(0) =~= models@);
        }
        while i < models.len()
            invariant
                Self::valid_parameters(),
                self.wf(),
                i <= models@.len(),
                auryn_decode_symbols::<PRECISION, D>(
                    old(self)@,
                    models@,
                    Word::spec_bits(),
                    State::spec_bits(),
                ) == ({
                    let rest = auryn_decode_symbols::<PRECISION, D>(
                        self@,
                        models@.skip(i as int),
                        Word::spec_bits(),
                        State::spec_bits(),
                    );
                    (rest.0, symbols@ + rest.1)
                }),
            decreases models@.len() - i,
        {
            let ghost earlier = symbols@;
            let symbol = self.decode_symbol(&models[i]);
            symbols.push(symbol);
            proof {
                assert(models@.skip(i as int).drop_first() =~= models@.skip(i + 1));
                assert(models@.skip(i as int)[0] == models@[i as int]);
                let rest = auryn_decode_symbols::<PRECISION, D>(
                    self@,
                    models@.skip(i + 1),
                    Word::spec_bits(),
                    State::spec_bits(),
                );
                assert(earlier + (seq![symbol] + rest.1) =~= earlier.push(symbol) + rest.1);
            }
            i += 1;
        }
        proof {
            assert(models@.skip(i as int) =~= Seq::empty());
            assert(symbols@ + Seq::<D::Symbol>::empty() =~= symbols@);
        }
        symbols
    }

    /// Decodes `amt` symbols, all with the one model `model`.
    pub fn decode_iid_symbols<D: DecoderModel<PRECISION>>(&mut self, amt: usize, model: &D) -> (symbols: Vec<D::Symbol>)
        requires
            Self::valid_parameters(),
            old(self).wf(),
        ensures
            final(self).wf(),
            (final(self)@, symbols@) == auryn_decode_symbols::<PRECISION, D>(
                old(self)@,
                iid_models(amt as nat, *model),
                Word::spec_bits(),
                State::spec_bits(),
            ),
    {
        let ghost models = iid_models(amt as nat, *model);
        let mut symbols: Vec<D::Symbol> = Vec::new();
        let mut i: usize = 0;
        proof {
            assert(models.skip(0) =~= models);
        }
        while i < amt
            invariant
                Self::valid_parameters(),
                self.wf(),
                i <= amt,
                models == iid_models(amt as nat, *model),
                auryn_decode_symbols::<PRECISION, D>(
                    old(self)@,
                    models,
                    Word::spec_bits(),
                    State::spec_bits(),
                ) == ({
                    let rest = auryn_decode_symbols::<PRECISION, D>(
                        self@,
                        models.skip(i as int),
                        Word::spec_bits(),
                        State::spec_bits(),
                    );
                    (rest.0, symbols@ + rest.1)
                }),
            decreases amt - i,
        {
            let ghost earlier = symbols@;
            let symbol = self.decode_symbol(model);
            symbols.push(symbol);
            proof {
                assert(models.skip(i as int).drop_first() =~= models.skip(i + 1));
                assert(models.skip(i as int)[0] == *model);
                let rest = auryn_decode_symbols::<PRECISION, D>(
                    self@,
                    models.skip(i + 1),
                    Word::spec_bits(),
                    State::spec_bits(),
                );
                assert(earlier + (seq![symbol] + rest.1) =~= earlier.push(symbol) + rest.1);
            }
            i += 1;
        }
        proof {
            assert(models.skip(i as int) =~= Seq::empty());
            assert(symbols@ + Seq::<D::Symbol>::empty() =~= symbols@);
        }
        symbols
    }

    /// Encodes the symbols of `items` in reverse order, each with its
    /// model, and stops at the first symbol that its model gives no
    /// probability.
    pub fn encode_symbols_reverse<D: EncoderModel<PRECISION>>(&mut self, items: &[(D::Symbol, D)]) -> (result: Result<(), CoderError<EncoderFrontendError, Infallible>>)
        requires
            Self::valid_parameters(),
            old(self).wf(),
        ensures
            final(self).wf(),
            result is Ok <==> all_possible::<PRECISION, D>(items@),
            result is Ok ==> final(self)@ == auryn_encode_reverse::<PRECISION, D>(
                old(self)@,
                items@,
                Word::spec_bits(),
                State::spec_bits(),
            ),
            result is Err ==> exists|k: int|
                0 <= k < items@.len() && (#[trigger] items@[k]).1.probability(items@[k].0) == 0
                    && all_possible::<PRECISION, D>(items@.skip(k + 1)) && final(self)@
                    == auryn_encode_reverse::<PRECISION, D>(
                    old(self)@,
                    items@.skip(k + 1),
                    Word::spec_bits(),
                    State::spec_bits(),
                ),
    {
        let mut i: usize = items.len();
        proof {
            assert(items@.skip(i as int) =~= Seq::empty());
        }
        while i > 0
            invariant
                Self::valid_parameters(),
                self.wf(),
                i <= items@.len(),
                all_possible::<PRECISION, D>(items@.skip(i as int)),
                self@ == auryn_encode_reverse::<PRECISION, D>(
                    old(self)@,
                    items@.skip(i as int),
                    Word::spec_bits(),
                    State::spec_bits(),
                ),
            decreases i,
        {
            i -= 1;
            proof {
                assert(items@.skip(i as int).drop_first() =~= items@.skip(i + 1));
                assert(items@.skip(i as int)[0] == items@[i as int]);
            }
            match self.encode_symbol(&items[i].0, &items[i].1) {
                Ok(()) => {
                    proof {
                        assert forall|j: int| 0 <= j < items@.skip(i as int).len() implies (
                        #[trigger] items@.skip(i as int)[j]).1.probability(
                            items@.skip(i as int)[j].0,
                        ) > 0 by {
                            if j > 0 {
                                assert(items@.skip(i as int)[j] == items@.skip(i + 1)[j - 1]);
                            }
                        }
                    }
                },
                Err(error) => {
                    proof {
                        assert(!all_possible::<PRECISION, D>(items@));
                    }
                    return Err(error);
                },
            }
        }
        proof {
            assert(items@.skip(0) =~= items@);
        }
        Ok(())
    }

    /// Encodes the symbols of `items` in reverse order, each with its
    /// model, where some models could not be made: the items are taken from
    /// the last one down to the first failure or the first symbol that its
    /// model gives no probability.
    pub fn try_encode_symbols_reverse<D: EncoderModel<PRECISION>, E>(
        &mut self,
        items: Vec<Result<(D::Symbol, D), E>>,
    ) -> (result: Result<(), TryCodingError<CoderError<EncoderFrontendError, Infallible>, E>>)
        requires
            Self::valid_parameters(),
            old(self).wf(),
        ensures
            final(self).wf(),
            result is Ok <==> ok_tail(items@).len() == items@.len() && all_possible::<
                PRECISION,
                D,
            >(ok_tail(items@)),
            result is Ok ==> final(self)@ == auryn_encode_reverse::<PRECISION, D>(
                old(self)@,
                ok_tail(items@),
                Word::spec_bits(),
                State::spec_bits(),
            ),
            result is Err && result->Err_0 is CodingError <==> !all_possible::<PRECISION, D>(
                ok_tail(items@),
            ),
            result is Err && result->Err_0 is InvalidEntropyModel ==> items@[items@.len() - ok_tail(
                items@,
            ).len() - 1] == Err::<(D::Symbol, D), E>(result->Err_0->InvalidEntropyModel_0)
                && final(self)@ == auryn_encode_reverse::<PRECISION, D>(
                old(self)@,
                ok_tail(items@),
                Word::spec_bits(),
                State::spec_bits(),
            ),
    {
        let ghost all = items@;
        let ghost done = Seq::<(D::Symbol, D)>::empty();
        let mut rest = items;
        proof {
            lemma_ok_tail_len(all);
            assert(ok_tail(all) + done =~= ok_tail(all));
        }
        loop
            invariant
                Self::valid_parameters(),
                self.wf(),
                all == items@,
                rest@.len() + done.len() == all.len(),
                rest@ == all.take(rest@.len() as int),
                ok_tail(all) == ok_tail(rest@) + done,
                all_possible::<PRECISION, D>(done),
                self@ == auryn_encode_reverse::<PRECISION, D>(
                    old(self)@,
                    done,
                    Word::spec_bits(),
                    State::spec_bits(),
                ),
            decreases rest@.len(),
        {
            let ghost before = rest@;
            match rest.pop() {
                None => {
                    proof {
                        assert(before.len() == 0);
                        assert(ok_tail(before) =~= Seq::<(D::Symbol, D)>::empty());
                        assert(Seq::<(D::Symbol, D)>::empty() + done =~= done);
                        assert(ok_tail(all) == done);
                    }
                    return Ok(());
                },
                Some(Err(error)) => {
                    proof {
                        assert(before.last() == all[before.len() - 1]);
                        assert(before.last() is Err);
                        assert(ok_tail(before) =~= Seq::<(D::Symbol, D)>::empty());
                        assert(Seq::<(D::Symbol, D)>::empty() + done =~= done);
                        assert(ok_tail(all) == done);
                    }
                    return Err(TryCodingError::InvalidEntropyModel(error));
                },
                Some(Ok(item)) => {
                    let ghost front = ok_tail(before.drop_last());
                    proof {
                        assert(before.drop_last() =~= all.take(before.len() - 1));
                        assert(ok_tail(before) == front.push(item));
                        assert(front.push(item) + done =~= front + (seq![item] + done));
                        assert((seq![item] + done).drop_first() =~= done);
                    }
                    match self.encode_symbol(&item.0, &item.1) {
                        Ok(()) => {
                            proof {
                                let grown = seq![item] + done;
                                assert forall|j: int| 0 <= j < grown.len() implies (
                                #[trigger] grown[j]).1.probability(grown[j].0) > 0 by {
                                    if j > 0 {
                                        assert(grown[j] == done[j - 1]);
                                    }
                                }
                                done = grown;
                            }
                        },
                        Err(error) => {
                            proof {
                                assert(ok_tail(all)[front.len() as int] == item);
                            }
                            return Err(TryCodingError::CodingError(error));
                        },
                    }
                },
            }
        }
    }

    /// Encodes `symbols` in reverse order, all with the one model `model`.
    pub fn encode_iid_symbols_reverse<D: EncoderModel<PRECISION>>(&mut self, symbols: &[D::Symbol], model: &D) -> (result: Result<(), CoderError<EncoderFrontendError, Infallible>>)
        requires
            Self::valid_parameters(),
            old(self).wf(),
        ensures
            final(self).wf(),
            result is Ok <==> all_possible::<PRECISION, D>(iid_items(symbols@, *model)),
            result is Ok ==> final(self)@ == auryn_encode_reverse::<PRECISION, D>(
                old(self)@,
                iid_items(symbols@, *model),
                Word::spec_bits(),
                State::spec_bits(),
            ),
    {
        let ghost items = iid_items(symbols@, *model);
        let mut i: usize = symbols.len();
        proof {
            assert(items.skip(i as int) =~= Seq::empty());
        }
        while i > 0
            invariant
                Self::valid_parameters(),
                self.wf(),
                i <= symbols@.len(),
                items == iid_items(symbols@, *model),
                all_possible::<PRECISION, D>(items.skip(i as int)),
                self@ == auryn_encode_reverse::<PRECISION, D>(
                    old(self)@,
                    items.skip(i as int),
                    Word::spec_bits(),
                    State::spec_bits(),
                ),
            decreases i,
        {
            i -= 1;
            proof {
                assert(items.skip(i as int).drop_first() =~= items.skip(i + 1));
                assert(items.skip(i as int)[0] == items[i as int]);
            }
            match self.encode_symbol(&symbols[i], model) {
                Ok(()) => {
                    proof {
                        assert forall|j: int| 0 <= j < items.skip(i as int).len() implies (
                        #[trigger] items.skip(i as int)[j]).1.probability(
                            items.skip(i as int)[j].0,
                        ) > 0 by {
                            if j > 0 {
                                assert(items.skip(i as int)[j] == items.skip(i + 1)[j - 1]);
                            }
                        }
                    }
                },
                Err(error) => {
                    proof {
                        assert(items[i as int].1.probability(items[i as int].0) == 0);
                    }
                    return Err(error);
                },
            }
        }
        proof {
            assert(items.skip(0) =~= items);
        }
        Ok(())
    }
}

/// Encoding undoes decoding: after a symbol was decoded from a pair in
/// normal form, encoding it with the same interval `[c, c + p)`, in which
/// the quantile lay, gives the pair back; and the pair in between is in
/// normal form too.
pub proof fn lemma_auryn_encode_inverts_decode(
    st: AurynModel,
    c: nat,
    p: nat,
    wb: nat,
    sb: nat,
    prec: nat,
)
    requires
        valid_precision(prec, wb),
        sb >= 2 * wb,
        auryn_normal(st, wb, sb, prec),
        c <= auryn_quantile(st, prec) < c + p,
        c + p <= pow2(prec),
    ensures
        auryn_encode(auryn_decode(st, c, p, wb, sb, prec), c, p, wb, sb, prec) == st,
        auryn_normal(auryn_decode(st, c, p, wb, sb, prec), wb, sb, prec),
{
    let m = pow2(prec);
    let w = pow2(wb);
    let t = pow2((sb - prec) as nat);
    let thr = pow2((sb - wb) as nat);
    let low = pow2((sb - wb - prec) as nat);
    lemma_pow2_pos(prec);
    lemma_pow2_pos(wb);
    lemma_pow2_split(sb, prec);
    lemma_pow2_split(sb, wb);
    lemma_pow2_split((sb - wb) as nat, prec);
    lemma_pow2_split((sb - prec) as nat, wb);
    lemma_pow2_le((sb - wb) as nat, (sb - prec) as nat);
    let d = auryn_decode(st, c, p, wb, sb, prec);
    let e = auryn_encode(d, c, p, wb, sb, prec);
    let q = auryn_quantile(st, prec);
    let r = (q - c) as nat;

    // the waste
    let big = st.waste.head;
    let w1 = big * p + r;
    assert((big + 1) * p <= t * p) by (nonlinear_arith)
        requires
            big + 1 <= t,
    ;
    assert((big + 1) * p == big * p + p) by (nonlinear_arith);
    assert(t * p == (p * low) * w) by (nonlinear_arith)
        requires
            t == low * w,
    ;
    assert(p * low <= thr) by (nonlinear_arith)
        requires
            p <= m,
            thr == low * m,
    ;
    lemma_mul_add_div_mod(big, p, r);
    if w1 >= t {
        lemma_div_below(w1, w, p * low);
        lemma_div_mod_split(w1, w);
        lemma_div_below(w1, w, low);
        assert(d.waste.bulk.drop_last() =~= st.waste.bulk);
        assert(e.waste == st.waste);
    } else {
        if st.waste.bulk.len() > 0 {
            assert(big * p >= low * p) by (nonlinear_arith)
                requires
                    big >= low,
            ;
            assert(low * p == p * low) by (nonlinear_arith);
            assert(low * p >= low) by (nonlinear_arith)
                requires
                    p >= 1,
            ;
        }
        assert(e.waste == st.waste);
    }

    // the supply
    let s = st.supply.head;
    let hi = s / m;
    lemma_shift_out(s, sb, prec);
    if hi < thr && st.supply.bulk.len() > 0 {
        let last = st.supply.bulk.last();
        lemma_div_below(s, m, low);
        lemma_shift_in(hi, last, (sb - wb) as nat, wb);
        assert(hi * w >= low * w) by (nonlinear_arith)
            requires
                hi >= low,
        ;
        lemma_div_below(d.supply.head, t, 1);
        assert(d.supply.bulk.push(last) =~= st.supply.bulk);
        assert(e.supply == st.supply);
    } else {
        lemma_div_below(hi, t, 1);
        assert(e.supply == st.supply);
    }
    assert forall|i: int| 0 <= i < d.supply.bulk.len() implies #[trigger] d.supply.bulk[i] < pow2(
        wb,
    ) by {
        assert(d.supply.bulk[i] == st.supply.bulk[i]);
    }
    assert forall|i: int| 0 <= i < d.waste.bulk.len() implies #[trigger] d.waste.bulk[i] < pow2(
        wb,
    ) by {
        if i < st.waste.bulk.len() {
            assert(d.waste.bulk[i] == st.waste.bulk[i]);
        }
    }
}

/// Encoding in reverse gives back what was decoded from: after one symbol
/// was decoded with each model of `models` from a pair in normal form,
/// encoding the decoded symbols in reverse order with the same models gives
/// the pair back: the supply holds the compressed data it started from, and
/// a waste that was empty is empty again.
pub proof fn lemma_auryn_round_trip<const PRECISION: usize, D: EntropyModel<PRECISION>>(
    st: AurynModel,
    models: Seq<D>,
    wb: nat,
    sb: nat,
)
    requires
        valid_precision(PRECISION as nat, wb),
        sb >= 2 * wb,
        auryn_normal(st, wb, sb, PRECISION as nat),
    ensures
        ({
            let decoded = auryn_decode_symbols::<PRECISION, D>(st, models, wb, sb);
            &&& decoded.1.len() == models.len()
            &&& auryn_encode_reverse::<PRECISION, D>(
                decoded.0,
                Seq::new(models.len(), |i: int| (decoded.1[i], models[i])),
                wb,
                sb,
            ) == st
            &&& auryn_normal(decoded.0, wb, sb, PRECISION as nat)
        }),
    decreases models.len(),
{
    let decoded = auryn_decode_symbols::<PRECISION, D>(st, models, wb, sb);
    let items = Seq::new(models.len(), |i: int| (decoded.1[i], models[i]));
    if models.len() == 0 {
    } else {
        let q = auryn_quantile(st, PRECISION as nat);
        lemma_pow2_pos(PRECISION as nat);
        lemma_div_mod_split(st.supply.head, pow2(PRECISION as nat));
        let symbol = models[0].quantile_symbol(q);
        models[0].lemma_quantile_symbol(q);
        models[0].lemma_interval(symbol);
        let c = models[0].left_cumulative(symbol);
        let p = models[0].probability(symbol);
        lemma_auryn_encode_inverts_decode(st, c, p, wb, sb, PRECISION as nat);
        let next = auryn_decode(st, c, p, wb, sb, PRECISION as nat);
        lemma_auryn_round_trip::<PRECISION, D>(next, models.drop_first(), wb, sb);
        let rest = auryn_decode_symbols::<PRECISION, D>(next, models.drop_first(), wb, sb);
        let rest_items = Seq::new(
            models.drop_first().len(),
            |i: int| (rest.1[i], models.drop_first()[i]),
        );
        assert(items.drop_first() =~= rest_items);
        assert(items[0] == (symbol, models[0]));
    }
}

/// `Auryn` restores the compressed data it was given: after a pair was made
/// from the compressed words `words`, which do not end in a zero word, one
/// symbol was decoded with each model of `models`, and the symbols were
/// encoded again in reverse order with the same models, the waste is empty
/// and the compressed words of the supply are `words`.
pub proof fn lemma_auryn_restores_compressed<const PRECISION: usize, D: EntropyModel<PRECISION>>(
    words: Seq<nat>,
    models: Seq<D>,
    wb: nat,
    sb: nat,
)
    requires
        valid_precision(PRECISION as nat, wb),
        sb >= 2 * wb,
        forall|i: int| 0 <= i < words.len() ==> #[trigger] words[i] < pow2(wb),
        words.len() == 0 || words.last() > 0,
    ensures
        ({
            let start = AurynModel { supply: ans_unseal(words, wb, sb), waste: ans_empty() };
            let decoded = auryn_decode_symbols::<PRECISION, D>(start, models, wb, sb);
            let encoded = auryn_encode_reverse::<PRECISION, D>(
                decoded.0,
                Seq::new(models.len(), |i: int| (decoded.1[i], models[i])),
                wb,
                sb,
            );
            &&& encoded.waste == ans_empty()
            &&& ans_seal(encoded.supply, wb) == words
        }),
{
    let start = AurynModel { supply: ans_unseal(words, wb, sb), waste: ans_empty() };
    lemma_ans_seal_unseal(words, wb, sb);
    lemma_pow2_pos((sb - PRECISION) as nat);
    assert(auryn_normal(start, wb, sb, PRECISION as nat));
    lemma_auryn_round_trip::<PRECISION, D>(start, models, wb, sb);
}

} // verus!
