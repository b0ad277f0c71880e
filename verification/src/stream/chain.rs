//! The chain coder: a coder that decodes first, in which a change of one
//! entropy model changes only the symbol that is decoded with it.
//!
//! The coder keeps two stacks of words. Decoding consumes quantiles of
//! `PRECISION` bits from the stack `quantiles`, whatever the model, and
//! puts what a symbol leaves of its quantile onto the stack `remainders`.
//! Encoding does the opposite. Between the stacks and the coder stand two
//! heads: a word of which the bits below its highest one bit are bits of
//! `quantiles` that are not consumed yet, and a state that collects
//! remainders.

use core::convert::Infallible;
use vstd::arithmetic::power2::{lemma_pow2_pos, pow2};
use vstd::prelude::*;

use crate::arith::{
    lemma_div_below,
    lemma_div_mod_split,
    lemma_mul_add_div_mod,
    lemma_pow2_le,
    lemma_pow2_split,
    lemma_shift_in,
    lemma_shift_out,
};
use crate::backends::{ReadWords, Stack, WriteWords};
use crate::bit_array::{
    below_pow2,
    div_pow2,
    lemma_word_values_add,
    lemma_word_values_drop_last,
    lemma_word_values_push,
    mod_pow2,
    mul_add,
    mul_pow2_add,
    word_values,
    BitArray,
};
use crate::stream::models::{DecoderModel, EncoderModel, EntropyModel};
use crate::stream::stack::{
    append_head_words,
    append_words,
    binary_tail,
    binary_words,
    head_words,
    iid_items,
    lemma_binary_words_shift,
    lemma_head_words_shift,
    lemma_ok_tail_len,
    ok_tail,
};
use crate::stream::{CoderError, EncoderFrontendError, TryCodingError};

verus! {

/// What a chain coder holds: its two stacks, the oldest word first, and its
/// two heads.
pub struct ChainModel {
    pub quantiles: Seq<nat>,
    pub remainders: Seq<nat>,
    pub quantiles_head: nat,
    pub remainders_head: nat,
}

/// The parameters can be used by a chain coder: the precision is above zero
/// and no more than the width of a word, and a state holds a word and a
/// quantile.
pub open spec fn valid_chain_parameters(wb: nat, sb: nat, prec: nat) -> bool {
    &&& 0 < prec <= wb
    &&& sb >= wb + prec
}

/// The invariant that keeps the arithmetic of a chain coder within its
/// types: the head of the quantiles is a word that is not zero, and the
/// head of the remainders is below `2^(sb - prec)`.
pub open spec fn chain_wf(st: ChainModel, wb: nat, sb: nat, prec: nat) -> bool {
    &&& 1 <= st.quantiles_head < pow2(wb)
    &&& st.remainders_head < pow2((sb - prec) as nat)
}

/// The invariant that the round trip rests on: beyond [`chain_wf`], the
/// head of the remainders is not below `2^(sb - wb - prec)`, and the
/// quantiles are words.
pub open spec fn chain_normal(st: ChainModel, wb: nat, sb: nat, prec: nat) -> bool {
    &&& chain_wf(st, wb, sb, prec)
    &&& st.remainders_head >= pow2((sb - wb - prec) as nat)
    &&& forall|i: int| 0 <= i < st.quantiles.len() ==> #[trigger] st.quantiles[i] < pow2(wb)
}

/// The coder after one symbol was decoded with each model of `models`, the
/// symbols in the order in which they came, and whether the quantiles
/// sufficed; the coder stops where they do not.
pub open spec fn chain_decode_symbols<const PRECISION: usize, D: EntropyModel<PRECISION>>(
    st: ChainModel,
    models: Seq<D>,
    wb: nat,
    sb: nat,
) -> (ChainModel, Seq<D::Symbol>, bool)
    decreases models.len(),
{
    if models.len() == 0 {
        (st, Seq::empty(), true)
    } else if !chain_can_decode(st, wb, PRECISION as nat) {
        (st, Seq::empty(), false)
    } else {
        let symbol = models[0].quantile_symbol(chain_quantile(st, wb, PRECISION as nat));
        let next = chain_decode(
            st,
            models[0].left_cumulative(symbol),
            models[0].probability(symbol),
            wb,
            sb,
            PRECISION as nat,
        );
        let rest = chain_decode_symbols(next, models.drop_first(), wb, sb);
        (rest.0, seq![symbol] + rest.1, rest.2)
    }
}

/// The coder after the symbols of `items` were encoded in reverse order,
/// each with its model, and whether all of them could be encoded; the
/// coder stops at the first that cannot.
pub open spec fn chain_encode_reverse<const PRECISION: usize, D: EntropyModel<PRECISION>>(
    st: ChainModel,
    items: Seq<(D::Symbol, D)>,
    wb: nat,
    sb: nat,
) -> (ChainModel, bool)
    decreases items.len(),
{
    if items.len() == 0 {
        (st, true)
    } else {
        let inner = chain_encode_reverse(st, items.drop_first(), wb, sb);
        let c = items[0].1.left_cumulative(items[0].0);
        let p = items[0].1.probability(items[0].0);
        if !inner.1 || p == 0 || !chain_can_encode(inner.0, p, wb, sb, PRECISION as nat) {
            (inner.0, false)
        } else {
            (chain_encode(inner.0, c, p, wb, sb, PRECISION as nat), true)
        }
    }
}

/// The coder after `count` quantiles were consumed, whatever they were
/// decoded to; its remainders are left as they are.
pub open spec fn chain_skip(st: ChainModel, count: nat, wb: nat, prec: nat) -> ChainModel
    decreases count,
{
    if count == 0 {
        st
    } else {
        let consumed = chain_consume(st, wb, prec);
        chain_skip(
            ChainModel { quantiles: consumed.0, quantiles_head: consumed.1, ..st },
            (count - 1) as nat,
            wb,
            prec,
        )
    }
}

/// Whether the head of the quantiles holds no bits that are not consumed.
pub open spec fn chain_is_whole(st: ChainModel) -> bool {
    st.quantiles_head == 1
}

/// Whether the next quantile needs a word from the stack of quantiles.
pub open spec fn chain_needs_word(st: ChainModel, wb: nat, prec: nat) -> bool {
    prec == wb || st.quantiles_head < pow2(prec)
}

/// Whether a symbol can be decoded: the next quantile needs no word, or
/// the stack of quantiles holds one.
pub open spec fn chain_can_decode(st: ChainModel, wb: nat, prec: nat) -> bool {
    chain_needs_word(st, wb, prec) ==> st.quantiles.len() > 0
}

/// The quantile that the next decoded symbol is chosen by.
pub open spec fn chain_quantile(st: ChainModel, wb: nat, prec: nat) -> nat {
    if chain_needs_word(st, wb, prec) {
        st.quantiles.last() % pow2(prec)
    } else {
        st.quantiles_head % pow2(prec)
    }
}

/// The stack and the head of the quantiles after a quantile was consumed.
pub open spec fn chain_consume(st: ChainModel, wb: nat, prec: nat) -> (Seq<nat>, nat) {
    if chain_needs_word(st, wb, prec) {
        (
            st.quantiles.drop_last(),
            if prec == wb {
                st.quantiles_head
            } else {
                st.quantiles_head * pow2((wb - prec) as nat) + st.quantiles.last() / pow2(prec)
            },
        )
    } else {
        (st.quantiles, st.quantiles_head / pow2(prec))
    }
}

/// The coder after a symbol with the left cumulative `c` and the
/// probability `p` was decoded.
pub open spec fn chain_decode(st: ChainModel, c: nat, p: nat, wb: nat, sb: nat, prec: nat) -> ChainModel {
    let consumed = chain_consume(st, wb, prec);
    let head = (st.remainders_head * p + chain_quantile(st, wb, prec) - c) as nat;
    if head >= pow2((sb - prec) as nat) {
        ChainModel {
            quantiles: consumed.0,
            remainders: st.remainders.push(head % pow2(wb)),
            quantiles_head: consumed.1,
            remainders_head: head / pow2(wb),
        }
    } else {
        ChainModel {
            quantiles: consumed.0,
            remainders: st.remainders,
            quantiles_head: consumed.1,
            remainders_head: head,
        }
    }
}

/// Whether encoding a symbol of probability `p` needs a word from the
/// stack of remainders.
pub open spec fn chain_needs_remainder(st: ChainModel, p: nat, wb: nat, sb: nat, prec: nat) -> bool {
    st.remainders_head < p * pow2((sb - wb - prec) as nat)
}

/// Whether a symbol of probability `p` can be encoded: no word of the
/// remainders is needed, or their stack holds one.
pub open spec fn chain_can_encode(st: ChainModel, p: nat, wb: nat, sb: nat, prec: nat) -> bool {
    chain_needs_remainder(st, p, wb, sb, prec) ==> st.remainders.len() > 0
}

/// The coder after a symbol with the left cumulative `c` and the
/// probability `p` was encoded.
pub open spec fn chain_encode(st: ChainModel, c: nat, p: nat, wb: nat, sb: nat, prec: nat) -> ChainModel {
    let refill = chain_needs_remainder(st, p, wb, sb, prec);
    let head = if refill {
        st.remainders_head * pow2(wb) + st.remainders.last()
    } else {
        st.remainders_head
    };
    let remainders = if refill {
        st.remainders.drop_last()
    } else {
        st.remainders
    };
    let quantile = c + head % p;
    if prec != wb && st.quantiles_head < pow2((wb - prec) as nat) {
        ChainModel {
            quantiles: st.quantiles,
            remainders,
            quantiles_head: st.quantiles_head * pow2(prec) + quantile,
            remainders_head: head / p,
        }
    } else if prec == wb {
        ChainModel {
            quantiles: st.quantiles.push(quantile),
            remainders,
            quantiles_head: st.quantiles_head,
            remainders_head: head / p,
        }
    } else {
        ChainModel {
            quantiles: st.quantiles.push(
                (st.quantiles_head % pow2((wb - prec) as nat)) * pow2(prec) + quantile,
            ),
            remainders,
            quantiles_head: st.quantiles_head / pow2((wb - prec) as nat),
            remainders_head: head / p,
        }
    }
}

/// The stack and the head after the head, which starts as `head`, has taken
/// words from the stack until it is not below `2^(sb - wb - prec)`; `None`
/// where the stack runs out before.
pub open spec fn chain_fill(stack: Seq<nat>, head: nat, wb: nat, sb: nat, prec: nat) -> Option<
    (Seq<nat>, nat),
>
    decreases stack.len(),
{
    if head >= pow2((sb - wb - prec) as nat) {
        Some((stack, head))
    } else if stack.len() == 0 {
        None
    } else {
        chain_fill(stack.drop_last(), head * pow2(wb) + stack.last(), wb, sb, prec)
    }
}

/// The stack and the head of the remainders that a coder starts with when
/// it is made from the stack `stack`, whose last word must not be zero.
pub open spec fn chain_start(stack: Seq<nat>, wb: nat, sb: nat, prec: nat) -> Option<
    (Seq<nat>, nat),
> {
    if stack.len() == 0 || stack.last() == 0 {
        None
    } else {
        chain_fill(stack.drop_last(), stack.last(), wb, sb, prec)
    }
}

/// What is left of a stack from which a coder could not start: the stack
/// without its last word if that word is zero and was to be the head, and
/// nothing otherwise, since the head has then taken all words.
pub open spec fn chain_left_over<Word: BitArray>(stack: Seq<Word>, push_one: bool) -> Seq<Word> {
    if !push_one && stack.len() > 0 && stack.last().as_nat() == 0 {
        stack.drop_last()
    } else {
        Seq::empty()
    }
}

/// The coder that starts to encode onto the stack of remainders `stack`:
/// its last word, which must not be zero, is the head of the quantiles;
/// the head of the remainders starts from what lies below.
pub open spec fn chain_from_remainders(stack: Seq<nat>, wb: nat, sb: nat, prec: nat) -> Option<
    ChainModel,
> {
    if stack.len() == 0 || stack.last() == 0 {
        None
    } else {
        match chain_start(stack.drop_last(), wb, sb, prec) {
            Some((rest, head)) => Some(
                ChainModel {
                    quantiles: Seq::empty(),
                    remainders: rest,
                    quantiles_head: stack.last(),
                    remainders_head: head,
                },
            ),
            None => None,
        }
    }
}

/// The heads of a chain coder.
#[derive(Debug, Clone, Copy, PartialEq, Eq, Hash)]
pub struct ChainCoderHeads<Word: BitArray, State: BitArray, const PRECISION: usize> {
    quantiles: Word,
    remainders: State,
}

impl<Word: BitArray, State: BitArray, const PRECISION: usize> ChainCoderHeads<
    Word,
    State,
    PRECISION,
> {
    /// The head of the quantiles.
    pub closed spec fn quantiles_spec(&self) -> nat {
        self.quantiles.as_nat()
    }

    /// The head of the remainders.
    pub closed spec fn remainders_spec(&self) -> nat {
        self.remainders.as_nat()
    }

    /// Whether the head of the quantiles holds no bits that are not
    /// consumed, so that `quantiles` holds a whole number of words.
    pub fn is_whole(self) -> (whole: bool)
        ensures
            whole <==> self.quantiles_spec() == 1,
    {
        self.quantiles.to_u64() == 1
    }

    /// The head of the quantiles.
    pub fn quantiles(&self) -> (head: Word)
        ensures
            head.as_nat() == self.quantiles_spec(),
    {
        self.quantiles
    }

    /// The head of the remainders.
    pub fn remainders(&self) -> (head: State)
        ensures
            head.as_nat() == self.remainders_spec(),
    {
        self.remainders
    }

    /// The heads of a coder that starts on `source`: the head of the
    /// quantiles is whole; the head of the remainders starts as one, if
    /// `push_one`, or else as the last word of `source`, which must not be
    /// zero, and takes words from `source` until it is not below
    /// `2^(sb - wb - prec)`. Fails where `source` runs out or starts with
    /// a zero word.
    fn new(source: &mut Vec<Word>, push_one: bool) -> (result: Result<Self, ()>)
        requires
            valid_chain_parameters(Word::spec_bits(), State::spec_bits(), PRECISION as nat),
        ensures
            ({
                let start = if push_one {
                    chain_fill(
                        word_values(old(source)@),
                        1,
                        Word::spec_bits(),
                        State::spec_bits(),
                        PRECISION as nat,
                    )
                } else {
                    chain_start(
                        word_values(old(source)@),
                        Word::spec_bits(),
                        State::spec_bits(),
                        PRECISION as nat,
                    )
                };
                match start {
                    Some((stack, head)) => result is Ok && word_values(final(source)@) == stack
                        && result->Ok_0.quantiles_spec() == 1 && result->Ok_0.remainders_spec()
                        == head && head < pow2((State::spec_bits() - PRECISION) as nat),
                    None => result is Err && final(source)@ == chain_left_over(
                        old(source)@,
                        push_one,
                    ),
                }
            }),
    {
        let ghost wb = Word::spec_bits();
        let ghost sb = State::spec_bits();
        let ghost prec = PRECISION as nat;
        let ghost low = (sb - wb - prec) as nat;
        proof {
            Word::lemma_width();
            State::lemma_width();
            lemma_pow2_pos(low);
            lemma_pow2_pos(wb);
            lemma_pow2_split((sb - prec) as nat, wb);
            lemma_pow2_split(sb, prec);
            lemma_pow2_le(wb, (sb - prec) as nat);
            lemma_pow2_le((sb - prec) as nat, sb);
            lemma_pow2_le(sb, 64);
            lemma_pow2_le(1, wb);
            vstd::arithmetic::power2::lemma2_to64();
            vstd::arithmetic::power2::lemma2_to64_rest();
        }
        let shift: usize = State::bits() - Word::bits() - PRECISION;
        let mut head: u64 = 1;
        if !push_one {
            let ghost all = source@;
            match source.pop() {
                None => {
                    proof {
                        assert(source@ =~= Seq::<Word>::empty());
                    }
                    return Err(());
                },
                Some(word) => {
                    proof {
                        lemma_word_values_drop_last(all);
                        word.lemma_value_bound();
                    }
                    if word.to_u64() == 0 {
                        return Err(());
                    }
                    head = word.to_u64();
                },
            }
        }
        let ghost start = word_values(source@);
        let ghost first = head;
        let ghost goal = if push_one {
            chain_fill(word_values(old(source)@), 1, wb, sb, prec)
        } else {
            chain_start(word_values(old(source)@), wb, sb, prec)
        };
        proof {
            assert(goal == chain_fill(start, first as nat, wb, sb, prec));
        }
        while !at_least_pow2(head, shift)
            invariant
                goal == chain_fill(start, first as nat, wb, sb, prec),
                goal == (if push_one {
                    chain_fill(word_values(old(source)@), 1, wb, sb, prec)
                } else {
                    chain_start(word_values(old(source)@), wb, sb, prec)
                }),
                wb == Word::spec_bits(),
                sb == State::spec_bits(),
                prec == PRECISION as nat,
                valid_chain_parameters(wb, sb, prec),
                low == (sb - wb - prec) as nat,
                shift == low,
                0 < wb <= 64,
                0 < sb <= 64,
                head < pow2((sb - prec) as nat),
                pow2((sb - prec) as nat) <= pow2(64),
                pow2(64) == 0x1_0000_0000_0000_0000,
                pow2((sb - prec) as nat) == pow2(low) * pow2(wb),
                chain_fill(word_values(source@), head as nat, wb, sb, prec) == chain_fill(
                    start,
                    first as nat,
                    wb,
                    sb,
                    prec,
                ),
                push_one || (old(source)@.len() > 0 && old(source)@.last().as_nat() != 0),
            decreases source@.len(),
        {
            let ghost all = source@;
            match source.pop() {
                None => {
                    proof {
                        assert(word_values(all).len() == 0);
                        assert(chain_fill(word_values(all), head as nat, wb, sb, prec) is None);
                        assert(source@ =~= Seq::<Word>::empty());
                    }
                    return Err(());
                },
                Some(word) => {
                    proof {
                        lemma_word_values_drop_last(all);
                        word.lemma_value_bound();
                        lemma_shift_in(head as nat, word.as_nat(), low, wb);
                        vstd::arithmetic::power2::lemma_pow2_adds(low, wb);
                    }
                    head = mul_pow2_add(head, Word::bits(), word.to_u64());
                },
            }
        }
        Ok(ChainCoderHeads { quantiles: Word::from_u64(1), remainders: State::from_u64(head) })
    }
}

/// Whether `x` is at least two to the power `k`.
fn at_least_pow2(x: u64, k: usize) -> (r: bool)
    requires
        k <= 64,
    ensures
        r <==> x >= pow2(k as nat),
{
    !below_pow2(x, k)
}

/// The error of a chain coder that decodes.
#[derive(Debug, Clone, Copy, PartialEq, Eq)]
pub enum FrontendError {
    /// The stack of quantiles holds no word for the next quantile.
    OutOfData,
}

impl FrontendError {
    /// The error in words.
    pub fn message(&self) -> (text: String)
        ensures
            text@ == "Out of data."@,
    {
        "Out of data.".to_string()
    }
}

/// The error of one of the two backends of a chain coder.
#[derive(Debug, Clone, Copy, PartialEq, Eq)]
pub enum BackendError<QuantilesBackendError, RemaindersBackendError> {
    Quantiles(QuantilesBackendError),
    Remainders(RemaindersBackendError),
}

/// The error of a change of precision.
#[derive(Debug)]
pub enum ChangePrecisionError<RemaindersBackend, Word> where
    RemaindersBackend: WriteWords<Word> + ReadWords<Word, Stack>,
 {
    /// A word could not be written onto the remainders.
    Write(RemaindersBackend::WriteError),
    /// A word could not be read from the remainders: `None` where they hold
    /// none, the error of the backend otherwise.
    Read(Option<RemaindersBackend::ReadError>),
}

/// A chain coder over words of type `Word` with a state of type `State`.
#[derive(Debug, Clone)]
pub struct ChainCoder<
    Word: BitArray,
    State: BitArray,
    QuantilesBackend,
    RemaindersBackend,
    const PRECISION: usize,
> {
    quantiles: QuantilesBackend,
    remainders: RemaindersBackend,
    heads: ChainCoderHeads<Word, State, PRECISION>,
}

impl<Word: BitArray, State: BitArray, const PRECISION: usize> View for ChainCoder<
    Word,
    State,
    Vec<Word>,
    Vec<Word>,
    PRECISION,
> {
    type V = ChainModel;

    closed spec fn view(&self) -> ChainModel {
        ChainModel {
            quantiles: word_values(self.quantiles@),
            remainders: word_values(self.remainders@),
            quantiles_head: self.heads.quantiles_spec(),
            remainders_head: self.heads.remainders_spec(),
        }
    }
}

impl<Word: BitArray, State: BitArray, const PRECISION: usize> ChainCoder<
    Word,
    State,
    Vec<Word>,
    Vec<Word>,
    PRECISION,
> {
    /// The parameters can be used; see [`valid_chain_parameters`].
    pub open spec fn valid_parameters() -> bool {
        valid_chain_parameters(Word::spec_bits(), State::spec_bits(), PRECISION as nat)
    }

    /// The invariant of the coder; see [`chain_wf`].
    pub open spec fn wf(&self) -> bool {
        chain_wf(self@, Word::spec_bits(), State::spec_bits(), PRECISION as nat)
    }

    /// Whether the head of the quantiles holds no bits that are not
    /// consumed, so that `quantiles` holds a whole number of words.
    pub fn is_whole(&self) -> (whole: bool)
        ensures
            whole <==> chain_is_whole(self@),
    {
        self.heads.is_whole()
    }

    /// The heads.
    pub fn state(&self) -> (heads: ChainCoderHeads<Word, State, PRECISION>)
        ensures
            heads.quantiles_spec() == self@.quantiles_head,
            heads.remainders_spec() == self@.remainders_head,
    {
        self.heads
    }

    /// Whether the stack of quantiles holds no word.
    pub fn maybe_exhausted(&self) -> (exhausted: bool)
        ensures
            exhausted <==> self@.quantiles.len() == 0,
    {
        proof {
            assert(self@.quantiles.len() == self.quantiles@.len());
        }
        self.quantiles.len() == 0
    }

    /// Whether the stack of remainders holds no word.
    pub fn maybe_full(&self) -> (full: bool)
        ensures
            full <==> self@.remainders.len() == 0,
    {
        proof {
            assert(self@.remainders.len() == self.remainders@.len());
        }
        self.remainders.len() == 0
    }

    /// Moves the low word of the head of the remainders onto their stack.
    fn flush_remainders_head(&mut self)
        ensures
            final(self)@ == (ChainModel {
                remainders: old(self)@.remainders.push(
                    old(self)@.remainders_head % pow2(Word::spec_bits()),
                ),
                remainders_head: old(self)@.remainders_head / pow2(Word::spec_bits()),
                ..old(self)@
            }),
    {
        proof {
            Word::lemma_width();
            State::lemma_width();
            self.heads.remainders.lemma_value_bound();
        }
        let head = self.heads.remainders.to_u64();
        let word = Word::from_u64(mod_pow2(head, Word::bits()));
        let ghost earlier = self.remainders@;
        self.remainders.push(word);
        self.heads.remainders = State::from_u64(div_pow2(head, Word::bits()));
        proof {
            lemma_word_values_push(earlier, word);
        }
    }

    /// Moves the last word of the stack of the remainders below their head;
    /// reports whether the stack held a word, and changes nothing if not.
    fn refill_remainders_head(&mut self) -> (refilled: bool)
        requires
            old(self)@.remainders_head < pow2((State::spec_bits() - Word::spec_bits()) as nat),
            State::spec_bits() >= Word::spec_bits(),
        ensures
            refilled <==> old(self)@.remainders.len() > 0,
            refilled ==> final(self)@ == (ChainModel {
                remainders: old(self)@.remainders.drop_last(),
                remainders_head: old(self)@.remainders_head * pow2(Word::spec_bits()) + old(
                    self,
                )@.remainders.last(),
                ..old(self)@
            }),
            !refilled ==> final(self)@ == old(self)@,
    {
        proof {
            Word::lemma_width();
            State::lemma_width();
            assert(self@.remainders.len() == self.remainders@.len());
        }
        let ghost earlier = self.remainders@;
        match self.remainders.pop() {
            None => {
                proof {
                    assert(self.remainders@ =~= earlier);
                }
                false
            },
            Some(word) => {
                proof {
                    lemma_word_values_drop_last(earlier);
                    word.lemma_value_bound();
                    lemma_shift_in(
                        self.heads.remainders.as_nat(),
                        word.as_nat(),
                        (State::spec_bits() - Word::spec_bits()) as nat,
                        Word::spec_bits(),
                    );
                    lemma_pow2_le(State::spec_bits(), 64);
                    vstd::arithmetic::power2::lemma2_to64_rest();
                }
                let head = mul_pow2_add(self.heads.remainders.to_u64(), Word::bits(), word.to_u64());
                self.heads.remainders = State::from_u64(head);
                true
            },
        }
    }

    /// Decodes a symbol with `model`. Fails with
    /// [`FrontendError::OutOfData`], and stays as it was, when the next
    /// quantile needs a word and the stack of quantiles holds none.
    pub fn decode_symbol<D: DecoderModel<PRECISION>>(&mut self, model: &D) -> (result: Result<
        D::Symbol,
        CoderError<FrontendError, BackendError<Infallible, Infallible>>,
    >)
        requires
            Self::valid_parameters(),
            old(self).wf(),
        ensures
            final(self).wf(),
            !chain_can_decode(old(self)@, Word::spec_bits(), PRECISION as nat) ==> result == Err::<
                D::Symbol,
                CoderError<FrontendError, BackendError<Infallible, Infallible>>,
            >(CoderError::FrontendError(FrontendError::OutOfData)) && final(self)@ == old(self)@,
            chain_can_decode(old(self)@, Word::spec_bits(), PRECISION as nat) ==> result is Ok
                && result->Ok_0 == model.quantile_symbol(
                chain_quantile(old(self)@, Word::spec_bits(), PRECISION as nat),
            ) && final(self)@ == chain_decode(
                old(self)@,
                model.left_cumulative(result->Ok_0),
                model.probability(result->Ok_0),
                Word::spec_bits(),
                State::spec_bits(),
                PRECISION as nat,
            ),
    {
        let ghost wb = Word::spec_bits();
        let ghost sb = State::spec_bits();
        let ghost prec = PRECISION as nat;
        let ghost st = self@;
        proof {
            Word::lemma_width();
            State::lemma_width();
            lemma_pow2_pos(prec);
            lemma_pow2_split(wb, prec);
            lemma_pow2_split(sb, prec);
            lemma_pow2_split((sb - prec) as nat, wb);
            lemma_pow2_le(wb, 64);
            lemma_pow2_le(sb, 64);
            vstd::arithmetic::power2::lemma2_to64_rest();
            assert(self@.quantiles.len() == self.quantiles@.len());
        }
        let head: u64 = self.heads.quantiles.to_u64();
        let word: u64;
        if PRECISION == Word::bits() || below_pow2(head, PRECISION) {
            let ghost earlier = self.quantiles@;
            match self.quantiles.pop() {
                None => {
                    proof {
                        assert(self.quantiles@ =~= earlier);
                    }
                    return Err(CoderError::FrontendError(FrontendError::OutOfData));
                },
                Some(read) => {
                    proof {
                        lemma_word_values_drop_last(earlier);
                        read.lemma_value_bound();
                    }
                    word = read.to_u64();
                    if PRECISION != Word::bits() {
                        proof {
                            lemma_shift_out(word as nat, wb, prec);
                            lemma_shift_in(
                                head as nat,
                                (word as nat) / pow2(prec),
                                prec,
                                (wb - prec) as nat,
                            );
                            vstd::arithmetic::power2::lemma_pow2_adds(prec, (wb - prec) as nat);
                            lemma_pow2_pos((wb - prec) as nat);
                            assert(head * pow2((wb - prec) as nat) >= pow2((wb - prec) as nat))
                                by (nonlinear_arith)
                                requires
                                    head >= 1,
                                    pow2((wb - prec) as nat) > 0,
                            ;
                        }
                        let high: u64 = div_pow2(word, PRECISION);
                        let shifted: u64 = mul_pow2_add(head, Word::bits() - PRECISION, high);
                        self.heads.quantiles = Word::from_u64(shifted);
                    }
                },
            }
        } else {
            word = head;
            proof {
                lemma_div_below(head as nat, pow2(prec), 1);
            }
            self.heads.quantiles = Word::from_u64(div_pow2(head, PRECISION));
        }
        let quantile: u64 = mod_pow2(word, PRECISION);
        let (symbol, left_cumulative, probability) = model.quantile_function(quantile);
        proof {
            model.lemma_quantile_symbol(quantile as nat);
            model.lemma_interval(symbol);
            let rh = st.remainders_head;
            let t = pow2((sb - prec) as nat);
            let m = pow2(prec);
            assert((rh + 1) * probability <= t * m) by (nonlinear_arith)
                requires
                    rh + 1 <= t,
                    probability <= m,
            ;
            assert((rh + 1) * probability == rh * probability + probability)
                by (nonlinear_arith);
        }
        let remainder: u64 = quantile - left_cumulative;
        let fresh: u128 = mul_add(self.heads.remainders.to_u64(), probability, remainder);
        self.heads.remainders = State::from_u64(fresh as u64);
        if !below_pow2(fresh as u64, State::bits() - PRECISION) {
            proof {
                lemma_shift_out(fresh as nat, sb, wb);
                lemma_pow2_le((sb - wb) as nat, (sb - prec) as nat);
            }
            self.flush_remainders_head();
        }
        Ok(symbol)
    }

    /// Encodes `symbol` with `model`. A symbol that the model gives no
    /// probability is refused. Where the head of the remainders needs a
    /// word and their stack holds none, the coder fails with the error of
    /// the remainders that holds `None`. Either way the coder stays as it
    /// was.
    pub fn encode_symbol<D: EncoderModel<PRECISION>>(&mut self, symbol: &D::Symbol, model: &D) -> (result: Result<
        (),
        CoderError<EncoderFrontendError, BackendError<Infallible, Option<Infallible>>>,
    >)
        requires
            Self::valid_parameters(),
            old(self).wf(),
        ensures
            final(self).wf(),
            model.probability(*symbol) == 0 ==> result == Err::<
                (),
                CoderError<EncoderFrontendError, BackendError<Infallible, Option<Infallible>>>,
            >(CoderError::FrontendError(EncoderFrontendError::ImpossibleSymbol)) && final(self)@
                == old(self)@,
            model.probability(*symbol) > 0 && !chain_can_encode(
                old(self)@,
                model.probability(*symbol),
                Word::spec_bits(),
                State::spec_bits(),
                PRECISION as nat,
            ) ==> result == Err::<
                (),
                CoderError<EncoderFrontendError, BackendError<Infallible, Option<Infallible>>>,
            >(CoderError::BackendError(BackendError::Remainders(None))) && final(self)@ == old(
                self,
            )@,
            model.probability(*symbol) > 0 && chain_can_encode(
                old(self)@,
                model.probability(*symbol),
                Word::spec_bits(),
                State::spec_bits(),
                PRECISION as nat,
            ) ==> result is Ok && final(self)@ == chain_encode(
                old(self)@,
                model.left_cumulative(*symbol),
                model.probability(*symbol),
                Word::spec_bits(),
                State::spec_bits(),
                PRECISION as nat,
            ),
    {
        let ghost wb = Word::spec_bits();
        let ghost sb = State::spec_bits();
        let ghost prec = PRECISION as nat;
        let ghost st = self@;
        let ghost low = pow2((sb - wb - prec) as nat);
        match model.left_cumulative_and_probability(symbol) {
            None => Err(CoderError::FrontendError(EncoderFrontendError::ImpossibleSymbol)),
            Some((left_cumulative, probability)) => {
                proof {
                    Word::lemma_width();
                    State::lemma_width();
                    model.lemma_interval(*symbol);
                    lemma_pow2_pos(prec);
                    lemma_pow2_split(wb, prec);
                    lemma_pow2_split(sb, prec);
                    lemma_pow2_split((sb - prec) as nat, wb);
                    lemma_pow2_split((sb - wb) as nat, prec);
                    lemma_pow2_le(wb, 64);
                    lemma_pow2_le(sb, 64);
                    lemma_pow2_le(prec, 64);
                    vstd::arithmetic::power2::lemma2_to64_rest();
                    lemma_div_below(st.remainders_head, low, probability as nat);
                    assert(probability * low <= pow2(prec) * low) by (nonlinear_arith)
                        requires
                            probability <= pow2(prec),
                            low >= 0,
                    ;
                    assert(pow2(prec) * low == low * pow2(prec)) by (nonlinear_arith);
                }
                let scaled: u64 = div_pow2(
                    self.heads.remainders.to_u64(),
                    State::bits() - Word::bits() - PRECISION,
                );
                if scaled < probability {
                    if !self.refill_remainders_head() {
                        return Err(CoderError::BackendError(BackendError::Remainders(None)));
                    }
                    proof {
                        let p = probability as nat;
                        let w = pow2(wb);
                        let word = st.remainders.last();
                        lemma_word_values_drop_last(old(self).remainders@);
                        old(self).remainders@.last().lemma_value_bound();
                        assert(st.remainders_head * w + word < (p * low) * w)
                            by (nonlinear_arith)
                            requires
                                st.remainders_head < p * low,
                                word < w,
                        ;
                        assert((p * low) * w == p * (low * w)) by (nonlinear_arith);
                    }
                } else {
                    proof {
                        let p = probability as nat;
                        assert(p * pow2((sb - prec) as nat) >= pow2((sb - prec) as nat))
                            by (nonlinear_arith)
                            requires
                                p >= 1,
                        ;
                    }
                }
                proof {
                    let p = probability as nat;
                    let t = pow2((sb - prec) as nat);
                    assert(self@.remainders_head < p * t);
                    assert(p * t == t * p) by (nonlinear_arith);
                    lemma_div_below(self@.remainders_head, p, t);
                    lemma_div_mod_split(self@.remainders_head, p);
                    lemma_pow2_le((sb - prec) as nat, sb);
                }
                let head: u64 = self.heads.remainders.to_u64();
                let remainder: u64 = head % probability;
                let quantile: u64 = left_cumulative + remainder;
                self.heads.remainders = State::from_u64(head / probability);
                let quantiles_head: u64 = self.heads.quantiles.to_u64();
                if PRECISION != Word::bits() && below_pow2(
                    quantiles_head,
                    Word::bits() - PRECISION,
                ) {
                    proof {
                        lemma_shift_in(
                            quantiles_head as nat,
                            quantile as nat,
                            (wb - prec) as nat,
                            prec,
                        );
                        assert(quantiles_head * pow2(prec) >= pow2(prec)) by (nonlinear_arith)
                            requires
                                quantiles_head >= 1,
                                pow2(prec) > 0,
                        ;
                    }
                    self.heads.quantiles = Word::from_u64(
                        mul_pow2_add(quantiles_head, PRECISION, quantile),
                    );
                } else {
                    let word: u64;
                    if PRECISION == Word::bits() {
                        word = quantile;
                    } else {
                        proof {
                            lemma_shift_out(quantiles_head as nat, wb, (wb - prec) as nat);
                            lemma_shift_in(
                                (quantiles_head as nat) % pow2((wb - prec) as nat),
                                quantile as nat,
                                (wb - prec) as nat,
                                prec,
                            );
                            lemma_div_below(quantiles_head as nat, pow2((wb - prec) as nat), 1);
                        }
                        let low_part: u64 = mod_pow2(quantiles_head, Word::bits() - PRECISION);
                        word = mul_pow2_add(low_part, PRECISION, quantile);
                        self.heads.quantiles = Word::from_u64(
                            div_pow2(quantiles_head, Word::bits() - PRECISION),
                        );
                    }
                    let written = Word::from_u64(word);
                    let ghost earlier = self.quantiles@;
                    self.quantiles.push(written);
                    proof {
                        lemma_word_values_push(earlier, written);
                    }
                }
                Ok(())
            },
        }
    }

    /// The coder that decodes from the stack `quantiles`, whose last word
    /// must not be zero. Fails, and hands back what it has not read of the
    /// stack, where the stack is too short or ends in a zero word.
    pub fn from_quantiles(quantiles: Vec<Word>) -> (result: Result<
        Self,
        CoderError<Vec<Word>, Infallible>,
    >)
        requires
            Self::valid_parameters(),
        ensures
            match chain_start(
                word_values(quantiles@),
                Word::spec_bits(),
                State::spec_bits(),
                PRECISION as nat,
            ) {
                Some((stack, head)) => result is Ok && result->Ok_0.wf() && result->Ok_0@ == (
                ChainModel {
                    quantiles: stack,
                    remainders: Seq::empty(),
                    quantiles_head: 1,
                    remainders_head: head,
                }),
                None => result is Err && result->Err_0 is FrontendError
                    && result->Err_0->FrontendError_0@ == chain_left_over(quantiles@, false),
            },
    {
        let mut quantiles = quantiles;
        proof {
            Word::lemma_width();
            lemma_pow2_le(1, Word::spec_bits());
            vstd::arithmetic::power2::lemma2_to64();
        }
        match ChainCoderHeads::<Word, State, PRECISION>::new(&mut quantiles, false) {
            Ok(heads) => {
                let coder = Self { quantiles, remainders: Vec::new(), heads };
                proof {
                    assert(coder@.remainders =~= Seq::empty());
                }
                Ok(coder)
            },
            Err(()) => Err(CoderError::FrontendError(quantiles)),
        }
    }

    /// The coder that decodes from arbitrary binary data: the head of the
    /// remainders starts as a one bit above the last words of `data`.
    /// Fails, and hands back what it has not read of the data, where the
    /// data are too short.
    pub fn from_binary(data: Vec<Word>) -> (result: Result<Self, CoderError<Vec<Word>, Infallible>>)
        requires
            Self::valid_parameters(),
        ensures
            match chain_fill(
                word_values(data@),
                1,
                Word::spec_bits(),
                State::spec_bits(),
                PRECISION as nat,
            ) {
                Some((stack, head)) => result is Ok && result->Ok_0.wf() && result->Ok_0@ == (
                ChainModel {
                    quantiles: stack,
                    remainders: Seq::empty(),
                    quantiles_head: 1,
                    remainders_head: head,
                }),
                None => result is Err && result->Err_0 is FrontendError
                    && result->Err_0->FrontendError_0@ == Seq::<Word>::empty(),
            },
    {
        let mut data = data;
        proof {
            Word::lemma_width();
            lemma_pow2_le(1, Word::spec_bits());
            vstd::arithmetic::power2::lemma2_to64();
        }
        match ChainCoderHeads::<Word, State, PRECISION>::new(&mut data, true) {
            Ok(heads) => {
                let coder = Self { quantiles: data, remainders: Vec::new(), heads };
                proof {
                    assert(coder@.remainders =~= Seq::empty());
                }
                Ok(coder)
            },
            Err(()) => Err(CoderError::FrontendError(data)),
        }
    }

    /// The coder that encodes onto the stack `remainders`; see
    /// [`chain_from_remainders`]. Fails, and hands back what it has not
    /// read of the stack, where the stack is too short or one of the words
    /// that must not be zero is.
    pub fn from_remainders(remainders: Vec<Word>) -> (result: Result<
        Self,
        CoderError<Vec<Word>, Infallible>,
    >)
        requires
            Self::valid_parameters(),
        ensures
            match chain_from_remainders(
                word_values(remainders@),
                Word::spec_bits(),
                State::spec_bits(),
                PRECISION as nat,
            ) {
                Some(start) => result is Ok && result->Ok_0.wf() && result->Ok_0@ == start,
                None => result is Err && result->Err_0 is FrontendError
                    && result->Err_0->FrontendError_0@ == (if remainders@.len() > 0
                    && remainders@.last().as_nat() != 0 {
                    chain_left_over(remainders@.drop_last(), false)
                } else {
                    chain_left_over(remainders@, false)
                }),
            },
    {
        let mut remainders = remainders;
        let ghost all = remainders@;
        let quantiles_head = match remainders.pop() {
            None => {
                proof {
                    assert(remainders@ =~= Seq::<Word>::empty());
                }
                return Err(CoderError::FrontendError(remainders));
            },
            Some(word) => word,
        };
        proof {
            lemma_word_values_drop_last(all);
            quantiles_head.lemma_value_bound();
        }
        if quantiles_head.to_u64() == 0 {
            return Err(CoderError::FrontendError(remainders));
        }
        let ghost rest = remainders@;
        match ChainCoderHeads::<Word, State, PRECISION>::new(&mut remainders, false) {
            Ok(heads) => {
                let coder = Self {
                    quantiles: Vec::new(),
                    remainders,
                    heads: ChainCoderHeads { quantiles: quantiles_head, remainders: heads.remainders },
                };
                proof {
                    assert(coder@.quantiles =~= Seq::empty());
                }
                Ok(coder)
            },
            Err(()) => Err(CoderError::FrontendError(remainders)),
        }
    }

    /// The two stacks after both heads were moved onto the remainders: the
    /// quantiles, and the remainders followed by the words of their head
    /// and by the head of the quantiles. [`ChainCoder::from_remainders`]
    /// reads them back.
    pub fn into_remainders(self) -> (result: Result<(Vec<Word>, Vec<Word>), Infallible>)
        ensures
            result is Ok,
            word_values(result->Ok_0.0@) == self@.quantiles,
            word_values(result->Ok_0.1@) == (self@.remainders + head_words(
                self@.remainders_head,
                Word::spec_bits(),
            )).push(self@.quantiles_head),
    {
        let mut remainders = self.remainders;
        append_head_words(&mut remainders, self.heads.remainders.to_u64());
        let ghost earlier = remainders@;
        remainders.push(self.heads.quantiles);
        proof {
            lemma_word_values_push(earlier, self.heads.quantiles);
        }
        Ok((self.quantiles, remainders))
    }

    /// The two stacks after the head of the remainders was moved onto the
    /// quantiles: the remainders, and the quantiles followed by the words
    /// of that head. [`ChainCoder::from_quantiles`] reads them back. Fails,
    /// and hands the coder back, where the head of the quantiles holds
    /// bits that are not consumed.
    pub fn into_quantiles(self) -> (result: Result<
        (Vec<Word>, Vec<Word>),
        CoderError<Self, Infallible>,
    >)
        ensures
            !chain_is_whole(self@) ==> result == Err::<
                (Vec<Word>, Vec<Word>),
                CoderError<Self, Infallible>,
            >(CoderError::FrontendError(self)),
            chain_is_whole(self@) ==> result is Ok && word_values(result->Ok_0.0@)
                == self@.remainders && word_values(result->Ok_0.1@) == self@.quantiles
                + head_words(self@.remainders_head, Word::spec_bits()),
    {
        if !self.is_whole() {
            return Err(CoderError::FrontendError(self));
        }
        let mut quantiles = self.quantiles;
        append_head_words(&mut quantiles, self.heads.remainders.to_u64());
        Ok((self.remainders, quantiles))
    }

    /// The two stacks of a coder that was made from binary data, after the
    /// head of the remainders was moved onto the quantiles without its
    /// leading one bit. Fails, and hands the coder back, where the head of
    /// the quantiles holds bits that are not consumed or the highest bit of
    /// the head of the remainders is not the lowest bit of a word.
    pub fn into_binary(self) -> (result: Result<
        (Vec<Word>, Vec<Word>),
        CoderError<Self, Infallible>,
    >)
        ensures
            !chain_is_whole(self@) || binary_words(self@.remainders_head, Word::spec_bits())
                is None ==> result == Err::<(Vec<Word>, Vec<Word>), CoderError<Self, Infallible>>(
                CoderError::FrontendError(self),
            ),
            chain_is_whole(self@) && binary_words(self@.remainders_head, Word::spec_bits())
                is Some ==> result is Ok && word_values(result->Ok_0.0@) == self@.remainders
                && word_values(result->Ok_0.1@) == self@.quantiles + binary_words(
                self@.remainders_head,
                Word::spec_bits(),
            )->Some_0,
    {
        if !self.is_whole() {
            return Err(CoderError::FrontendError(self));
        }
        match binary_tail::<Word>(self.heads.remainders.to_u64()) {
            None => Err(CoderError::FrontendError(self)),
            Some(tail) => {
                let mut quantiles = self.quantiles;
                append_words(&mut quantiles, &tail);
                proof {
                    lemma_word_values_add(self.quantiles@, tail@);
                }
                Ok((self.remainders, quantiles))
            },
        }
    }

    /// The coder for models of the precision `NEW_PRECISION`, which is not
    /// below `PRECISION`; a word of the head of the remainders is flushed
    /// if the head is too large for the new precision.
    pub fn increase_precision<const NEW_PRECISION: usize>(self) -> (result: Result<
        ChainCoder<Word, State, Vec<Word>, Vec<Word>, NEW_PRECISION>,
        Infallible,
    >)
        requires
            Self::valid_parameters(),
            self.wf(),
            NEW_PRECISION >= PRECISION,
            valid_chain_parameters(Word::spec_bits(), State::spec_bits(), NEW_PRECISION as nat),
        ensures
            result is Ok,
            result->Ok_0.wf(),
            result->Ok_0@ == (if self@.remainders_head >= pow2(
                (State::spec_bits() - NEW_PRECISION) as nat,
            ) {
                ChainModel {
                    remainders: self@.remainders.push(
                        self@.remainders_head % pow2(Word::spec_bits()),
                    ),
                    remainders_head: self@.remainders_head / pow2(Word::spec_bits()),
                    ..self@
                }
            } else {
                self@
            }),
    {
        let ghost wb = Word::spec_bits();
        let ghost sb = State::spec_bits();
        proof {
            Word::lemma_width();
            State::lemma_width();
            self.heads.remainders.lemma_value_bound();
            lemma_shift_out(self@.remainders_head, sb, wb);
            lemma_pow2_le((sb - wb) as nat, (sb - NEW_PRECISION) as nat);
        }
        let mut coder = self;
        if !below_pow2(coder.heads.remainders.to_u64(), State::bits() - NEW_PRECISION) {
            coder.flush_remainders_head();
        }
        Ok(
            ChainCoder {
                quantiles: coder.quantiles,
                remainders: coder.remainders,
                heads: ChainCoderHeads {
                    quantiles: coder.heads.quantiles,
                    remainders: coder.heads.remainders,
                },
            },
        )
    }

    /// The coder for models of the precision `NEW_PRECISION`, which is not
    /// above `PRECISION`; the head of the remainders takes a word from
    /// their stack if it is too small for the new precision, and the
    /// change fails with `None` where the stack holds no word then.
    pub fn decrease_precision<const NEW_PRECISION: usize>(self) -> (result: Result<
        ChainCoder<Word, State, Vec<Word>, Vec<Word>, NEW_PRECISION>,
        Option<Infallible>,
    >)
        requires
            Self::valid_parameters(),
            self.wf(),
            0 < NEW_PRECISION <= PRECISION,
        ensures
            ({
                let low = pow2((State::spec_bits() - NEW_PRECISION - Word::spec_bits()) as nat);
                if self@.remainders_head >= low {
                    result is Ok && result->Ok_0@ == self@ && result->Ok_0.wf()
                } else if self@.remainders.len() == 0 {
                    result == Err::<
                        ChainCoder<Word, State, Vec<Word>, Vec<Word>, NEW_PRECISION>,
                        Option<Infallible>,
                    >(None)
                } else {
                    result is Ok && result->Ok_0.wf() && result->Ok_0@ == (ChainModel {
                        remainders: self@.remainders.drop_last(),
                        remainders_head: self@.remainders_head * pow2(Word::spec_bits())
                            + self@.remainders.last(),
                        ..self@
                    })
                }
            }),
    {
        let ghost wb = Word::spec_bits();
        let ghost sb = State::spec_bits();
        let ghost low = (sb - NEW_PRECISION - wb) as nat;
        proof {
            Word::lemma_width();
            State::lemma_width();
            lemma_pow2_le(low, (sb - wb) as nat);
            lemma_pow2_le((sb - PRECISION) as nat, (sb - NEW_PRECISION) as nat);
            lemma_pow2_split((sb - NEW_PRECISION) as nat, wb);
        }
        let mut coder = self;
        if below_pow2(
            coder.heads.remainders.to_u64(),
            State::bits() - NEW_PRECISION - Word::bits(),
        ) {
            let ghost last = coder@.remainders.last();
            if !coder.refill_remainders_head() {
                return Err(None);
            }
            proof {
                lemma_word_values_drop_last(self.remainders@);
                self.remainders@.last().lemma_value_bound();
                lemma_shift_in(self@.remainders_head, last, low, wb);
                vstd::arithmetic::power2::lemma_pow2_adds(low, wb);
            }
        }
        Ok(
            ChainCoder {
                quantiles: coder.quantiles,
                remainders: coder.remainders,
                heads: ChainCoderHeads {
                    quantiles: coder.heads.quantiles,
                    remainders: coder.heads.remainders,
                },
            },
        )
    }

    /// The coder for models of the precision `NEW_PRECISION`; see
    /// [`ChainCoder::increase_precision`] and
    /// [`ChainCoder::decrease_precision`].
    pub fn change_precision<const NEW_PRECISION: usize>(self) -> (result: Result<
        ChainCoder<Word, State, Vec<Word>, Vec<Word>, NEW_PRECISION>,
        ChangePrecisionError<Vec<Word>, Word>,
    >)
        requires
            Self::valid_parameters(),
            self.wf(),
            valid_chain_parameters(Word::spec_bits(), State::spec_bits(), NEW_PRECISION as nat),
        ensures
            result is Ok ==> result->Ok_0.wf(),
            NEW_PRECISION > PRECISION ==> result is Ok && result->Ok_0@ == (
            if self@.remainders_head >= pow2((State::spec_bits() - NEW_PRECISION) as nat) {
                ChainModel {
                    remainders: self@.remainders.push(
                        self@.remainders_head % pow2(Word::spec_bits()),
                    ),
                    remainders_head: self@.remainders_head / pow2(Word::spec_bits()),
                    ..self@
                }
            } else {
                self@
            }),
            NEW_PRECISION <= PRECISION ==> ({
                let low = pow2((State::spec_bits() - NEW_PRECISION - Word::spec_bits()) as nat);
                if self@.remainders_head >= low {
                    result is Ok && result->Ok_0@ == self@
                } else if self@.remainders.len() == 0 {
                    result is Err && result->Err_0 is Read && result->Err_0->Read_0 is None
                } else {
                    result is Ok && result->Ok_0@ == (ChainModel {
                        remainders: self@.remainders.drop_last(),
                        remainders_head: self@.remainders_head * pow2(Word::spec_bits())
                            + self@.remainders.last(),
                        ..self@
                    })
                }
            }),
    {
        if NEW_PRECISION > PRECISION {
            match self.increase_precision::<NEW_PRECISION>() {
                Ok(coder) => Ok(coder),
                Err(error) => Err(ChangePrecisionError::Write(error)),
            }
        } else {
            match self.decrease_precision::<NEW_PRECISION>() {
                Ok(coder) => Ok(coder),
                Err(error) => Err(ChangePrecisionError::Read(error)),
            }
        }
    }

    /// Decodes one symbol with each model of `models`, in their order, and
    /// stops where the quantiles run out.
    pub fn decode_symbols<D: DecoderModel<PRECISION>>(&mut self, models: &[D]) -> (result: Result<
        Vec<D::Symbol>,
        CoderError<FrontendError, BackendError<Infallible, Infallible>>,
    >)
        requires
            Self::valid_parameters(),
            old(self).wf(),
        ensures
            final(self).wf(),
            ({
                let decoded = chain_decode_symbols::<PRECISION, D>(
                    old(self)@,
                    models@,
                    Word::spec_bits(),
                    State::spec_bits(),
                );
                &&& final(self)@ == decoded.0
                &&& result is Ok <==> decoded.2
                &&& result is Ok ==> result->Ok_0@ == decoded.1
                &&& result is Err ==> result == Err::<
                    Vec<D::Symbol>,
                    CoderError<FrontendError, BackendError<Infallible, Infallible>>,
                >(CoderError::FrontendError(FrontendError::OutOfData))
            }),
    {
        let mut symbols: Vec<D::Symbol> = Vec::new();
        let mut i: usize = 0;
        proof {
            assert(models@.skip(0) =~= models@);
        }
        while i < models.len()
            invariant
                Self::valid_parameters(),
                self.wf(),
                i <= models@.len(),
                chain_decode_symbols::<PRECISION, D>(
                    old(self)@,
                    models@,
                    Word::spec_bits(),
                    State::spec_bits(),
                ) == ({
                    let rest = chain_decode_symbols::<PRECISION, D>(
                        self@,
                        models@.skip(i as int),
                        Word::spec_bits(),
                        State::spec_bits(),
                    );
                    (rest.0, symbols@ + rest.1, rest.2)
                }),
            decreases models@.len() - i,
        {
            let ghost earlier = symbols@;
            proof {
                assert(models@.skip(i as int).drop_first() =~= models@.skip(i + 1));
                assert(models@.skip(i as int)[0] == models@[i as int]);
            }
            match self.decode_symbol(&models[i]) {
                Ok(symbol) => {
                    symbols.push(symbol);
                    proof {
                        let rest = chain_decode_symbols::<PRECISION, D>(
                            self@,
                            models@.skip(i + 1),
                            Word::spec_bits(),
                            State::spec_bits(),
                        );
                        assert(earlier + (seq![symbol] + rest.1) =~= earlier.push(symbol)
                            + rest.1);
                    }
                },
                Err(error) => {
                    proof {
                        assert(earlier + Seq::<D::Symbol>::empty() =~= earlier);
                    }
                    return Err(error);
                },
            }
            i += 1;
        }
        proof {
            assert(models@.skip(i as int) =~= Seq::empty());
            assert(symbols@ + Seq::<D::Symbol>::empty() =~= symbols@);
        }
        Ok(symbols)
    }

    /// Encodes the symbols of `items` in reverse order, each with its
    /// model, and stops at the first symbol that cannot be encoded.
    pub fn encode_symbols_reverse<D: EncoderModel<PRECISION>>(
        &mut self,
        items: &[(D::Symbol, D)],
    ) -> (result: Result<
        (),
        CoderError<EncoderFrontendError, BackendError<Infallible, Option<Infallible>>>,
    >)
        requires
            Self::valid_parameters(),
            old(self).wf(),
        ensures
            final(self).wf(),
            ({
                let encoded = chain_encode_reverse::<PRECISION, D>(
                    old(self)@,
                    items@,
                    Word::spec_bits(),
                    State::spec_bits(),
                );
                &&& final(self)@ == encoded.0
                &&& result is Ok <==> encoded.1
            }),
    {
        let mut i: usize = items.len();
        proof {
            assert(items@.skip(i as int) =~= Seq::empty());
        }
        while i > 0
            invariant
                Self::valid_parameters(),
                self.wf(),
                i <= items@.len(),
                chain_encode_reverse::<PRECISION, D>(
                    old(self)@,
                    items@.skip(i as int),
                    Word::spec_bits(),
                    State::spec_bits(),
                ) == (self@, true),
            decreases i,
        {
            i -= 1;
            proof {
                assert(items@.skip(i as int).drop_first() =~= items@.skip(i + 1));
                assert(items@.skip(i as int)[0] == items@[i as int]);
            }
            match self.encode_symbol(&items[i].0, &items[i].1) {
                Ok(()) => {},
                Err(error) => {
                    proof {
                        lemma_encode_reverse_stops::<PRECISION, D>(
                            old(self)@,
                            items@,
                            i as int,
                            Word::spec_bits(),
                            State::spec_bits(),
                        );
                    }
                    return Err(error);
                },
            }
        }
        proof {
            assert(items@.skip(0) =~= items@);
        }
        Ok(())
    }

    /// Encodes the symbols of `items` in reverse order, each with its
    /// model, where some models could not be made: the items are taken from
    /// the last one down to the first failure or the first symbol that
    /// cannot be encoded.
    pub fn try_encode_symbols_reverse<D: EncoderModel<PRECISION>, E>(
        &mut self,
        items: Vec<Result<(D::Symbol, D), E>>,
    ) -> (result: Result<
        (),
        TryCodingError<
            CoderError<EncoderFrontendError, BackendError<Infallible, Option<Infallible>>>,
            E,
        >,
    >)
        requires
            Self::valid_parameters(),
            old(self).wf(),
        ensures
            final(self).wf(),
            final(self)@ == chain_encode_reverse::<PRECISION, D>(
                old(self)@,
                ok_tail(items@),
                Word::spec_bits(),
                State::spec_bits(),
            ).0,
            result is Ok <==> ok_tail(items@).len() == items@.len() && chain_encode_reverse::<
                PRECISION,
                D,
            >(old(self)@, ok_tail(items@), Word::spec_bits(), State::spec_bits()).1,
            result is Err && result->Err_0 is CodingError <==> !chain_encode_reverse::<
                PRECISION,
                D,
            >(old(self)@, ok_tail(items@), Word::spec_bits(), State::spec_bits()).1,
            result is Err && result->Err_0 is InvalidEntropyModel ==> items@[items@.len() - ok_tail(
                items@,
            ).len() - 1] == Err::<(D::Symbol, D), E>(result->Err_0->InvalidEntropyModel_0),
    {
        let ghost all = items@;
        let ghost done = Seq::<(D::Symbol, D)>::empty();
        let mut rest = items;
        proof {
            lemma_ok_tail_len(all);
            assert(ok_tail(all) + done =~= ok_tail(all));
        }
        loop
            invariant
                Self::valid_parameters(),
                self.wf(),
                all == items@,
                rest@.len() + done.len() == all.len(),
                rest@ == all.take(rest@.len() as int),
                ok_tail(all) == ok_tail(rest@) + done,
                chain_encode_reverse::<PRECISION, D>(
                    old(self)@,
                    done,
                    Word::spec_bits(),
                    State::spec_bits(),
                ) == (self@, true),
            decreases rest@.len(),
        {
            let ghost before = rest@;
            match rest.pop() {
                None => {
                    proof {
                        assert(before.len() == 0);
                        assert(ok_tail(before) =~= Seq::<(D::Symbol, D)>::empty());
                        assert(Seq::<(D::Symbol, D)>::empty() + done =~= done);
                        assert(ok_tail(all) == done);
                    }
                    return Ok(());
                },
                Some(Err(error)) => {
                    proof {
                        assert(before.last() == all[before.len() - 1]);
                        assert(before.last() is Err);
                        assert(ok_tail(before) =~= Seq::<(D::Symbol, D)>::empty());
                        assert(Seq::<(D::Symbol, D)>::empty() + done =~= done);
                        assert(ok_tail(all) == done);
                    }
                    return Err(TryCodingError::InvalidEntropyModel(error));
                },
                Some(Ok(item)) => {
                    let ghost front = ok_tail(before.drop_last());
                    proof {
                        assert(before.drop_last() =~= all.take(before.len() - 1));
                        assert(ok_tail(before) == front.push(item));
                        assert(front.push(item) + done =~= front + (seq![item] + done));
                        assert((seq![item] + done).drop_first() =~= done);
                        assert((seq![item] + done)[0] == item);
                    }
                    match self.encode_symbol(&item.0, &item.1) {
                        Ok(()) => {
                            proof {
                                done = seq![item] + done;
                            }
                        },
                        Err(error) => {
                            proof {
                                let tail = ok_tail(all);
                                assert(tail.skip(front.len() as int) =~= seq![item] + done);
                                lemma_encode_reverse_stops::<PRECISION, D>(
                                    old(self)@,
                                    tail,
                                    front.len() as int,
                                    Word::spec_bits(),
                                    State::spec_bits(),
                                );
                            }
                            return Err(TryCodingError::CodingError(error));
                        },
                    }
                },
            }
        }
    }

    /// Encodes `symbols` in reverse order, all with the one model `model`,
    /// and stops at the first symbol that cannot be encoded.
    pub fn encode_iid_symbols_reverse<D: EncoderModel<PRECISION>>(
        &mut self,
        symbols: &[D::Symbol],
        model: &D,
    ) -> (result: Result<
        (),
        CoderError<EncoderFrontendError, BackendError<Infallible, Option<Infallible>>>,
    >)
        requires
            Self::valid_parameters(),
            old(self).wf(),
        ensures
            final(self).wf(),
            ({
                let encoded = chain_encode_reverse::<PRECISION, D>(
                    old(self)@,
                    iid_items(symbols@, *model),
                    Word::spec_bits(),
                    State::spec_bits(),
                );
                &&& final(self)@ == encoded.0
                &&& result is Ok <==> encoded.1
            }),
    {
        let ghost items = iid_items(symbols@, *model);
        let mut i: usize = symbols.len();
        proof {
            assert(items.skip(i as int) =~= Seq::empty());
        }
        while i > 0
            invariant
                Self::valid_parameters(),
                self.wf(),
                i <= symbols@.len(),
                items == iid_items(symbols@, *model),
                chain_encode_reverse::<PRECISION, D>(
                    old(self)@,
                    items.skip(i as int),
                    Word::spec_bits(),
                    State::spec_bits(),
                ) == (self@, true),
            decreases i,
        {
            i -= 1;
            proof {
                assert(items.skip(i as int).drop_first() =~= items.skip(i + 1));
                assert(items.skip(i as int)[0] == items[i as int]);
            }
            match self.encode_symbol(&symbols[i], model) {
                Ok(()) => {},
                Err(error) => {
                    proof {
                        lemma_encode_reverse_stops::<PRECISION, D>(
                            old(self)@,
                            items,
                            i as int,
                            Word::spec_bits(),
                            State::spec_bits(),
                        );
                    }
                    return Err(error);
                },
            }
        }
        proof {
            assert(items.skip(0) =~= items);
        }
        Ok(())
    }
}

/// Where encoding in reverse has stopped, it stays: if the symbols from
/// `k` on cannot all be encoded, then neither can all symbols, and the
/// coder is the one at which encoding stopped.
pub proof fn lemma_encode_reverse_stops<const PRECISION: usize, D: EntropyModel<PRECISION>>(
    st: ChainModel,
    items: Seq<(D::Symbol, D)>,
    k: int,
    wb: nat,
    sb: nat,
)
    requires
        0 <= k <= items.len(),
        !chain_encode_reverse::<PRECISION, D>(st, items.skip(k), wb, sb).1,
    ensures
        chain_encode_reverse::<PRECISION, D>(st, items, wb, sb) == chain_encode_reverse::<
            PRECISION,
            D,
        >(st, items.skip(k), wb, sb),
    decreases k,
{
    if k == 0 {
        assert(items.skip(0) =~= items);
    } else {
        assert(items.skip(k - 1).drop_first() =~= items.skip(k));
        lemma_encode_reverse_stops::<PRECISION, D>(st, items, k - 1, wb, sb);
    }
}

/// Encoding undoes decoding: after a symbol was decoded from a coder in
/// normal form, it can be encoded with the same interval `[c, c + p)`, in
/// which the quantile lay; that gives the coder back, and the coder in
/// between is in normal form too.
pub proof fn lemma_chain_encode_inverts_decode(
    st: ChainModel,
    c: nat,
    p: nat,
    wb: nat,
    sb: nat,
    prec: nat,
)
    requires
        valid_chain_parameters(wb, sb, prec),
        chain_normal(st, wb, sb, prec),
        chain_can_decode(st, wb, prec),
        c <= chain_quantile(st, wb, prec) < c + p,
        c + p <= pow2(prec),
    ensures
        chain_can_encode(chain_decode(st, c, p, wb, sb, prec), p, wb, sb, prec),
        chain_encode(chain_decode(st, c, p, wb, sb, prec), c, p, wb, sb, prec) == st,
        chain_normal(chain_decode(st, c, p, wb, sb, prec), wb, sb, prec),
{
    let m = pow2(prec);
    let w = pow2(wb);
    let t = pow2((sb - prec) as nat);
    let low = pow2((sb - wb - prec) as nat);
    let part = pow2((wb - prec) as nat);
    lemma_pow2_pos(prec);
    lemma_pow2_pos(wb);
    lemma_pow2_split(sb, prec);
    lemma_pow2_split(wb, prec);
    lemma_pow2_split((sb - prec) as nat, wb);
    lemma_pow2_le(wb, (sb - prec) as nat);
    let d = chain_decode(st, c, p, wb, sb, prec);
    let q = chain_quantile(st, wb, prec);
    let r = (q - c) as nat;

    // the remainders
    let big = st.remainders_head;
    let fresh = big * p + r;
    assert((big + 1) * p <= t * p) by (nonlinear_arith)
        requires
            big + 1 <= t,
    ;
    assert((big + 1) * p == big * p + p) by (nonlinear_arith);
    assert(t * p == (p * low) * w) by (nonlinear_arith)
        requires
            t == low * w,
    ;
    assert(big * p >= low * p) by (nonlinear_arith)
        requires
            big >= low,
    ;
    assert(low * p == p * low) by (nonlinear_arith);
    assert(low * p >= low) by (nonlinear_arith)
        requires
            p >= 1,
    ;
    lemma_mul_add_div_mod(big, p, r);
    if fresh >= t {
        lemma_div_below(fresh, w, p * low);
        lemma_div_mod_split(fresh, w);
        lemma_div_below(fresh, w, low);
        assert(d.remainders.drop_last() =~= st.remainders);
        lemma_pow2_split((sb - wb) as nat, prec);
        lemma_pow2_le((sb - wb) as nat, (sb - prec) as nat);
        assert(p * low <= m * low) by (nonlinear_arith)
            requires
                p <= m,
                low >= 0,
        ;
        assert(m * low == low * m) by (nonlinear_arith);
        assert(d.remainders_head < t);
    }
    // the quantiles

    let head = st.quantiles_head;
    if chain_needs_word(st, wb, prec) {
        let word = st.quantiles.last();
        lemma_shift_out(word, wb, prec);
        assert(d.quantiles.push(word) =~= st.quantiles);
        if prec != wb {
            lemma_shift_in(head, word / m, prec, (wb - prec) as nat);
            vstd::arithmetic::power2::lemma_pow2_adds(prec, (wb - prec) as nat);
            assert(head * part >= part) by (nonlinear_arith)
                requires
                    head >= 1,
                    part > 0,
            ;
        } else {
            vstd::arithmetic::div_mod::lemma_small_mod(word, w);
        }
    } else {
        lemma_shift_out(head, wb, prec);
        lemma_div_below(head, m, 1);
    }
    assert(chain_encode(d, c, p, wb, sb, prec) == st);
    assert forall|i: int| 0 <= i < d.quantiles.len() implies #[trigger] d.quantiles[i] < pow2(
        wb,
    ) by {
        assert(d.quantiles[i] == st.quantiles[i]);
    }
}

/// Encoding in reverse gives back what was decoded from: after one symbol
/// was decoded with each model of `models` from a coder in normal form,
/// the decoded symbols can be encoded in reverse order with the same
/// models, and that gives the coder back.
pub proof fn lemma_chain_round_trip<const PRECISION: usize, D: EntropyModel<PRECISION>>(
    st: ChainModel,
    models: Seq<D>,
    wb: nat,
    sb: nat,
)
    requires
        valid_chain_parameters(wb, sb, PRECISION as nat),
        chain_normal(st, wb, sb, PRECISION as nat),
        chain_decode_symbols::<PRECISION, D>(st, models, wb, sb).2,
    ensures
        ({
            let decoded = chain_decode_symbols::<PRECISION, D>(st, models, wb, sb);
            &&& decoded.1.len() == models.len()
            &&& chain_encode_reverse::<PRECISION, D>(
                decoded.0,
                Seq::new(models.len(), |i: int| (decoded.1[i], models[i])),
                wb,
                sb,
            ) == (st, true)
            &&& chain_normal(decoded.0, wb, sb, PRECISION as nat)
        }),
    decreases models.len(),
{
    let decoded = chain_decode_symbols::<PRECISION, D>(st, models, wb, sb);
    let items = Seq::new(models.len(), |i: int| (decoded.1[i], models[i]));
    if models.len() == 0 {
    } else {
        let q = chain_quantile(st, wb, PRECISION as nat);
        lemma_pow2_pos(PRECISION as nat);
        if chain_needs_word(st, wb, PRECISION as nat) {
            lemma_div_mod_split(st.quantiles.last(), pow2(PRECISION as nat));
        } else {
            lemma_div_mod_split(st.quantiles_head, pow2(PRECISION as nat));
        }
        let symbol = models[0].quantile_symbol(q);
        models[0].lemma_quantile_symbol(q);
        models[0].lemma_interval(symbol);
        let c = models[0].left_cumulative(symbol);
        let p = models[0].probability(symbol);
        lemma_chain_encode_inverts_decode(st, c, p, wb, sb, PRECISION as nat);
        let next = chain_decode(st, c, p, wb, sb, PRECISION as nat);
        lemma_chain_round_trip::<PRECISION, D>(next, models.drop_first(), wb, sb);
        let rest = chain_decode_symbols::<PRECISION, D>(next, models.drop_first(), wb, sb);
        let rest_items = Seq::new(
            models.drop_first().len(),
            |i: int| (rest.1[i], models.drop_first()[i]),
        );
        assert(items.drop_first() =~= rest_items);
        assert(items[0] == (symbol, models[0]));
    }
}

/// The quantiles do not depend on the models: the symbol that is decoded
/// in the place `j` is the symbol that the model of that place gives the
/// quantile that the coder holds after `j` quantiles were consumed.
pub proof fn lemma_chain_symbol_at<const PRECISION: usize, D: EntropyModel<PRECISION>>(
    st: ChainModel,
    models: Seq<D>,
    j: int,
    wb: nat,
    sb: nat,
)
    requires
        0 <= j < chain_decode_symbols::<PRECISION, D>(st, models, wb, sb).1.len(),
    ensures
        j < models.len(),
        chain_decode_symbols::<PRECISION, D>(st, models, wb, sb).1[j] == models[j].quantile_symbol(
            chain_quantile(chain_skip(st, j as nat, wb, PRECISION as nat), wb, PRECISION as nat),
        ),
    decreases models.len(),
{
    if models.len() == 0 || !chain_can_decode(st, wb, PRECISION as nat) {
    } else {
        let symbol = models[0].quantile_symbol(chain_quantile(st, wb, PRECISION as nat));
        let next = chain_decode(
            st,
            models[0].left_cumulative(symbol),
            models[0].probability(symbol),
            wb,
            sb,
            PRECISION as nat,
        );
        if j > 0 {
            lemma_chain_symbol_at::<PRECISION, D>(next, models.drop_first(), j - 1, wb, sb);
            let consumed = chain_consume(st, wb, PRECISION as nat);
            let skipped = ChainModel { quantiles: consumed.0, quantiles_head: consumed.1, ..st };
            lemma_chain_skip_same(next, skipped, (j - 1) as nat, wb, PRECISION as nat);
        }
    }
}

/// Two coders with the same quantiles consume the same quantiles.
pub proof fn lemma_chain_skip_same(a: ChainModel, b: ChainModel, count: nat, wb: nat, prec: nat)
    requires
        a.quantiles == b.quantiles,
        a.quantiles_head == b.quantiles_head,
    ensures
        chain_skip(a, count, wb, prec).quantiles == chain_skip(b, count, wb, prec).quantiles,
        chain_skip(a, count, wb, prec).quantiles_head == chain_skip(
            b,
            count,
            wb,
            prec,
        ).quantiles_head,
        chain_quantile(chain_skip(a, count, wb, prec), wb, prec) == chain_quantile(
            chain_skip(b, count, wb, prec),
            wb,
            prec,
        ),
    decreases count,
{
    if count > 0 {
        let ca = chain_consume(a, wb, prec);
        let cb = chain_consume(b, wb, prec);
        lemma_chain_skip_same(
            ChainModel { quantiles: ca.0, quantiles_head: ca.1, ..a },
            ChainModel { quantiles: cb.0, quantiles_head: cb.1, ..b },
            (count - 1) as nat,
            wb,
            prec,
        );
    }
}

/// A change of one model changes one symbol only: where two sequences of
/// models have the same model in the place `j`, the symbols decoded with
/// them from the same coder are the same in that place.
pub proof fn lemma_chain_locality<const PRECISION: usize, D: EntropyModel<PRECISION>>(
    st: ChainModel,
    models: Seq<D>,
    others: Seq<D>,
    j: int,
    wb: nat,
    sb: nat,
)
    requires
        0 <= j < chain_decode_symbols::<PRECISION, D>(st, models, wb, sb).1.len(),
        j < chain_decode_symbols::<PRECISION, D>(st, others, wb, sb).1.len(),
        j < models.len() && j < others.len() ==> models[j] == others[j],
    ensures
        chain_decode_symbols::<PRECISION, D>(st, models, wb, sb).1[j] == chain_decode_symbols::<
            PRECISION,
            D,
        >(st, others, wb, sb).1[j],
{
    lemma_chain_symbol_at::<PRECISION, D>(st, models, j, wb, sb);
    lemma_chain_symbol_at::<PRECISION, D>(st, others, j, wb, sb);
}

/// A head that has taken words from a stack gives them back: the stack
/// that is left, followed by the words of the head, is the stack before,
/// followed by the words of the head before.
pub proof fn lemma_chain_fill_words(stack: Seq<nat>, head: nat, wb: nat, sb: nat, prec: nat)
    requires
        wb > 0,
        head > 0,
        forall|i: int| 0 <= i < stack.len() ==> #[trigger] stack[i] < pow2(wb),
        chain_fill(stack, head, wb, sb, prec) is Some,
    ensures
        chain_fill(stack, head, wb, sb, prec)->Some_0.0 + head_words(
            chain_fill(stack, head, wb, sb, prec)->Some_0.1,
            wb,
        ) == stack + head_words(head, wb),
    decreases stack.len(),
{
    if head >= pow2((sb - wb - prec) as nat) {
    } else {
        let rest = stack.drop_last();
        let next = head * pow2(wb) + stack.last();
        lemma_head_words_shift(head, stack.last(), wb);
        assert(next > 0);
        lemma_chain_fill_words(rest, next, wb, sb, prec);
        assert(rest + (seq![stack.last()] + head_words(head, wb)) =~= stack + head_words(
            head,
            wb,
        ));
    }
}

/// What `into_quantiles` hands back of a coder that `from_quantiles` has
/// just made is what the coder was made from: the quantiles that are left,
/// followed by the words of the head of the remainders, are the words of
/// the input.
pub proof fn lemma_chain_start_words(words: Seq<nat>, wb: nat, sb: nat, prec: nat)
    requires
        wb > 0,
        forall|i: int| 0 <= i < words.len() ==> #[trigger] words[i] < pow2(wb),
        chain_start(words, wb, sb, prec) is Some,
    ensures
        chain_start(words, wb, sb, prec)->Some_0.0 + head_words(
            chain_start(words, wb, sb, prec)->Some_0.1,
            wb,
        ) == words,
{
    let last = words.last();
    let rest = words.drop_last();
    lemma_pow2_pos(wb);
    assert(last < pow2(wb));
    lemma_head_words_shift(0, last, wb);
    assert(0 * pow2(wb) == 0) by (nonlinear_arith);
    assert(head_words(0, wb) =~= Seq::<nat>::empty());
    assert forall|i: int| 0 <= i < rest.len() implies #[trigger] rest[i] < pow2(wb) by {
        assert(rest[i] == words[i]);
    }
    lemma_chain_fill_words(rest, last, wb, sb, prec);
    assert(rest + (seq![last] + Seq::<nat>::empty()) =~= words);
}

/// The head that has taken words from a stack is neither too small nor too
/// large, and what is left of the stack are still words.
pub proof fn lemma_chain_fill_bounds(stack: Seq<nat>, head: nat, wb: nat, sb: nat, prec: nat)
    requires
        valid_chain_parameters(wb, sb, prec),
        head < pow2((sb - prec) as nat),
        forall|i: int| 0 <= i < stack.len() ==> #[trigger] stack[i] < pow2(wb),
        chain_fill(stack, head, wb, sb, prec) is Some,
    ensures
        pow2((sb - wb - prec) as nat) <= chain_fill(stack, head, wb, sb, prec)->Some_0.1 < pow2(
            (sb - prec) as nat,
        ),
        forall|i: int|
            0 <= i < chain_fill(stack, head, wb, sb, prec)->Some_0.0.len() ==> #[trigger] chain_fill(
                stack,
                head,
                wb,
                sb,
                prec,
            )->Some_0.0[i] < pow2(wb),
    decreases stack.len(),
{
    if head >= pow2((sb - wb - prec) as nat) {
    } else {
        let rest = stack.drop_last();
        let next = head * pow2(wb) + stack.last();
        lemma_shift_in(head, stack.last(), (sb - wb - prec) as nat, wb);
        assert((sb - wb - prec) as nat + wb == (sb - prec) as nat);
        assert forall|i: int| 0 <= i < rest.len() implies #[trigger] rest[i] < pow2(wb) by {
            assert(rest[i] == stack[i]);
        }
        lemma_chain_fill_bounds(rest, next, wb, sb, prec);
    }
}

/// The chain coder gives back the quantiles it was made from: after a
/// coder was made from the words `words`, one symbol was decoded with each
/// model of `models`, and the symbols were encoded again in reverse order
/// with the same models, the coder is the coder that was made, its
/// remainders are empty, and its quantiles, followed by the words of the
/// head of the remainders, are `words`.
pub proof fn lemma_chain_restores_quantiles<const PRECISION: usize, D: EntropyModel<PRECISION>>(
    words: Seq<nat>,
    models: Seq<D>,
    wb: nat,
    sb: nat,
)
    requires
        valid_chain_parameters(wb, sb, PRECISION as nat),
        forall|i: int| 0 <= i < words.len() ==> #[trigger] words[i] < pow2(wb),
        chain_start(words, wb, sb, PRECISION as nat) is Some,
        chain_decode_symbols::<PRECISION, D>(
            ChainModel {
                quantiles: chain_start(words, wb, sb, PRECISION as nat)->Some_0.0,
                remainders: Seq::empty(),
                quantiles_head: 1,
                remainders_head: chain_start(words, wb, sb, PRECISION as nat)->Some_0.1,
            },
            models,
            wb,
            sb,
        ).2,
    ensures
        ({
            let start = ChainModel {
                quantiles: chain_start(words, wb, sb, PRECISION as nat)->Some_0.0,
                remainders: Seq::empty(),
                quantiles_head: 1,
                remainders_head: chain_start(words, wb, sb, PRECISION as nat)->Some_0.1,
            };
            let decoded = chain_decode_symbols::<PRECISION, D>(start, models, wb, sb);
            let encoded = chain_encode_reverse::<PRECISION, D>(
                decoded.0,
                Seq::new(models.len(), |i: int| (decoded.1[i], models[i])),
                wb,
                sb,
            );
            &&& encoded == (start, true)
            &&& chain_is_whole(encoded.0)
            &&& encoded.0.remainders.len() == 0
            &&& encoded.0.quantiles + head_words(encoded.0.remainders_head, wb) == words
        }),
{
    let prec = PRECISION as nat;
    let filled = chain_start(words, wb, sb, prec)->Some_0;
    let start = ChainModel {
        quantiles: filled.0,
        remainders: Seq::empty(),
        quantiles_head: 1,
        remainders_head: filled.1,
    };
    let rest = words.drop_last();
    assert forall|i: int| 0 <= i < rest.len() implies #[trigger] rest[i] < pow2(wb) by {
        assert(rest[i] == words[i]);
    }
    lemma_pow2_le(wb, (sb - prec) as nat);
    lemma_pow2_le(1, wb);
    vstd::arithmetic::power2::lemma2_to64();
    lemma_chain_fill_bounds(rest, words.last(), wb, sb, prec);
    lemma_chain_start_words(words, wb, sb, prec);
    assert(chain_normal(start, wb, sb, prec));
    lemma_chain_round_trip::<PRECISION, D>(start, models, wb, sb);
}

/// Binary data come back as they went in: where the head of the remainders
/// starts as a one bit above binary data and takes words from them, the
/// words that are left, followed by the words of the head without its
/// leading one bit, are the data. `into_binary` thus hands back what
/// `from_binary` was given.
pub proof fn lemma_chain_binary_round_trip(stack: Seq<nat>, head: nat, wb: nat, sb: nat, prec: nat)
    requires
        wb > 0,
        head >= 1,
        binary_words(head, wb) is Some,
        forall|i: int| 0 <= i < stack.len() ==> #[trigger] stack[i] < pow2(wb),
        chain_fill(stack, head, wb, sb, prec) is Some,
    ensures
        binary_words(chain_fill(stack, head, wb, sb, prec)->Some_0.1, wb) is Some,
        chain_fill(stack, head, wb, sb, prec)->Some_0.0 + binary_words(
            chain_fill(stack, head, wb, sb, prec)->Some_0.1,
            wb,
        )->Some_0 == stack + binary_words(head, wb)->Some_0,
    decreases stack.len(),
{
    if head >= pow2((sb - wb - prec) as nat) {
    } else {
        let rest = stack.drop_last();
        let word = stack.last();
        let next = head * pow2(wb) + word;
        lemma_binary_words_shift(head, word, wb);
        lemma_pow2_pos(wb);
        assert(head * pow2(wb) >= 1) by (nonlinear_arith)
            requires
                head >= 1,
                pow2(wb) >= 1,
        ;
        assert forall|i: int| 0 <= i < rest.len() implies #[trigger] rest[i] < pow2(wb) by {
            assert(rest[i] == stack[i]);
        }
        lemma_chain_binary_round_trip(rest, next, wb, sb, prec);
        assert(rest + (seq![word] + binary_words(head, wb)->Some_0) =~= stack + binary_words(
            head,
            wb,
        )->Some_0);
    }
}

} // verus!
