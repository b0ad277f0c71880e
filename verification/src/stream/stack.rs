//! The ANS coder: a stack of compressed words with a head.
//!
//! Symbols are encoded onto the head and decoded off it in the opposite
//! order. The coder is described by [`AnsModel`]: the words of the bulk, the
//! oldest first, and the numeric value of the head.

use core::convert::Infallible;
use vstd::arithmetic::power2::{lemma_pow2_pos, pow2};
use vstd::prelude::*;

use crate::arith::{
    lemma_div_below,
    lemma_div_mod_split,
    lemma_mul_add_div_mod,
    lemma_pow2_le,
    lemma_pow2_split,
    lemma_shift_in,
    lemma_shift_out,
};
use crate::bit_array::{
    below_pow2,
    div_pow2,
    lemma_word_values_add,
    lemma_word_values_drop_last,
    lemma_word_values_push,
    mod_pow2,
    mul_add,
    mul_pow2_add,
    word_values,
    BitArray,
};
use crate::stream::models::{DecoderModel, EncoderModel, EntropyModel};
use crate::stream::{CoderError, EncoderFrontendError};

verus! {

/// What an ANS coder holds: the words of its bulk, the oldest first, and
/// its head.
pub struct AnsModel {
    pub bulk: Seq<nat>,
    pub head: nat,
}

/// The coder that holds nothing.
pub open spec fn ans_empty() -> AnsModel {
    AnsModel { bulk: Seq::empty(), head: 0 }
}

/// The low word of the head moves onto the bulk.
pub open spec fn ans_flush(st: AnsModel, wb: nat) -> AnsModel {
    AnsModel { bulk: st.bulk.push(st.head % pow2(wb)), head: st.head / pow2(wb) }
}

/// The last word of the bulk moves below the head.
pub open spec fn ans_pull(st: AnsModel, wb: nat) -> AnsModel {
    AnsModel { bulk: st.bulk.drop_last(), head: st.head * pow2(wb) + st.bulk.last() }
}

/// The head takes one word from the bulk if it is below its threshold and
/// the bulk has one.
pub open spec fn ans_refill(st: AnsModel, wb: nat, sb: nat) -> AnsModel {
    if st.head < pow2((sb - wb) as nat) && st.bulk.len() > 0 {
        ans_pull(st, wb)
    } else {
        st
    }
}

/// The head takes words from the bulk until it reaches its threshold or the
/// bulk is empty.
pub open spec fn ans_fill(st: AnsModel, wb: nat, sb: nat) -> AnsModel
    decreases st.bulk.len(),
{
    if st.head < pow2((sb - wb) as nat) && st.bulk.len() > 0 {
        ans_fill(ans_pull(st, wb), wb, sb)
    } else {
        st
    }
}

/// The coder after a symbol with the left cumulative `c` and the
/// probability `p` was encoded.
pub open spec fn ans_encode(st: AnsModel, c: nat, p: nat, wb: nat, sb: nat, prec: nat) -> AnsModel {
    let flushed = if st.head / pow2((sb - prec) as nat) >= p {
        ans_flush(st, wb)
    } else {
        st
    };
    AnsModel {
        bulk: flushed.bulk,
        head: (flushed.head / p) * pow2(prec) + flushed.head % p + c,
    }
}

/// The quantile that the next decoded symbol is chosen by.
pub open spec fn ans_quantile(st: AnsModel, prec: nat) -> nat {
    st.head % pow2(prec)
}

/// The coder after a symbol with the left cumulative `c` and the
/// probability `p` was decoded.
pub open spec fn ans_decode(st: AnsModel, c: nat, p: nat, wb: nat, sb: nat, prec: nat) -> AnsModel {
    ans_refill(
        AnsModel {
            bulk: st.bulk,
            head: (p * (st.head / pow2(prec)) + ans_quantile(st, prec) - c) as nat,
        },
        wb,
        sb,
    )
}

/// The words of a head from the lowest one up to its highest word that is
/// not zero.
pub open spec fn head_words(head: nat, wb: nat) -> Seq<nat>
    decreases head,
    when wb > 0
{
    if head == 0 {
        Seq::empty()
    } else {
        proof {
            lemma_pow2_pos(wb);
            lemma_quotient_smaller(head, wb);
        }
        seq![head % pow2(wb)] + head_words(head / pow2(wb), wb)
    }
}

/// A number above zero shrinks when it loses its low word.
pub proof fn lemma_quotient_smaller(head: nat, wb: nat)
    requires
        head > 0,
        wb > 0,
    ensures
        head / pow2(wb) < head,
{
    lemma_pow2_le(1, wb);
    vstd::arithmetic::power2::lemma2_to64();
    vstd::arithmetic::div_mod::lemma_div_decreases(head as int, pow2(wb) as int);
}

/// The compressed words of a coder: its bulk, then the words of its head.
pub open spec fn ans_seal(st: AnsModel, wb: nat) -> Seq<nat> {
    st.bulk + head_words(st.head, wb)
}

/// The coder that compressed words stand for.
pub open spec fn ans_unseal(words: Seq<nat>, wb: nat, sb: nat) -> AnsModel {
    ans_fill(AnsModel { bulk: words, head: 0 }, wb, sb)
}

/// The words of a head that was sealed by a leading one bit, from the
/// lowest one up; `None` where the head's highest bit is not the lowest bit
/// of a word.
pub open spec fn binary_words(head: nat, wb: nat) -> Option<Seq<nat>>
    decreases head,
    when wb > 0
{
    if head == 1 {
        Some(Seq::empty())
    } else if head < pow2(wb) {
        None
    } else {
        proof {
            lemma_pow2_pos(wb);
            lemma_quotient_smaller(head, wb);
        }
        match binary_words(head / pow2(wb), wb) {
            Some(words) => Some(seq![head % pow2(wb)] + words),
            None => None,
        }
    }
}

/// The invariant of a coder in its normal form: head and words fit their
/// types, and the head has reached its threshold unless the bulk is empty.
pub open spec fn ans_normal(st: AnsModel, wb: nat, sb: nat) -> bool {
    &&& st.head < pow2(sb)
    &&& forall|i: int| 0 <= i < st.bulk.len() ==> #[trigger] st.bulk[i] < pow2(wb)
    &&& st.bulk.len() > 0 ==> st.head >= pow2((sb - wb) as nat)
}

/// The precision `prec` can be used with words of `wb` bits.
pub open spec fn valid_precision(prec: nat, wb: nat) -> bool {
    0 < prec <= wb
}

/// An encoded head fits the state.
pub proof fn lemma_encode_fits(s: nat, c: nat, p: nat, sb: nat, prec: nat)
    requires
        p > 0,
        c + p <= pow2(prec),
        prec <= sb,
        s / pow2((sb - prec) as nat) < p,
    ensures
        (s / p) * pow2(prec) + s % p + c < pow2(sb),
        s % p + c < pow2(prec),
{
    let t = pow2((sb - prec) as nat);
    lemma_pow2_split(sb, prec);
    lemma_div_below(s, t, p);
    assert(s < t * p) by (nonlinear_arith)
        requires
            s < p * t,
    ;
    lemma_div_below(s, p, t);
    lemma_div_mod_split(s, p);
    let q = s / p;
    let m = pow2(prec);
    assert((q + 1) * m <= t * m) by (nonlinear_arith)
        requires
            q + 1 <= t,
    ;
    assert((q + 1) * m == q * m + m) by (nonlinear_arith);
}

/// A decoded head fits the state.
pub proof fn lemma_decode_fits(s: nat, c: nat, p: nat, sb: nat, prec: nat)
    requires
        s < pow2(sb),
        prec <= sb,
        c <= s % pow2(prec) < c + p,
        c + p <= pow2(prec),
    ensures
        p * (s / pow2(prec)) + s % pow2(prec) - c < pow2(sb),
{
    lemma_shift_out(s, sb, prec);
    lemma_pow2_split(sb, prec);
    let hi = s / pow2(prec);
    let t = pow2((sb - prec) as nat);
    let m = pow2(prec);
    assert(p * (hi + 1) <= m * t) by (nonlinear_arith)
        requires
            hi + 1 <= t,
            p <= m,
    ;
    assert(p * (hi + 1) == p * hi + p) by (nonlinear_arith);
    assert(m * t == t * m) by (nonlinear_arith);
}

/// The coder after the symbols of `items` were encoded in reverse order,
/// each with its model: the last one first, the first one on top.
pub open spec fn ans_encode_reverse<const PRECISION: usize, D: EntropyModel<PRECISION>>(
    st: AnsModel,
    items: Seq<(D::Symbol, D)>,
    wb: nat,
    sb: nat,
) -> AnsModel
    decreases items.len(),
{
    if items.len() == 0 {
        st
    } else {
        ans_encode(
            ans_encode_reverse(st, items.drop_first(), wb, sb),
            items[0].1.left_cumulative(items[0].0),
            items[0].1.probability(items[0].0),
            wb,
            sb,
            PRECISION as nat,
        )
    }
}

/// The coder after one symbol was decoded with each model of `models`, and
/// the symbols in the order in which they came.
pub open spec fn ans_decode_symbols<const PRECISION: usize, D: EntropyModel<PRECISION>>(
    st: AnsModel,
    models: Seq<D>,
    wb: nat,
    sb: nat,
) -> (AnsModel, Seq<D::Symbol>)
    decreases models.len(),
{
    if models.len() == 0 {
        (st, Seq::empty())
    } else {
        let symbol = models[0].quantile_symbol(ans_quantile(st, PRECISION as nat));
        let next = ans_decode(
            st,
            models[0].left_cumulative(symbol),
            models[0].probability(symbol),
            wb,
            sb,
            PRECISION as nat,
        );
        let rest = ans_decode_symbols(next, models.drop_first(), wb, sb);
        (rest.0, seq![symbol] + rest.1)
    }
}

/// The items of `items` behind its last failure.
pub open spec fn ok_tail<T, E>(items: Seq<Result<T, E>>) -> Seq<T>
    decreases items.len(),
{
    if items.len() == 0 {
        Seq::empty()
    } else {
        match items.last() {
            Ok(item) => ok_tail(items.drop_last()).push(item),
            Err(_) => Seq::empty(),
        }
    }
}

/// The items behind the last failure are no more than all items.
pub proof fn lemma_ok_tail_len<T, E>(items: Seq<Result<T, E>>)
    ensures
        ok_tail(items).len() <= items.len(),
        ok_tail(items).len() < items.len() ==> items[items.len() - ok_tail(items).len() - 1]
            is Err,
    decreases items.len(),
{
    if items.len() > 0 {
        lemma_ok_tail_len(items.drop_last());
        if items.last() is Ok {
            let front = items.drop_last();
            if ok_tail(front).len() < front.len() {
                assert(front[front.len() - ok_tail(front).len() - 1] == items[items.len()
                    - ok_tail(items).len() - 1]);
            }
        }
    }
}

/// Every symbol of `items` paired with the one model `model`.
pub open spec fn iid_items<S, D>(symbols: Seq<S>, model: D) -> Seq<(S, D)> {
    Seq::new(symbols.len(), |i: int| (symbols[i], model))
}

/// The model `model`, `amt` times.
pub open spec fn iid_models<D>(amt: nat, model: D) -> Seq<D> {
    Seq::new(amt, |i: int| model)
}

/// Whether every symbol of `items` has a probability above zero under its
/// model.
pub open spec fn all_possible<const PRECISION: usize, D: EntropyModel<PRECISION>>(
    items: Seq<(D::Symbol, D)>,
) -> bool {
    forall|i: int| 0 <= i < items.len() ==> (#[trigger] items[i]).1.probability(items[i].0) > 0
}

/// An ANS coder over words of type `Word` with a head of type `State`.
#[derive(Debug, Clone)]
pub struct AnsCoder<Word: BitArray, State: BitArray> {
    bulk: Vec<Word>,
    state: State,
}

impl<Word: BitArray, State: BitArray> View for AnsCoder<Word, State> {
    type V = AnsModel;

    closed spec fn view(&self) -> AnsModel {
        AnsModel { bulk: word_values(self.bulk@), head: self.state.as_nat() }
    }
}

impl<Word: BitArray, State: BitArray> AnsCoder<Word, State> {
    /// The head is at least two words wide.
    pub open spec fn valid_widths() -> bool {
        State::spec_bits() >= 2 * Word::spec_bits()
    }

    /// Head and words of a coder fit their types.
    pub proof fn lemma_bounded(&self)
        ensures
            self@.head < pow2(State::spec_bits()),
            forall|i: int| 0 <= i < self@.bulk.len() ==> #[trigger] self@.bulk[i] < pow2(
                Word::spec_bits(),
            ),
    {
        self.state.lemma_value_bound();
        assert forall|i: int| 0 <= i < self@.bulk.len() implies #[trigger] self@.bulk[i] < pow2(
            Word::spec_bits(),
        ) by {
            self.bulk@[i].lemma_value_bound();
        }
    }

    /// An empty coder.
    pub fn new() -> (coder: Self)
        requires
            Self::valid_widths(),
        ensures
            coder@ == ans_empty(),
    {
        proof {
            lemma_pow2_pos(State::spec_bits());
        }
        let coder = Self { bulk: Vec::new(), state: State::from_u64(0) };
        proof {
            assert(coder@.bulk =~= Seq::empty());
        }
        coder
    }

    /// The coder that the compressed words `compressed` stand for, whatever
    /// their last word is.
    pub fn with_compressed_data(compressed: Vec<Word>) -> (coder: Self)
        requires
            Self::valid_widths(),
        ensures
            coder@ == ans_unseal(word_values(compressed@), Word::spec_bits(), State::spec_bits()),
    {
        proof {
            lemma_pow2_pos(State::spec_bits());
        }
        let mut coder = Self { bulk: compressed, state: State::from_u64(0) };
        coder.fill_state();
        coder
    }

    /// The coder that the compressed words `compressed` stand for; fails
    /// and hands the words back when their last word is zero, which no
    /// coder ever produces.
    pub fn from_compressed(compressed: Vec<Word>) -> (result: Result<Self, Vec<Word>>)
        requires
            Self::valid_widths(),
        ensures
            compressed@.len() > 0 && compressed@.last().as_nat() == 0 ==> result is Err
                && result->Err_0 == compressed,
            !(compressed@.len() > 0 && compressed@.last().as_nat() == 0) ==> result is Ok
                && result->Ok_0@ == ans_unseal(
                word_values(compressed@),
                Word::spec_bits(),
                State::spec_bits(),
            ),
    {
        let len = compressed.len();
        if len > 0 && compressed[len - 1].to_u64() == 0 {
            Err(compressed)
        } else {
            Ok(Self::with_compressed_data(compressed))
        }
    }

    /// The coder that decodes from arbitrary binary data: a one bit is set
    /// above the last word, so that the data may end in a zero word.
    pub fn from_binary(data: Vec<Word>) -> (coder: Self)
        requires
            Self::valid_widths(),
        ensures
            coder@ == ans_fill(
                AnsModel { bulk: word_values(data@), head: 1 },
                Word::spec_bits(),
                State::spec_bits(),
            ),
    {
        proof {
            State::lemma_width();
            lemma_pow2_le(1, State::spec_bits());
            vstd::arithmetic::power2::lemma2_to64();
        }
        let mut coder = Self { bulk: data, state: State::from_u64(1) };
        coder.fill_state();
        coder
    }

    /// Refills the head until it reaches its threshold or the bulk is empty.
    fn fill_state(&mut self)
        requires
            Self::valid_widths(),
        ensures
            final(self)@ == ans_fill(old(self)@, Word::spec_bits(), State::spec_bits()),
    {
        proof {
        }
        loop
            invariant
                Self::valid_widths(),
                ans_fill(self@, Word::spec_bits(), State::spec_bits()) == ans_fill(
                    old(self)@,
                    Word::spec_bits(),
                    State::spec_bits(),
                ),
            ensures
                self@ == ans_fill(old(self)@, Word::spec_bits(), State::spec_bits()),
            decreases self@.bulk.len(),
        {
            let before = self.bulk.len();
            let ghost st = self@;
            proof {
                assert(st.bulk.len() == self.bulk@.len());
            }
            self.refill_state_if_possible();
            if self.bulk.len() == before {
                proof {
                    assert(self@.bulk.len() == self.bulk@.len());
                    assert(st.bulk.len() == before);
                    assert(self@ == st);
                    assert(ans_fill(st, Word::spec_bits(), State::spec_bits()) == st);
                }
                break ;
            }
        }
    }

    /// The compressed words: the bulk, then the words of the head up to its
    /// highest word that is not zero.
    pub fn into_compressed(self) -> (compressed: Vec<Word>)
        ensures
            word_values(compressed@) == ans_seal(self@, Word::spec_bits()),
    {
        let mut words = self.bulk;
        append_head_words(&mut words, self.state.to_u64());
        words
    }

    /// A copy of the compressed words; see [`AnsCoder::into_compressed`].
    pub fn get_compressed(&self) -> (compressed: Vec<Word>)
        ensures
            word_values(compressed@) == ans_seal(self@, Word::spec_bits()),
    {
        proof {
        }
        let copy = Self { bulk: copy_words(&self.bulk), state: self.state };
        copy.into_compressed()
    }

    /// The binary data that a coder made by [`AnsCoder::from_binary`] has
    /// left; fails and hands the coder back where the head's highest bit is
    /// not the lowest bit of a word.
    pub fn into_binary(self) -> (result: Result<Vec<Word>, Self>)
        ensures
            match binary_words(self@.head, Word::spec_bits()) {
                Some(words) => result is Ok && word_values(result->Ok_0@) == self@.bulk + words,
                None => result is Err && result->Err_0 == self,
            },
    {
        match binary_tail::<Word>(self.state.to_u64()) {
            Some(tail) => {
                let mut words = self.bulk;
                append_words(&mut words, &tail);
                proof {
                    lemma_word_values_add(self.bulk@, tail@);
                }
                Ok(words)
            },
            None => Err(self),
        }
    }

    /// A copy of the binary data that [`AnsCoder::into_binary`] would hand
    /// back; fails where that would fail.
    pub fn get_binary(&self) -> (result: Result<Vec<Word>, ()>)
        ensures
            match binary_words(self@.head, Word::spec_bits()) {
                Some(words) => result is Ok && word_values(result->Ok_0@) == self@.bulk + words,
                None => result is Err,
            },
    {
        match binary_tail::<Word>(self.state.to_u64()) {
            Some(tail) => {
                let mut words = copy_words(&self.bulk);
                append_words(&mut words, &tail);
                proof {
                    lemma_word_values_add(self.bulk@, tail@);
                }
                Ok(words)
            },
            None => Err(()),
        }
    }

    /// Whether the coder holds nothing.
    pub fn is_empty(&self) -> (empty: bool)
        ensures
            empty <==> self@ == ans_empty(),
    {
        let empty = self.bulk.len() == 0 && self.state.to_u64() == 0;
        proof {
            assert(self@.bulk.len() == self.bulk@.len());
            if empty {
                assert(self@.bulk =~= Seq::empty());
            }
        }
        empty
    }

    /// Whether the coder holds nothing.
    pub fn maybe_empty(&self) -> (empty: bool)
        ensures
            empty <==> self@ == ans_empty(),
    {
        self.is_empty()
    }

    /// Discards all compressed data.
    pub fn clear(&mut self)
        ensures
            final(self)@ == ans_empty(),
    {
        proof {
            lemma_pow2_pos(State::spec_bits());
        }
        self.bulk.clear();
        self.state = State::from_u64(0);
        proof {
            assert(self@.bulk =~= Seq::empty());
        }
    }

    /// The head.
    pub fn state(&self) -> (state: State)
        ensures
            state.as_nat() == self@.head,
    {
        self.state
    }

    /// The bulk.
    pub fn bulk(&self) -> (bulk: &Vec<Word>)
        ensures
            word_values(bulk@) == self@.bulk,
    {
        &self.bulk
    }

    /// The number of compressed words that [`AnsCoder::into_compressed`]
    /// would hand back.
    pub fn num_words(&self) -> (n: usize)
        ensures
            n == ans_seal(self@, Word::spec_bits()).len(),
    {
        self.get_compressed().len()
    }

    /// Moves the low word of the head onto the bulk.
    pub fn flush_state(&mut self)
        ensures
            final(self)@ == ans_flush(old(self)@, Word::spec_bits()),
    {
        proof {
            Word::lemma_width();
            State::lemma_width();
            self.state.lemma_value_bound();
        }
        let wb = Word::bits();
        let head = self.state.to_u64();
        let low = mod_pow2(head, wb);
        let high = div_pow2(head, wb);
        let ghost earlier = self.bulk@;
        let word = Word::from_u64(low);
        self.bulk.push(word);
        self.state = State::from_u64(high);
        proof {
            lemma_word_values_push(earlier, word);
        }
    }

    /// Moves the last word of the bulk below the head, if the head is below
    /// its threshold and the bulk holds a word.
    pub fn refill_state_if_possible(&mut self)
        requires
            Self::valid_widths(),
        ensures
            final(self)@ == ans_refill(old(self)@, Word::spec_bits(), State::spec_bits()),
    {
        proof {
            Word::lemma_width();
            State::lemma_width();
        }
        let wb = Word::bits();
        let sb = State::bits();
        let head = self.state.to_u64();
        if below_pow2(head, sb - wb) {
            let ghost earlier = self.bulk@;
            match self.bulk.pop() {
                Some(word) => {
                    proof {
                        word.lemma_value_bound();
                        lemma_shift_in(
                            head as nat,
                            word.as_nat(),
                            (sb - wb) as nat,
                            wb as nat,
                        );
                        lemma_word_values_drop_last(earlier);
                        lemma_pow2_le(State::spec_bits(), 64);
                        vstd::arithmetic::power2::lemma2_to64_rest();
                    }
                    let head = mul_pow2_add(head, wb, word.to_u64());
                    self.state = State::from_u64(head);
                },
                None => {
                    proof {
                        assert(self@.bulk =~= old(self)@.bulk);
                    }
                },
            }
        }
    }

    /// Takes the low `PRECISION` bits off the head and hands them back.
    pub(crate) fn chop_quantile_off_state<const PRECISION: usize>(&mut self) -> (quantile: u64)
        requires
            valid_precision(PRECISION as nat, Word::spec_bits()),
        ensures
            quantile == old(self)@.head % pow2(PRECISION as nat),
            final(self)@ == (AnsModel {
                bulk: old(self)@.bulk,
                head: old(self)@.head / pow2(PRECISION as nat),
            }),
    {
        proof {
            Word::lemma_width();
            self.state.lemma_value_bound();
        }
        let head = self.state.to_u64();
        let quantile = mod_pow2(head, PRECISION);
        self.state = State::from_u64(div_pow2(head, PRECISION));
        quantile
    }

    /// Multiplies the head by `probability` and adds `remainder`.
    pub(crate) fn encode_remainder_onto_state(&mut self, remainder: u64, probability: u64)
        requires
            old(self)@.head * probability + remainder < pow2(State::spec_bits()),
        ensures
            final(self)@ == (AnsModel {
                bulk: old(self)@.bulk,
                head: (old(self)@.head * probability + remainder) as nat,
            }),
    {
        proof {
            State::lemma_width();
            lemma_pow2_le(State::spec_bits(), 64);
            vstd::arithmetic::power2::lemma2_to64_rest();
        }
        let head: u128 = mul_add(self.state.to_u64(), probability, remainder);
        self.state = State::from_u64(head as u64);
    }

    /// Divides the head by `probability` and hands back the remainder.
    pub(crate) fn decode_remainder_off_state(&mut self, probability: u64) -> (remainder: u64)
        requires
            probability > 0,
        ensures
            remainder == old(self)@.head % (probability as nat),
            final(self)@ == (AnsModel {
                bulk: old(self)@.bulk,
                head: old(self)@.head / (probability as nat),
            }),
    {
        proof {
            self.state.lemma_value_bound();
            vstd::arithmetic::div_mod::lemma_div_nonincreasing(
                self.state.as_nat() as int,
                probability as int,
            );
            vstd::arithmetic::div_mod::lemma_div_pos_is_pos(
                self.state.as_nat() as int,
                probability as int,
            );
        }
        let head = self.state.to_u64();
        let remainder: u64 = head % probability;
        self.state = State::from_u64(head / probability);
        remainder
    }

    /// Shifts the head up by `PRECISION` bits and puts `quantile` below it.
    pub(crate) fn append_quantile_to_state<const PRECISION: usize>(&mut self, quantile: u64)
        requires
            valid_precision(PRECISION as nat, Word::spec_bits()),
            old(self)@.head * pow2(PRECISION as nat) + quantile < pow2(State::spec_bits()),
        ensures
            final(self)@ == (AnsModel {
                bulk: old(self)@.bulk,
                head: (old(self)@.head * pow2(PRECISION as nat) + quantile) as nat,
            }),
    {
        proof {
            Word::lemma_width();
            State::lemma_width();
            lemma_pow2_le(State::spec_bits(), 64);
            vstd::arithmetic::power2::lemma2_to64_rest();
        }
        let head = mul_pow2_add(self.state.to_u64(), PRECISION, quantile);
        self.state = State::from_u64(head);
    }

    /// Encodes `symbol` with `model` onto the head. A symbol that the model
    /// gives no probability is refused, and the coder stays as it was.
    pub fn encode_symbol<const PRECISION: usize, D: EncoderModel<PRECISION>>(
        &mut self,
        symbol: &D::Symbol,
        model: &D,
    ) -> (result: Result<(), CoderError<EncoderFrontendError, Infallible>>)
        requires
            Self::valid_widths(),
            valid_precision(PRECISION as nat, Word::spec_bits()),
        ensures
            model.probability(*symbol) == 0 ==> result == Err::<
                (),
                CoderError<EncoderFrontendError, Infallible>,
            >(CoderError::FrontendError(EncoderFrontendError::ImpossibleSymbol)) && final(self)@
                == old(self)@,
            model.probability(*symbol) > 0 ==> result is Ok && final(self)@ == ans_encode(
                old(self)@,
                model.left_cumulative(*symbol),
                model.probability(*symbol),
                Word::spec_bits(),
                State::spec_bits(),
                PRECISION as nat,
            ),
    {
        match model.left_cumulative_and_probability(symbol) {
            None => Err(CoderError::FrontendError(EncoderFrontendError::ImpossibleSymbol)),
            Some((left_cumulative, probability)) => {
                let wb = Word::bits();
                let sb = State::bits();
                proof {
                    Word::lemma_width();
                    State::lemma_width();
                    model.lemma_interval(*symbol);
                    self.state.lemma_value_bound();
                }
                let mut head = self.state.to_u64();
                if div_pow2(head, sb - PRECISION) >= probability {
                    self.flush_state();
                    head = self.state.to_u64();
                    proof {
                        let before = old(self)@.head;
                        lemma_shift_out(before, sb as nat, wb as nat);
                        lemma_pow2_le((sb - wb) as nat, (sb - PRECISION) as nat);
                        lemma_div_below(head as nat, pow2((sb - PRECISION) as nat), 1);
                    }
                }
                proof {
                    lemma_encode_fits(
                        head as nat,
                        left_cumulative as nat,
                        probability as nat,
                        sb as nat,
                        PRECISION as nat,
                    );
                    lemma_pow2_le(sb as nat, 64);
                    vstd::arithmetic::power2::lemma2_to64_rest();
                }
                let quotient: u64 = head / probability;
                let remainder: u64 = head % probability;
                let head = mul_pow2_add(quotient, PRECISION, remainder + left_cumulative);
                self.state = State::from_u64(head);
                Ok(())
            },
        }
    }

    /// Decodes a symbol with `model` off the head.
    pub fn decode_symbol<const PRECISION: usize, D: DecoderModel<PRECISION>>(
        &mut self,
        model: &D,
    ) -> (symbol: D::Symbol)
        requires
            Self::valid_widths(),
            valid_precision(PRECISION as nat, Word::spec_bits()),
        ensures
            symbol == model.quantile_symbol(ans_quantile(old(self)@, PRECISION as nat)),
            final(self)@ == ans_decode(
                old(self)@,
                model.left_cumulative(symbol),
                model.probability(symbol),
                Word::spec_bits(),
                State::spec_bits(),
                PRECISION as nat,
            ),
    {
        let sb = State::bits();
        proof {
            Word::lemma_width();
            State::lemma_width();
            self.state.lemma_value_bound();
        }
        let head = self.state.to_u64();
        let quantile = mod_pow2(head, PRECISION);
        let high = div_pow2(head, PRECISION);
        let (symbol, left_cumulative, probability) = model.quantile_function(quantile);
        proof {
            model.lemma_quantile_symbol(quantile as nat);
            model.lemma_interval(symbol);
            lemma_decode_fits(
                head as nat,
                left_cumulative as nat,
                probability as nat,
                sb as nat,
                PRECISION as nat,
            );
            lemma_pow2_le(sb as nat, 64);
            vstd::arithmetic::power2::lemma2_to64_rest();
        }
        let head: u128 = mul_add(probability, high, quantile - left_cumulative);
        self.state = State::from_u64(head as u64);
        self.refill_state_if_possible();
        symbol
    }

    /// Encodes the symbols of `items` in reverse order, each with its
    /// model, and stops at the first symbol that its model gives no
    /// probability.
    pub fn encode_symbols_reverse<const PRECISION: usize, D: EncoderModel<PRECISION>>(
        &mut self,
        items: &[(D::Symbol, D)],
    ) -> (result: Result<(), CoderError<EncoderFrontendError, Infallible>>)
        requires
            Self::valid_widths(),
            valid_precision(PRECISION as nat, Word::spec_bits()),
        ensures
            result is Ok <==> all_possible::<PRECISION, D>(items@),
            result is Ok ==> final(self)@ == ans_encode_reverse::<PRECISION, D>(
                old(self)@,
                items@,
                Word::spec_bits(),
                State::spec_bits(),
            ),
            result is Err ==> exists|k: int|
                0 <= k < items@.len() && (#[trigger] items@[k]).1.probability(items@[k].0) == 0
                    && all_possible::<PRECISION, D>(items@.skip(k + 1)) && final(self)@
                    == ans_encode_reverse::<PRECISION, D>(
                    old(self)@,
                    items@.skip(k + 1),
                    Word::spec_bits(),
                    State::spec_bits(),
                ),
    {
        let mut i: usize = items.len();
        proof {
            assert(items@.skip(i as int) =~= Seq::empty());
        }
        while i > 0
            invariant
                Self::valid_widths(),
                valid_precision(PRECISION as nat, Word::spec_bits()),
                i <= items@.len(),
                all_possible::<PRECISION, D>(items@.skip(i as int)),
                self@ == ans_encode_reverse::<PRECISION, D>(
                    old(self)@,
                    items@.skip(i as int),
                    Word::spec_bits(),
                    State::spec_bits(),
                ),
            decreases i,
        {
            i -= 1;
            proof {
                assert(items@.skip(i as int).drop_first() =~= items@.skip(i + 1));
                assert(items@.skip(i as int)[0] == items@[i as int]);
            }
            match self.encode_symbol::<PRECISION, D>(&items[i].0, &items[i].1) {
                Ok(()) => {
                    proof {
                        assert forall|j: int| 0 <= j < items@.skip(i as int).len() implies (
                        #[trigger] items@.skip(i as int)[j]).1.probability(
                            items@.skip(i as int)[j].0,
                        ) > 0 by {
                            if j > 0 {
                                assert(items@.skip(i as int)[j] == items@.skip(i + 1)[j - 1]);
                            }
                        }
                    }
                },
                Err(error) => {
                    proof {
                        assert(!all_possible::<PRECISION, D>(items@));
                    }
                    return Err(error);
                },
            }
        }
        proof {
            assert(items@.skip(0) =~= items@);
        }
        Ok(())
    }

    /// Encodes `symbols` in reverse order, all with the one model `model`.
    pub fn encode_iid_symbols_reverse<const PRECISION: usize, D: EncoderModel<PRECISION>>(
        &mut self,
        symbols: &[D::Symbol],
        model: &D,
    ) -> (result: Result<(), CoderError<EncoderFrontendError, Infallible>>)
        requires
            Self::valid_widths(),
            valid_precision(PRECISION as nat, Word::spec_bits()),
        ensures
            result is Ok <==> all_possible::<PRECISION, D>(iid_items(symbols@, *model)),
            result is Ok ==> final(self)@ == ans_encode_reverse::<PRECISION, D>(
                old(self)@,
                iid_items(symbols@, *model),
                Word::spec_bits(),
                State::spec_bits(),
            ),
    {
        let ghost items = iid_items(symbols@, *model);
        let mut i: usize = symbols.len();
        proof {
            assert(items.skip(i as int) =~= Seq::empty());
        }
        while i > 0
            invariant
                Self::valid_widths(),
                valid_precision(PRECISION as nat, Word::spec_bits()),
                i <= symbols@.len(),
                items == iid_items(symbols@, *model),
                all_possible::<PRECISION, D>(items.skip(i as int)),
                self@ == ans_encode_reverse::<PRECISION, D>(
                    old(self)@,
                    items.skip(i as int),
                    Word::spec_bits(),
                    State::spec_bits(),
                ),
            decreases i,
        {
            i -= 1;
            proof {
                assert(items.skip(i as int).drop_first() =~= items.skip(i + 1));
                assert(items.skip(i as int)[0] == items[i as int]);
            }
            match self.encode_symbol::<PRECISION, D>(&symbols[i], model) {
                Ok(()) => {
                    proof {
                        assert forall|j: int| 0 <= j < items.skip(i as int).len() implies (
                        #[trigger] items.skip(i as int)[j]).1.probability(
                            items.skip(i as int)[j].0,
                        ) > 0 by {
                            if j > 0 {
                                assert(items.skip(i as int)[j] == items.skip(i + 1)[j - 1]);
                            }
                        }
                    }
                },
                Err(error) => {
                    proof {
                        assert(items[i as int].1.probability(items[i as int].0) == 0);
                    }
                    return Err(error);
                },
            }
        }
        proof {
            assert(items.skip(0) =~= items);
        }
        Ok(())
    }

    /// Decodes one symbol with each model of `models`, in their order.
    pub fn decode_symbols<const PRECISION: usize, D: DecoderModel<PRECISION>>(
        &mut self,
        models: &[D],
    ) -> (symbols: Vec<D::Symbol>)
        requires
            Self::valid_widths(),
            valid_precision(PRECISION as nat, Word::spec_bits()),
        ensures
            (final(self)@, symbols@) == ans_decode_symbols::<PRECISION, D>(
                old(self)@,
                models@,
                Word::spec_bits(),
                State::spec_bits(),
            ),
    {
        let mut symbols: Vec<D::Symbol> = Vec::new();
        let mut i: usize = 0;
        proof {
            assert(models@.skip(0) =~= models@);
        }
        while i < models.len()
            invariant
                Self::valid_widths(),
                valid_precision(PRECISION as nat, Word::spec_bits()),
                i <= models@.len(),
                ans_decode_symbols::<PRECISION, D>(
                    old(self)@,
                    models@,
                    Word::spec_bits(),
                    State::spec_bits(),
                ) == ({
                    let rest = ans_decode_symbols::<PRECISION, D>(
                        self@,
                        models@.skip(i as int),
                        Word::spec_bits(),
                        State::spec_bits(),
                    );
                    (rest.0, symbols@ + rest.1)
                }),
            decreases models@.len() - i,
        {
            let ghost before = self@;
            let ghost earlier = symbols@;
            let symbol = self.decode_symbol::<PRECISION, D>(&models[i]);
            symbols.push(symbol);
            proof {
                assert(models@.skip(i as int).drop_first() =~= models@.skip(i + 1));
                assert(models@.skip(i as int)[0] == models@[i as int]);
                let rest = ans_decode_symbols::<PRECISION, D>(
                    self@,
                    models@.skip(i + 1),
                    Word::spec_bits(),
                    State::spec_bits(),
                );
                assert(earlier + (seq![symbol] + rest.1) =~= earlier.push(symbol) + rest.1);
            }
            i += 1;
        }
        proof {
            assert(models@.skip(i as int) =~= Seq::empty());
            assert(symbols@ + Seq::<D::Symbol>::empty() =~= symbols@);
        }
        symbols
    }

    /// Decodes `amt` symbols, all with the one model `model`.
    pub fn decode_iid_symbols<const PRECISION: usize, D: DecoderModel<PRECISION>>(
        &mut self,
        amt: usize,
        model: &D,
    ) -> (symbols: Vec<D::Symbol>)
        requires
            Self::valid_widths(),
            valid_precision(PRECISION as nat, Word::spec_bits()),
        ensures
            (final(self)@, symbols@) == ans_decode_symbols::<PRECISION, D>(
                old(self)@,
                iid_models(amt as nat, *model),
                Word::spec_bits(),
                State::spec_bits(),
            ),
    {
        let ghost models = iid_models(amt as nat, *model);
        let mut symbols: Vec<D::Symbol> = Vec::new();
        let mut i: usize = 0;
        proof {
            assert(models.skip(0) =~= models);
        }
        while i < amt
            invariant
                Self::valid_widths(),
                valid_precision(PRECISION as nat, Word::spec_bits()),
                i <= amt,
                models == iid_models(amt as nat, *model),
                ans_decode_symbols::<PRECISION, D>(
                    old(self)@,
                    models,
                    Word::spec_bits(),
                    State::spec_bits(),
                ) == ({
                    let rest = ans_decode_symbols::<PRECISION, D>(
                        self@,
                        models.skip(i as int),
                        Word::spec_bits(),
                        State::spec_bits(),
                    );
                    (rest.0, symbols@ + rest.1)
                }),
            decreases amt - i,
        {
            let ghost earlier = symbols@;
            let symbol = self.decode_symbol::<PRECISION, D>(model);
            symbols.push(symbol);
            proof {
                assert(models.skip(i as int).drop_first() =~= models.skip(i + 1));
                assert(models.skip(i as int)[0] == *model);
                let rest = ans_decode_symbols::<PRECISION, D>(
                    self@,
                    models.skip(i + 1),
                    Word::spec_bits(),
                    State::spec_bits(),
                );
                assert(earlier + (seq![symbol] + rest.1) =~= earlier.push(symbol) + rest.1);
            }
            i += 1;
        }
        proof {
            assert(models.skip(i as int) =~= Seq::empty());
            assert(symbols@ + Seq::<D::Symbol>::empty() =~= symbols@);
        }
        symbols
    }
}

/// Appends to `words` the words of `head` from the lowest one up to its
/// highest word that is not zero.
pub(crate) fn append_head_words<Word: BitArray>(words: &mut Vec<Word>, head: u64)
    ensures
        word_values(final(words)@) == word_values(old(words)@) + head_words(
            head as nat,
            Word::spec_bits(),
        ),
{
    proof {
        Word::lemma_width();
    }
    let ghost bulk = word_values(words@);
    let ghost done = Seq::<nat>::empty();
    let ghost first = head;
    let wb = Word::bits();
    let mut head = head;
    proof {
        assert(bulk + done =~= bulk);
        assert(done + head_words(head as nat, wb as nat) =~= head_words(head as nat, wb as nat));
    }
    while head != 0
        invariant
            wb == Word::spec_bits(),
            0 < wb <= 64,
            word_values(words@) == bulk + done,
            done + head_words(head as nat, wb as nat) == head_words(first as nat, wb as nat),
        decreases head,
    {
        let low = mod_pow2(head, wb);
        let ghost earlier = words@;
        let word = Word::from_u64(low);
        words.push(word);
        proof {
            lemma_quotient_smaller(head as nat, wb as nat);
            let rest = head_words((head as nat) / pow2(wb as nat), wb as nat);
            assert(done.push(low as nat) + rest =~= done + (seq![low as nat] + rest));
            lemma_word_values_push(earlier, word);
            assert((bulk + done).push(low as nat) =~= bulk + done.push(low as nat));
            done = done.push(low as nat);
        }
        head = div_pow2(head, wb);
    }
    proof {
        assert(done + Seq::<nat>::empty() =~= done);
    }
}

/// The words of a head that was sealed by a leading one bit, from the
/// lowest one up; `None` where the head's highest bit is not the lowest bit
/// of a word.
pub(crate) fn binary_tail<Word: BitArray>(head: u64) -> (tail: Option<Vec<Word>>)
    ensures
        match binary_words(head as nat, Word::spec_bits()) {
            Some(words) => tail is Some && word_values(tail->Some_0@) == words,
            None => tail is None,
        },
{
    proof {
        Word::lemma_width();
    }
    let wb = Word::bits();
    let ghost first = head;
    let mut head = head;
    let mut tail: Vec<Word> = Vec::new();
    proof {
        assert(word_values(tail@) =~= Seq::<nat>::empty());
        let rest = binary_words(head as nat, wb as nat);
        if rest is Some {
            assert(word_values(tail@) + rest->Some_0 =~= rest->Some_0);
        }
    }
    while !below_pow2(head, wb)
        invariant
            wb == Word::spec_bits(),
            0 < wb <= 64,
            binary_words(first as nat, wb as nat) == match binary_words(head as nat, wb as nat) {
                Some(words) => Some(word_values(tail@) + words),
                None => None,
            },
        decreases head,
    {
        let low = mod_pow2(head, wb);
        let ghost earlier = tail@;
        let word = Word::from_u64(low);
        tail.push(word);
        proof {
            lemma_pow2_pos(wb as nat);
            lemma_quotient_smaller(head as nat, wb as nat);
            lemma_pow2_le(1, wb as nat);
            vstd::arithmetic::power2::lemma2_to64();
            lemma_word_values_push(earlier, word);
            let rest = binary_words((head as nat) / pow2(wb as nat), wb as nat);
            if rest is Some {
                assert(word_values(earlier).push(low as nat) + rest->Some_0 =~= word_values(
                    earlier,
                ) + (seq![low as nat] + rest->Some_0));
            }
        }
        head = div_pow2(head, wb);
    }
    if head == 1 {
        proof {
            assert(word_values(tail@) + Seq::<nat>::empty() =~= word_values(tail@));
        }
        Some(tail)
    } else {
        None
    }
}

/// Appends the words of `tail` to `words`.
pub(crate) fn append_words<Word: Copy>(words: &mut Vec<Word>, tail: &Vec<Word>)
    ensures
        final(words)@ == old(words)@ + tail@,
{
    let ghost bulk = words@;
    let mut i: usize = 0;
    proof {
        assert(bulk + tail@.take(0) =~= bulk);
    }
    while i < tail.len()
        invariant
            i <= tail.len(),
            words@ == bulk + tail@.take(i as int),
        decreases tail.len() - i,
    {
        words.push(tail[i]);
        proof {
            assert((bulk + tail@.take(i as int)).push(tail@[i as int]) =~= bulk + tail@.take(
                i + 1,
            ));
        }
        i += 1;
    }
    proof {
        assert(tail@.take(i as int) =~= tail@);
    }
}

/// A copy of `words`.
pub(crate) fn copy_words<Word: Copy>(words: &Vec<Word>) -> (copy: Vec<Word>)
    ensures
        copy@ == words@,
{
    let mut copy: Vec<Word> = Vec::new();
    let mut i: usize = 0;
    while i < words.len()
        invariant
            i <= words.len(),
            copy@ == words@.take(i as int),
        decreases words.len() - i,
    {
        copy.push(words[i]);
        proof {
            assert(words@.take(i as int).push(words@[i as int]) =~= words@.take(i + 1));
        }
        i += 1;
    }
    proof {
        assert(words@.take(i as int) =~= words@);
    }
    copy
}

/// Decoding undoes encoding: after a symbol with the interval
/// `[c, c + p)` was encoded onto a coder in normal form, the next quantile
/// lies in that interval, decoding with the same interval gives the coder
/// back, and the coder in between is in normal form too.
pub proof fn lemma_ans_decode_inverts_encode(
    st: AnsModel,
    c: nat,
    p: nat,
    wb: nat,
    sb: nat,
    prec: nat,
)
    requires
        valid_precision(prec, wb),
        sb >= 2 * wb,
        ans_normal(st, wb, sb),
        p > 0,
        c + p <= pow2(prec),
    ensures
        c <= ans_quantile(ans_encode(st, c, p, wb, sb, prec), prec) < c + p,
        ans_decode(ans_encode(st, c, p, wb, sb, prec), c, p, wb, sb, prec) == st,
        ans_normal(ans_encode(st, c, p, wb, sb, prec), wb, sb),
{
    let m = pow2(prec);
    let w = pow2(wb);
    let t = pow2((sb - prec) as nat);
    let thr = pow2((sb - wb) as nat);
    let low = pow2((sb - wb - prec) as nat);
    lemma_pow2_pos(prec);
    lemma_pow2_pos(wb);
    lemma_pow2_split(sb, prec);
    lemma_pow2_split(sb, wb);
    lemma_pow2_split((sb - wb) as nat, prec);
    lemma_pow2_split((sb - prec) as nat, wb);
    lemma_pow2_le((sb - wb) as nat, (sb - prec) as nat);
    let flush = st.head / t >= p;
    let flushed = if flush {
        ans_flush(st, wb)
    } else {
        st
    };
    let h = flushed.head;
    if flush {
        lemma_shift_out(st.head, sb, wb);
        lemma_div_below(h, t, 1);
        assert(h / t < p);
        // the flushed head is at least p * low
        lemma_div_below(st.head, t, p);
        assert(st.head >= p * t);
        assert(p * t == (p * low) * w) by (nonlinear_arith)
            requires
                t == low * w,
        ;
        lemma_div_below(st.head, w, p * low);
        assert(h >= p * low);
    } else {
        if st.bulk.len() > 0 {
            assert(thr == low * m);
            assert(low * p <= low * m) by (nonlinear_arith)
                requires
                    p <= m,
            ;
            assert(h >= p * low) by (nonlinear_arith)
                requires
                    h >= low * p,
            ;
        }
    }
    lemma_encode_fits(h, c, p, sb, prec);
    lemma_div_mod_split(h, p);
    let e = ans_encode(st, c, p, wb, sb, prec);
    assert(e.head == (h / p) * m + (h % p + c));
    lemma_mul_add_div_mod(h / p, m, h % p + c);
    assert(ans_quantile(e, prec) == h % p + c);
    assert(e.head / m == h / p);
    assert(p * (h / p) == (h / p) * p) by (nonlinear_arith);
    let decoded = AnsModel { bulk: e.bulk, head: (p * (e.head / m) + ans_quantile(e, prec) - c) as nat };
    assert(decoded.head == h);
    assert(decoded == flushed);
    if flush {
        assert(flushed.bulk.len() > 0);
        assert(h < thr);
        assert(flushed.bulk.drop_last() =~= st.bulk);
        assert(flushed.bulk.last() == st.head % w);
        assert(ans_refill(flushed, wb, sb) == st);
    } else {
        assert(ans_refill(flushed, wb, sb) == st);
    }
    // normal form of the coder in between
    if e.bulk.len() > 0 {
        lemma_div_below(h, p, low);
        assert(low * p == p * low) by (nonlinear_arith);
        assert(h / p >= low);
        assert((h / p) * m >= low * m) by (nonlinear_arith)
            requires
                h / p >= low,
        ;
    }
    assert forall|i: int| 0 <= i < e.bulk.len() implies #[trigger] e.bulk[i] < pow2(wb) by {
        if flush && i == st.bulk.len() {
        } else {
            assert(e.bulk[i] == st.bulk[i]);
        }
    }
}

/// The symbols of `items`.
pub open spec fn symbols_of<S, D>(items: Seq<(S, D)>) -> Seq<S> {
    Seq::new(items.len(), |i: int| items[i].0)
}

/// The models of `items`.
pub open spec fn models_of<S, D>(items: Seq<(S, D)>) -> Seq<D> {
    Seq::new(items.len(), |i: int| items[i].1)
}

/// Decoding gives back what was encoded in reverse: after the symbols of
/// `items` were encoded in reverse order onto a coder in normal form,
/// decoding with the same models yields the symbols in their order and
/// leaves the coder as it was before. A coder that was empty before is
/// therefore empty again.
pub proof fn lemma_ans_round_trip<const PRECISION: usize, D: EntropyModel<PRECISION>>(
    st: AnsModel,
    items: Seq<(D::Symbol, D)>,
    wb: nat,
    sb: nat,
)
    requires
        valid_precision(PRECISION as nat, wb),
        sb >= 2 * wb,
        ans_normal(st, wb, sb),
        all_possible::<PRECISION, D>(items),
    ensures
        ans_decode_symbols::<PRECISION, D>(
            ans_encode_reverse::<PRECISION, D>(st, items, wb, sb),
            models_of(items),
            wb,
            sb,
        ) == (st, symbols_of(items)),
        ans_normal(ans_encode_reverse::<PRECISION, D>(st, items, wb, sb), wb, sb),
    decreases items.len(),
{
    if items.len() == 0 {
        assert(symbols_of(items) =~= Seq::empty());
        assert(models_of(items) =~= Seq::empty());
    } else {
        let rest = items.drop_first();
        assert forall|i: int| 0 <= i < rest.len() implies (#[trigger] rest[i]).1.probability(
            rest[i].0,
        ) > 0 by {
            assert(rest[i] == items[i + 1]);
        }
        lemma_ans_round_trip::<PRECISION, D>(st, rest, wb, sb);
        let inner = ans_encode_reverse::<PRECISION, D>(st, rest, wb, sb);
        let symbol = items[0].0;
        let model = items[0].1;
        let c = model.left_cumulative(symbol);
        let p = model.probability(symbol);
        model.lemma_interval(symbol);
        lemma_ans_decode_inverts_encode(inner, c, p, wb, sb, PRECISION as nat);
        let outer = ans_encode(inner, c, p, wb, sb, PRECISION as nat);
        model.lemma_symbol_of_quantile(symbol, ans_quantile(outer, PRECISION as nat));
        assert(models_of(items)[0] == model);
        assert(models_of(items).drop_first() =~= models_of(rest));
        assert(seq![symbol] + symbols_of(rest) =~= symbols_of(items));
    }
}

/// A symbol that is certain costs nothing: encoding a symbol whose
/// interval is all of `[0, 2^prec)` leaves the coder as it was, and an
/// empty coder yields the quantile zero and stays empty when such a symbol
/// is decoded.
pub proof fn lemma_ans_certain_symbol(st: AnsModel, wb: nat, sb: nat, prec: nat)
    requires
        valid_precision(prec, wb),
        sb >= 2 * wb,
        st.head < pow2(sb),
    ensures
        ans_encode(st, 0, pow2(prec), wb, sb, prec) == st,
        ans_quantile(ans_empty(), prec) == 0,
        ans_decode(ans_empty(), 0, pow2(prec), wb, sb, prec) == ans_empty(),
{
    let m = pow2(prec);
    let t = pow2((sb - prec) as nat);
    lemma_pow2_pos(prec);
    lemma_pow2_split(sb, prec);
    lemma_div_below(st.head, t, m);
    assert(st.head < m * t) by (nonlinear_arith)
        requires
            st.head < t * m,
    ;
    lemma_div_mod_split(st.head, m);
    vstd::arithmetic::div_mod::lemma_small_mod(0, m);
    vstd::arithmetic::div_mod::lemma_div_of0(m as int);
    assert(m * 0 == 0) by (nonlinear_arith);
}

/// An empty coder seals to no words, and no words stand for an empty coder.
pub proof fn lemma_ans_empty_seal(wb: nat, sb: nat)
    requires
        wb > 0,
    ensures
        ans_seal(ans_empty(), wb) == Seq::<nat>::empty(),
        ans_unseal(Seq::<nat>::empty(), wb, sb) == ans_empty(),
{
    assert(ans_seal(ans_empty(), wb) =~= Seq::<nat>::empty());
}

/// The head reads back its own words: a head that starts as zero on a bulk
/// that is followed by the words of a head takes these words back.
pub proof fn lemma_ans_fill_head_words(bulk: Seq<nat>, head: nat, wb: nat, sb: nat)
    requires
        0 < wb <= sb,
        head < pow2(sb),
    ensures
        ans_fill(AnsModel { bulk: bulk + head_words(head, wb), head: 0 }, wb, sb) == ans_fill(
            AnsModel { bulk, head },
            wb,
            sb,
        ),
    decreases head,
{
    if head == 0 {
        assert(bulk + head_words(head, wb) =~= bulk);
    } else {
        let w = pow2(wb);
        let low = head % w;
        let high = head / w;
        lemma_pow2_pos(wb);
        lemma_quotient_smaller(head, wb);
        lemma_shift_out(head, sb, wb);
        lemma_pow2_le((sb - wb) as nat, sb);
        lemma_ans_fill_head_words(bulk.push(low), high, wb, sb);
        assert(bulk + head_words(head, wb) =~= bulk.push(low) + head_words(high, wb));
        let pushed = AnsModel { bulk: bulk.push(low), head: high };
        assert(pushed.bulk.drop_last() =~= bulk);
        assert(ans_pull(pushed, wb) == AnsModel { bulk, head });
    }
}

/// Reading compressed words undoes writing them: the compressed words of a
/// coder in normal form stand for that coder.
pub proof fn lemma_ans_unseal_seal(st: AnsModel, wb: nat, sb: nat)
    requires
        0 < wb <= sb,
        ans_normal(st, wb, sb),
    ensures
        ans_unseal(ans_seal(st, wb), wb, sb) == st,
{
    lemma_ans_fill_head_words(st.bulk, st.head, wb, sb);
}

/// Encoding undoes decoding: after a symbol was decoded from a coder in
/// normal form, encoding it with the same interval `[c, c + p)`, in which
/// the quantile lay, gives the coder back; and the coder in between is in
/// normal form too. Compressed data of any origin can thus be decoded with
/// any models and be restored from the symbols.
pub proof fn lemma_ans_encode_inverts_decode(
    st: AnsModel,
    c: nat,
    p: nat,
    wb: nat,
    sb: nat,
    prec: nat,
)
    requires
        valid_precision(prec, wb),
        sb >= 2 * wb,
        ans_normal(st, wb, sb),
        c <= ans_quantile(st, prec) < c + p,
        c + p <= pow2(prec),
    ensures
        ans_encode(ans_decode(st, c, p, wb, sb, prec), c, p, wb, sb, prec) == st,
        ans_normal(ans_decode(st, c, p, wb, sb, prec), wb, sb),
{
    let m = pow2(prec);
    let w = pow2(wb);
    let t = pow2((sb - prec) as nat);
    let thr = pow2((sb - wb) as nat);
    let low = pow2((sb - wb - prec) as nat);
    lemma_pow2_pos(prec);
    lemma_pow2_pos(wb);
    lemma_pow2_split(sb, prec);
    lemma_pow2_split(sb, wb);
    lemma_pow2_split((sb - wb) as nat, prec);
    lemma_pow2_split((sb - prec) as nat, wb);
    lemma_pow2_le((sb - wb) as nat, (sb - prec) as nat);
    let q = ans_quantile(st, prec);
    let r = (q - c) as nat;
    let high = st.head / m;
    lemma_shift_out(st.head, sb, prec);
    lemma_decode_fits(st.head, c, p, sb, prec);
    let fresh = p * high + r;
    assert(p * high == high * p) by (nonlinear_arith);
    lemma_mul_add_div_mod(high, p, r);
    assert((high + 1) * p <= t * p) by (nonlinear_arith)
        requires
            high + 1 <= t,
    ;
    assert((high + 1) * p == high * p + p) by (nonlinear_arith);
    assert(t * p == p * t) by (nonlinear_arith);
    let d = ans_decode(st, c, p, wb, sb, prec);
    if fresh < thr && st.bulk.len() > 0 {
        let word = st.bulk.last();
        lemma_shift_in(fresh, word, (sb - wb) as nat, wb);
        lemma_div_below(st.head, m, low);
        assert(high * p >= low * p) by (nonlinear_arith)
            requires
                high >= low,
        ;
        assert(fresh * w >= (low * p) * w) by (nonlinear_arith)
            requires
                fresh >= low * p,
        ;
        assert((low * p) * w == p * (low * w)) by (nonlinear_arith);
        lemma_div_below(d.head, t, p);
        assert(d.bulk.push(word) =~= st.bulk);
        assert forall|i: int| 0 <= i < d.bulk.len() implies #[trigger] d.bulk[i] < pow2(wb) by {
            assert(d.bulk[i] == st.bulk[i]);
        }
        assert(p * t >= thr) by (nonlinear_arith)
            requires
                p >= 1,
                t >= thr,
        ;
    } else {
        lemma_div_below(fresh, t, p);
    }
}

/// The words of a head with a word below it.
pub proof fn lemma_head_words_shift(head: nat, word: nat, wb: nat)
    requires
        wb > 0,
        word < pow2(wb),
        head > 0 || word > 0,
    ensures
        head_words(head * pow2(wb) + word, wb) == seq![word] + head_words(head, wb),
{
    lemma_pow2_pos(wb);
    lemma_mul_add_div_mod(head, pow2(wb), word);
    assert(head * pow2(wb) >= 0) by (nonlinear_arith)
        requires
            head >= 0,
            pow2(wb) > 0,
    ;
    if head > 0 {
        assert(head * pow2(wb) > 0) by (nonlinear_arith)
            requires
                head > 0,
                pow2(wb) > 0,
        ;
    }
}


/// A head that has taken words from its bulk gives them back: the bulk that
/// is left, followed by the words of the head, is the bulk before, followed
/// by the words of the head before. The coder that is left is in normal
/// form.
pub proof fn lemma_ans_fill_words(st: AnsModel, wb: nat, sb: nat)
    requires
        0 < wb <= sb,
        st.head < pow2(sb),
        forall|i: int| 0 <= i < st.bulk.len() ==> #[trigger] st.bulk[i] < pow2(wb),
        st.head > 0 || st.bulk.len() == 0 || st.bulk.last() > 0,
    ensures
        ans_seal(ans_fill(st, wb, sb), wb) == ans_seal(st, wb),
        ans_normal(ans_fill(st, wb, sb), wb, sb),
    decreases st.bulk.len(),
{
    if st.head < pow2((sb - wb) as nat) && st.bulk.len() > 0 {
        let next = ans_pull(st, wb);
        let word = st.bulk.last();
        lemma_shift_in(st.head, word, (sb - wb) as nat, wb);
        lemma_head_words_shift(st.head, word, wb);
        assert forall|i: int| 0 <= i < next.bulk.len() implies #[trigger] next.bulk[i] < pow2(
            wb,
        ) by {
            assert(next.bulk[i] == st.bulk[i]);
        }
        lemma_pow2_pos(wb);
        assert(st.head * pow2(wb) >= 0) by (nonlinear_arith)
            requires
                st.head >= 0,
                pow2(wb) > 0,
        ;
        if st.head > 0 {
            assert(st.head * pow2(wb) > 0) by (nonlinear_arith)
                requires
                    st.head > 0,
                    pow2(wb) > 0,
            ;
        }
        lemma_ans_fill_words(next, wb, sb);
        assert(next.bulk + (seq![word] + head_words(st.head, wb)) =~= st.bulk + head_words(
            st.head,
            wb,
        ));
    }
}

/// Writing compressed words undoes reading them: compressed words that do
/// not end in a zero word stand for a coder in normal form whose compressed
/// words they are.
pub proof fn lemma_ans_seal_unseal(words: Seq<nat>, wb: nat, sb: nat)
    requires
        0 < wb <= sb,
        forall|i: int| 0 <= i < words.len() ==> #[trigger] words[i] < pow2(wb),
        words.len() == 0 || words.last() > 0,
    ensures
        ans_seal(ans_unseal(words, wb, sb), wb) == words,
        ans_normal(ans_unseal(words, wb, sb), wb, sb),
{
    let start = AnsModel { bulk: words, head: 0 };
    lemma_pow2_pos(sb);
    lemma_ans_fill_words(start, wb, sb);
    assert(head_words(0, wb) =~= Seq::<nat>::empty());
    assert(words + Seq::<nat>::empty() =~= words);
}

/// Encoding in reverse gives back what was decoded from: after one symbol
/// was decoded with each model of `models` from a coder in normal form,
/// encoding the decoded symbols in reverse order with the same models gives
/// the coder back. Compressed words that do not end in a zero word are
/// thus restored from the symbols that were decoded from them.
pub proof fn lemma_ans_restores<const PRECISION: usize, D: EntropyModel<PRECISION>>(
    st: AnsModel,
    models: Seq<D>,
    wb: nat,
    sb: nat,
)
    requires
        valid_precision(PRECISION as nat, wb),
        sb >= 2 * wb,
        ans_normal(st, wb, sb),
    ensures
        ({
            let decoded = ans_decode_symbols::<PRECISION, D>(st, models, wb, sb);
            &&& decoded.1.len() == models.len()
            &&& ans_encode_reverse::<PRECISION, D>(
                decoded.0,
                Seq::new(models.len(), |i: int| (decoded.1[i], models[i])),
                wb,
                sb,
            ) == st
            &&& ans_normal(decoded.0, wb, sb)
        }),
    decreases models.len(),
{
    let decoded = ans_decode_symbols::<PRECISION, D>(st, models, wb, sb);
    let items = Seq::new(models.len(), |i: int| (decoded.1[i], models[i]));
    if models.len() == 0 {
    } else {
        let q = ans_quantile(st, PRECISION as nat);
        lemma_pow2_pos(PRECISION as nat);
        lemma_div_mod_split(st.head, pow2(PRECISION as nat));
        let symbol = models[0].quantile_symbol(q);
        models[0].lemma_quantile_symbol(q);
        models[0].lemma_interval(symbol);
        let c = models[0].left_cumulative(symbol);
        let p = models[0].probability(symbol);
        lemma_ans_encode_inverts_decode(st, c, p, wb, sb, PRECISION as nat);
        let next = ans_decode(st, c, p, wb, sb, PRECISION as nat);
        lemma_ans_restores::<PRECISION, D>(next, models.drop_first(), wb, sb);
        let rest = ans_decode_symbols::<PRECISION, D>(next, models.drop_first(), wb, sb);
        let rest_items = Seq::new(
            models.drop_first().len(),
            |i: int| (rest.1[i], models.drop_first()[i]),
        );
        assert(items.drop_first() =~= rest_items);
        assert(items[0] == (symbol, models[0]));
    }
}

/// The words of a head that was sealed by a leading one bit, with a word
/// below it.
pub proof fn lemma_binary_words_shift(head: nat, word: nat, wb: nat)
    requires
        wb > 0,
        word < pow2(wb),
        head >= 1,
        binary_words(head, wb) is Some,
    ensures
        binary_words(head * pow2(wb) + word, wb) == Some(
            seq![word] + binary_words(head, wb)->Some_0,
        ),
{
    lemma_pow2_pos(wb);
    lemma_pow2_le(1, wb);
    vstd::arithmetic::power2::lemma2_to64();
    lemma_mul_add_div_mod(head, pow2(wb), word);
    assert(head * pow2(wb) >= pow2(wb)) by (nonlinear_arith)
        requires
            head >= 1,
            pow2(wb) > 0,
    ;
}

/// Binary data come back as they went in: a head that starts as a one bit
/// above binary data and takes words from them leaves a coder whose binary
/// data they are.
pub proof fn lemma_ans_binary_round_trip(st: AnsModel, wb: nat, sb: nat)
    requires
        0 < wb <= sb,
        st.head >= 1,
        st.head < pow2(sb),
        binary_words(st.head, wb) is Some,
        forall|i: int| 0 <= i < st.bulk.len() ==> #[trigger] st.bulk[i] < pow2(wb),
    ensures
        binary_words(ans_fill(st, wb, sb).head, wb) is Some,
        ans_fill(st, wb, sb).bulk + binary_words(ans_fill(st, wb, sb).head, wb)->Some_0 == st.bulk
            + binary_words(st.head, wb)->Some_0,
    decreases st.bulk.len(),
{
    if st.head < pow2((sb - wb) as nat) && st.bulk.len() > 0 {
        let next = ans_pull(st, wb);
        let word = st.bulk.last();
        lemma_shift_in(st.head, word, (sb - wb) as nat, wb);
        lemma_binary_words_shift(st.head, word, wb);
        lemma_pow2_pos(wb);
        assert(st.head * pow2(wb) >= 1) by (nonlinear_arith)
            requires
                st.head >= 1,
                pow2(wb) >= 1,
        ;
        assert forall|i: int| 0 <= i < next.bulk.len() implies #[trigger] next.bulk[i] < pow2(
            wb,
        ) by {
            assert(next.bulk[i] == st.bulk[i]);
        }
        lemma_ans_binary_round_trip(next, wb, sb);
        assert(next.bulk + (seq![word] + binary_words(st.head, wb)->Some_0) =~= st.bulk
            + binary_words(st.head, wb)->Some_0);
    }
}

} // verus!
