//! The range coder: an encoder that appends to a queue of compressed words
//! and a decoder that reads the queue from its front.
//!
//! Encoder and decoder keep an interval `[lower, lower + range)` of states.
//! Every symbol narrows the interval to the part that the model gives it.
//! When the interval has become small, its highest word is shifted out. A
//! word that is shifted out while the interval lies across the top of the
//! state cannot be written yet, because a carry may still reach it: the
//! encoder holds such words back and is then in the inverted situation.

use vstd::arithmetic::power2::{lemma_pow2_pos, pow2};
use vstd::prelude::*;
use vstd::std_specs::cmp::PartialEqSpecImpl;

use crate::arith::{
    lemma_div_below,
    lemma_div_mod_split,
    lemma_pow2_le,
    lemma_pow2_split,
    lemma_shift_in,
    lemma_shift_out,
};
use crate::bit_array::{
    below_pow2,
    div_pow2,
    lemma_word_values_drop_last,
    lemma_word_values_push,
    mod_pow2,
    mul_pow2_add,
    pow2_u128,
    word_values,
    BitArray,
};
use crate::backends::{
    accepts_every_word,
    room_for,
    room_less,
    AsReadWords,
    Cursor,
    IntoReadWords,
    PosBackend,
    Queue,
    ReadWords,
    SeekBackend,
    WriteWords,
};
use crate::stream::models::{DecoderModel, EncoderModel, EntropyModel};
use crate::stream::stack::{all_possible, copy_words, iid_items, iid_models, valid_precision};
use crate::stream::{CoderError, EncoderFrontendError};

verus! {

/// Whether an encoder holds words back.
pub enum Situation {
    /// Every word that was shifted out has been written.
    Normal,
    /// `count` words are held back, the first of which is `first_word` if
    /// no carry reaches it.
    Inverted { count: nat, first_word: nat },
}

/// What a range encoder holds: the words written so far, the interval and
/// the situation.
pub struct RangeModel {
    pub bulk: Seq<nat>,
    pub lower: nat,
    pub range: nat,
    pub situation: Situation,
}

/// The encoder that has encoded nothing.
pub open spec fn range_initial(sb: nat) -> RangeModel {
    RangeModel {
        bulk: Seq::empty(),
        lower: 0,
        range: (pow2(sb) - 1) as nat,
        situation: Situation::Normal,
    }
}

/// The invariant of an encoder: the interval is not small, it lies below
/// the top of the state in the normal situation and across it in the
/// inverted one, a carry can be added to the first word held back, and
/// only an encoder that has written nothing has the interval of all states
/// but the highest.
pub open spec fn range_wf(st: RangeModel, wb: nat, sb: nat) -> bool {
    &&& st.lower < pow2(sb)
    &&& pow2((sb - wb) as nat) <= st.range < pow2(sb)
    &&& st.range == pow2(sb) - 1 ==> st.bulk.len() == 0 && st.lower == 0
        && st.situation is Normal
    &&& match st.situation {
        Situation::Normal => st.lower + st.range < pow2(sb),
        Situation::Inverted { count, first_word } => count >= 1 && first_word + 1 < pow2(wb)
            && st.lower + st.range >= pow2(sb),
    }
}

/// The words held back, once it is known whether a carry reaches them.
pub open spec fn resolved_words(count: nat, first_word: nat, carry: bool, wb: nat) -> Seq<nat> {
    if carry {
        seq![first_word + 1] + Seq::new((count - 1) as nat, |i: int| 0nat)
    } else {
        seq![first_word] + Seq::new((count - 1) as nat, |i: int| (pow2(wb) - 1) as nat)
    }
}

/// The encoder after its interval was narrowed to the part
/// `[c, c + p)` of `2^prec` parts; words held back are written if the
/// narrowed interval no longer lies across the top of the state.
pub open spec fn range_narrow(st: RangeModel, c: nat, p: nat, sb: nat, wb: nat, prec: nat) -> RangeModel {
    let scale = st.range / pow2(prec);
    let range = scale * p;
    let lower = (st.lower + scale * c) % pow2(sb);
    match st.situation {
        Situation::Inverted { count, first_word } if lower + range < pow2(sb) => RangeModel {
            bulk: st.bulk + resolved_words(count, first_word, lower < st.lower, wb),
            lower,
            range,
            situation: Situation::Normal,
        },
        _ => RangeModel { bulk: st.bulk, lower, range, situation: st.situation },
    }
}

/// The encoder after the highest word of a small interval was shifted out.
pub open spec fn range_renormalize(st: RangeModel, wb: nat, sb: nat) -> RangeModel {
    if st.range < pow2((sb - wb) as nat) {
        let range = st.range * pow2(wb);
        let word = st.lower / pow2((sb - wb) as nat);
        let lower = (st.lower % pow2((sb - wb) as nat)) * pow2(wb);
        match st.situation {
            Situation::Inverted { count, first_word } => RangeModel {
                bulk: st.bulk,
                lower,
                range,
                situation: Situation::Inverted { count: count + 1, first_word },
            },
            Situation::Normal => if lower + range < pow2(sb) {
                RangeModel { bulk: st.bulk.push(word), lower, range, situation: Situation::Normal }
            } else {
                RangeModel {
                    bulk: st.bulk,
                    lower,
                    range,
                    situation: Situation::Inverted { count: 1, first_word: word },
                }
            },
        }
    } else {
        st
    }
}

/// The encoder after a symbol with the left cumulative `c` and the
/// probability `p` was encoded.
pub open spec fn range_encode(st: RangeModel, c: nat, p: nat, wb: nat, sb: nat, prec: nat) -> RangeModel {
    range_renormalize(range_narrow(st, c, p, sb, wb, prec), wb, sb)
}

/// The number of words held back.
pub open spec fn held_back(st: RangeModel) -> nat {
    match st.situation {
        Situation::Normal => 0,
        Situation::Inverted { count, first_word } => count,
    }
}

/// The compressed words of an encoder: the words written so far, the words
/// held back, and one word that tells a state of the interval from the
/// states outside. An encoder that has encoded nothing has no words.
pub open spec fn range_seal(st: RangeModel, wb: nat, sb: nat) -> Seq<nat> {
    if st.range == pow2(sb) - 1 {
        st.bulk
    } else {
        let point = ((st.lower + st.range - 1) % (pow2(sb) as int)) as nat;
        let held = match st.situation {
            Situation::Normal => Seq::<nat>::empty(),
            Situation::Inverted { count, first_word } => resolved_words(
                count,
                first_word,
                point < st.lower,
                wb,
            ),
        };
        (st.bulk + held).push(point / pow2((sb - wb) as nat))
    }
}

/// The number of words that sealing appends.
pub open spec fn sealed_extra(st: RangeModel, sb: nat) -> nat {
    if st.range == pow2(sb) - 1 {
        0
    } else {
        held_back(st) + 1
    }
}

/// The encoder after the symbols of `items` were encoded in their order,
/// each with its model.
pub open spec fn range_encode_all<const PRECISION: usize, D: EntropyModel<PRECISION>>(
    st: RangeModel,
    items: Seq<(D::Symbol, D)>,
    wb: nat,
    sb: nat,
) -> RangeModel
    decreases items.len(),
{
    if items.len() == 0 {
        st
    } else {
        range_encode(
            range_encode_all(st, items.drop_last(), wb, sb),
            items.last().1.left_cumulative(items.last().0),
            items.last().1.probability(items.last().0),
            wb,
            sb,
            PRECISION as nat,
        )
    }
}

/// A narrowed interval lies within the interval it was narrowed from.
pub proof fn lemma_narrow_within(range: nat, c: nat, p: nat, prec: nat)
    requires
        c + p <= pow2(prec),
        p > 0,
        range >= pow2(prec),
    ensures
        (range / pow2(prec)) * c + (range / pow2(prec)) * p <= range,
        (range / pow2(prec)) * p >= range / pow2(prec),
        range / pow2(prec) >= 1,
{
    let m = pow2(prec);
    lemma_pow2_pos(prec);
    lemma_div_mod_split(range, m);
    let scale = range / m;
    lemma_div_below(range, m, 1);
    assert(scale * c + scale * p == scale * (c + p)) by (nonlinear_arith);
    assert(scale * (c + p) <= scale * m) by (nonlinear_arith)
        requires
            c + p <= m,
    ;
    assert(scale * p >= scale) by (nonlinear_arith)
        requires
            p >= 1,
    ;
}

/// The state of a range coder: its interval.
#[derive(Debug)]
pub struct CoderState<Word: BitArray, State: BitArray> {
    lower: State,
    range: State,
    phantom: core::marker::PhantomData<Word>,
}

impl<Word: BitArray, State: BitArray> Clone for CoderState<Word, State> {
    fn clone(&self) -> (copy: Self)
        ensures
            copy == *self,
    {
        Self { lower: self.lower, range: self.range, phantom: core::marker::PhantomData }
    }
}

impl<Word: BitArray, State: BitArray> Copy for CoderState<Word, State> {

}

impl<Word: BitArray, State: BitArray> Default for CoderState<Word, State> {
    /// The state of a coder that has coded nothing.
    fn default() -> (state: Self)
        ensures
            state.lower_spec() == 0,
            state.range_spec() == pow2(State::spec_bits()) - 1,
    {
        Self::initial()
    }
}

impl<Word: BitArray, State: BitArray> PartialEq for CoderState<Word, State> {
    fn eq(&self, other: &Self) -> (equal: bool) {
        self.lower.to_u64() == other.lower.to_u64() && self.range.to_u64() == other.range.to_u64()
    }
}

impl<Word: BitArray, State: BitArray> PartialEqSpecImpl for CoderState<Word, State> {
    open spec fn obeys_eq_spec() -> bool {
        true
    }

    open spec fn eq_spec(&self, other: &Self) -> bool {
        self.lower_spec() == other.lower_spec() && self.range_spec() == other.range_spec()
    }
}

impl<Word: BitArray, State: BitArray> Eq for CoderState<Word, State> {

}

impl<Word: BitArray, State: BitArray> CoderState<Word, State> {
    /// The lower end of the interval.
    pub closed spec fn lower_spec(&self) -> nat {
        self.lower.as_nat()
    }

    /// The size of the interval.
    pub closed spec fn range_spec(&self) -> nat {
        self.range.as_nat()
    }

    /// The interval is not small.
    pub open spec fn wf(&self) -> bool {
        self.range_spec() >= pow2((State::spec_bits() - Word::spec_bits()) as nat)
    }

    /// The lower end of the interval, which belongs to it.
    pub fn lower(&self) -> (lower: State)
        ensures
            lower.as_nat() == self.lower_spec(),
    {
        self.lower
    }

    /// The size of the interval.
    pub fn range(&self) -> (range: State)
        ensures
            range.as_nat() == self.range_spec(),
    {
        self.range
    }

    /// The state of a coder that has coded nothing: the interval of all
    /// states but the highest.
    pub fn initial() -> (state: Self)
        ensures
            state.lower_spec() == 0,
            state.range_spec() == pow2(State::spec_bits()) - 1,
    {
        proof {
            State::lemma_width();
            lemma_pow2_pos(State::spec_bits());
            lemma_pow2_le(State::spec_bits(), 64);
            vstd::arithmetic::power2::lemma2_to64_rest();
        }
        let modulus = pow2_u128(State::bits());
        let max: u128 = modulus - 1;
        Self {
            lower: State::from_u64(0),
            range: State::from_u64(max as u64),
            phantom: core::marker::PhantomData,
        }
    }

    /// The state with the lower end `lower` and the size `range`; fails
    /// where the interval is small, which the interval of no coder is.
    pub fn new(lower: State, range: State) -> (result: Result<Self, ()>)
        requires
            State::spec_bits() >= Word::spec_bits(),
        ensures
            range.as_nat() >= pow2((State::spec_bits() - Word::spec_bits()) as nat) ==> result
                is Ok && result->Ok_0.lower_spec() == lower.as_nat() && result->Ok_0.range_spec()
                == range.as_nat() && result->Ok_0.wf(),
            range.as_nat() < pow2((State::spec_bits() - Word::spec_bits()) as nat) ==> result
                is Err,
    {
        proof {
            Word::lemma_width();
            State::lemma_width();
        }
        if below_pow2(range.to_u64(), State::bits() - Word::bits()) {
            Err(())
        } else {
            Ok(Self { lower, range, phantom: core::marker::PhantomData })
        }
    }

    /// The state with the interval `[lower, lower + range)`.
    fn from_parts(lower: u64, range: u64) -> (state: Self)
        requires
            lower < pow2(State::spec_bits()),
            range < pow2(State::spec_bits()),
        ensures
            state.lower_spec() == lower,
            state.range_spec() == range,
    {
        Self {
            lower: State::from_u64(lower),
            range: State::from_u64(range),
            phantom: core::marker::PhantomData,
        }
    }
}

/// Whether an encoder holds words back.
#[derive(Debug, Clone, Copy, PartialEq, Eq)]
enum EncoderSituation<Word> {
    Normal,
    /// The number of words held back and the first of them.
    Inverted(usize, Word),
}

/// A range encoder over words of type `Word` with states of type `State`
/// that writes to a backend of type `Backend`.
#[derive(Debug, Clone)]
pub struct RangeEncoder<Word: BitArray, State: BitArray, Backend: WriteWords<Word> = Vec<Word>> {
    bulk: Backend,
    state: CoderState<Word, State>,
    situation: EncoderSituation<Word>,
}

impl<Word: BitArray, State: BitArray, Backend: WriteWords<Word>> View for RangeEncoder<
    Word,
    State,
    Backend,
> {
    type V = RangeModel;

    closed spec fn view(&self) -> RangeModel {
        RangeModel {
            bulk: word_values(self.bulk.written()),
            lower: self.state.lower_spec(),
            range: self.state.range_spec(),
            situation: match self.situation {
                EncoderSituation::Normal => Situation::Normal,
                EncoderSituation::Inverted(count, first_word) => Situation::Inverted {
                    count: count as nat,
                    first_word: first_word.as_nat(),
                },
            },
        }
    }
}

/// The widths can be used by a range coder: a state is a whole number of
/// words, and at least two.
pub open spec fn valid_range_widths(wb: nat, sb: nat) -> bool {
    &&& sb >= 2 * wb
    &&& sb % wb == 0
}

impl<Word: BitArray, State: BitArray, Backend: WriteWords<Word>> RangeEncoder<
    Word,
    State,
    Backend,
> {
    /// A state is a whole number of words, and at least two.
    pub open spec fn valid_widths() -> bool {
        valid_range_widths(Word::spec_bits(), State::spec_bits())
    }

    /// The invariant of the encoder; see [`range_wf`].
    pub open spec fn wf(&self) -> bool {
        range_wf(self@, Word::spec_bits(), State::spec_bits())
    }

    /// The backend.
    pub closed spec fn backend(&self) -> Backend {
        self.bulk
    }

    /// Whether the backend knows the words that it has taken.
    pub open spec fn writes_known(&self) -> bool {
        self.backend().writes_known()
    }

    /// Whether the backend may be handed every word.
    pub open spec fn accepts_all(&self) -> bool {
        accepts_every_word::<Word, Backend>(self.backend())
    }

    /// Whether the backend knows the words that it has taken and takes any
    /// number of words more.
    pub open spec fn unbounded(&self) -> bool {
        self.backend().writes_known() && self.backend().room() is None
    }

    /// The words of the encoder are the words that its backend has taken.
    pub proof fn lemma_view(&self)
        ensures
            self@.bulk == word_values(self.backend().written()),
    {
    }

    /// An encoder that has encoded nothing and writes to `backend`, which
    /// has taken no word yet.
    pub fn with_backend(backend: Backend) -> (encoder: Self)
        requires
            Self::valid_widths(),
            backend.written().len() == 0,
        ensures
            encoder@ == range_initial(State::spec_bits()),
            encoder.backend() == backend,
            encoder.wf(),
    {
        let encoder = Self {
            bulk: backend,
            state: CoderState::initial(),
            situation: EncoderSituation::Normal,
        };
        proof {
            assert(encoder@.bulk =~= Seq::empty());
            lemma_pow2_pos(State::spec_bits());
            Word::lemma_width();
            lemma_initial_wf(Word::spec_bits(), State::spec_bits());
        }
        encoder
    }

    /// The backend.
    pub fn bulk(&self) -> (bulk: &Backend)
        ensures
            *bulk == self.backend(),
    {
        &self.bulk
    }

    /// The interval.
    pub fn state(&self) -> (state: CoderState<Word, State>)
        ensures
            state.lower_spec() == self@.lower,
            state.range_spec() == self@.range,
    {
        self.state
    }

    /// The number of words held back.
    pub fn num_held_back(&self) -> (count: usize)
        ensures
            count == held_back(self@),
    {
        match self.situation {
            EncoderSituation::Inverted(count, _) => count,
            EncoderSituation::Normal => 0,
        }
    }

    /// Writes the words held back as `count` words whose first is
    /// `first_word`, with or without the carry, and stops at the first
    /// failure of the backend.
    fn write_resolved(&mut self, count: usize, first_word: Word, carry: bool) -> (result: Result<
        (),
        Backend::WriteError,
    >)
        requires
            count >= 1,
            first_word.as_nat() + 1 < pow2(Word::spec_bits()),
            old(self).accepts_all(),
        ensures
            final(self).accepts_all(),
            final(self)@.lower == old(self)@.lower,
            final(self)@.range == old(self)@.range,
            final(self)@.situation == old(self)@.situation,
            old(self).writes_known() ==> final(self).writes_known(),
            old(self).unbounded() ==> result is Ok && final(self).unbounded(),
            old(self).writes_known() && room_for(old(self).backend().room(), count as nat)
                ==> result is Ok && final(self).backend().room() == room_less(
                old(self).backend().room(),
                count as nat,
            ),
            old(self).writes_known() && result is Ok ==> final(self)@.bulk == old(self)@.bulk
                + resolved_words(count as nat, first_word.as_nat(), carry, Word::spec_bits()),
    {
        proof {
            Word::lemma_width();
            lemma_pow2_pos(Word::spec_bits());
            lemma_pow2_le(Word::spec_bits(), 64);
            vstd::arithmetic::power2::lemma2_to64_rest();
        }
        let max: u128 = pow2_u128(Word::bits()) - 1;
        let first: Word = if carry {
            Word::from_u64(first_word.to_u64() + 1)
        } else {
            first_word
        };
        let other: Word = if carry {
            Word::from_u64(0)
        } else {
            Word::from_u64(max as u64)
        };
        let ghost before = self.bulk.written();
        let ghost resolved = resolved_words(
            count as nat,
            first_word.as_nat(),
            carry,
            Word::spec_bits(),
        );
        match self.bulk.write(first) {
            Ok(()) => {},
            Err(error) => {
                return Err(error);
            },
        }
        proof {
            lemma_word_values_push(before, first);
            assert(word_values(before).push(first.as_nat()) =~= word_values(before)
                + resolved.take(1));
        }
        let mut i: usize = 1;
        while i < count
            invariant
                1 <= i <= count,
                resolved == resolved_words(
                    count as nat,
                    first_word.as_nat(),
                    carry,
                    Word::spec_bits(),
                ),
                other.as_nat() == (if carry {
                    0
                } else {
                    pow2(Word::spec_bits()) - 1
                }),
                old(self).writes_known() ==> self.writes_known() && word_values(
                    self.bulk.written(),
                ) == word_values(before) + resolved.take(i as int),
                old(self).unbounded() ==> self.unbounded(),
                old(self).writes_known() && room_for(old(self).bulk.room(), count as nat)
                    ==> self.bulk.room() == room_less(old(self).bulk.room(), i as nat),
                before == old(self).bulk.written(),
                self.state == old(self).state,
                self.situation == old(self).situation,
                self.accepts_all(),
            decreases count - i,
        {
            let ghost earlier = self.bulk.written();
            match self.bulk.write(other) {
                Ok(()) => {},
                Err(error) => {
                    return Err(error);
                },
            }
            proof {
                lemma_word_values_push(earlier, other);
                assert((word_values(before) + resolved.take(i as int)).push(other.as_nat())
                    =~= word_values(before) + resolved.take(i + 1));
            }
            i += 1;
        }
        proof {
            assert(resolved.take(count as int) =~= resolved);
        }
        Ok(())
    }

    /// Encodes `symbol` with `model`: narrows the interval to the part that
    /// the model gives the symbol, and writes the words that are settled
    /// thereby. A symbol to which the model gives no probability is
    /// refused, and the encoder stays as it was.
    pub fn encode_symbol<const PRECISION: usize, D: EncoderModel<PRECISION>>(
        &mut self,
        symbol: &D::Symbol,
        model: &D,
    ) -> (result: Result<(), CoderError<EncoderFrontendError, Backend::WriteError>>)
        requires
            Self::valid_widths(),
            valid_precision(PRECISION as nat, Word::spec_bits()),
            old(self).wf(),
            old(self).accepts_all(),
            held_back(old(self)@) < usize::MAX,
        ensures
            final(self).accepts_all(),
            result is Ok ==> final(self).wf(),
            old(self).writes_known() ==> final(self).writes_known(),
            model.probability(*symbol) == 0 ==> result == Err::<
                (),
                CoderError<EncoderFrontendError, Backend::WriteError>,
            >(CoderError::FrontendError(EncoderFrontendError::ImpossibleSymbol)) && *final(self)
                == *old(self),
            model.probability(*symbol) > 0 ==> !(result is Err && result->Err_0 is FrontendError),
            model.probability(*symbol) > 0 && old(self).unbounded() ==> result is Ok && final(self).unbounded(),
            model.probability(*symbol) > 0 && old(self).writes_known() && room_for(
                old(self).backend().room(),
                held_back(old(self)@) + 1,
            ) ==> result is Ok && final(self).backend().room() == room_less(
                old(self).backend().room(),
                (final(self)@.bulk.len() - old(self)@.bulk.len()) as nat,
            ),
            model.probability(*symbol) > 0 && old(self).writes_known() && result is Ok ==> final(self)@ == range_encode(
                old(self)@,
                model.left_cumulative(*symbol),
                model.probability(*symbol),
                Word::spec_bits(),
                State::spec_bits(),
                PRECISION as nat,
            ),
            held_back(final(self)@) <= held_back(old(self)@) + 1,
    {
        let ghost wb = Word::spec_bits();
        let ghost sb = State::spec_bits();
        let ghost prec = PRECISION as nat;
        match model.left_cumulative_and_probability(symbol) {
            None => Err(CoderError::FrontendError(EncoderFrontendError::ImpossibleSymbol)),
            Some((left_cumulative, probability)) => {
                proof {
                    Word::lemma_width();
                    State::lemma_width();
                    model.lemma_interval(*symbol);
                    lemma_pow2_split(sb, wb);
                    lemma_pow2_split(sb, prec);
                    lemma_pow2_le(prec, (sb - wb) as nat);
                    lemma_pow2_le(sb, 64);
                    vstd::arithmetic::power2::lemma2_to64_rest();
                    lemma_narrow_within(
                        self@.range,
                        left_cumulative as nat,
                        probability as nat,
                        prec,
                    );
                    let scale = self@.range / pow2(prec);
                    lemma_div_below(self@.range, pow2(prec), pow2((sb - prec) as nat));
                    lemma_pow2_le(1, prec);
                    vstd::arithmetic::power2::lemma2_to64();
                    assert(scale * probability <= (pow2((sb - prec) as nat) - 1) * pow2(prec))
                        by (nonlinear_arith)
                        requires
                            scale <= pow2((sb - prec) as nat) - 1,
                            probability <= pow2(prec),
                            0 <= scale,
                    ;
                    assert((pow2((sb - prec) as nat) - 1) * pow2(prec) == pow2(
                        (sb - prec) as nat,
                    ) * pow2(prec) - pow2(prec)) by (nonlinear_arith);
                    assert(0 <= scale * left_cumulative) by (nonlinear_arith)
                        requires
                            0 <= scale,
                            0 <= left_cumulative,
                    ;
                    assert(0 <= scale * probability) by (nonlinear_arith)
                        requires
                            0 <= scale,
                            0 <= probability,
                    ;
                }
                let modulus: u128 = pow2_u128(State::bits());
                let old_lower: u64 = self.state.lower.to_u64();
                let scale: u64 = div_pow2(self.state.range.to_u64(), PRECISION);
                let mut range: u64 = scale * probability;
                let offset: u64 = scale * left_cumulative;
                let mut lower: u64 = ((old_lower as u128 + offset as u128) % modulus) as u64;
                let mut situation = self.situation;
                match situation {
                    EncoderSituation::Inverted(count, first_word) => {
                        if (lower as u128) + (range as u128) < modulus {
                            match self.write_resolved(count, first_word, lower < old_lower) {
                                Ok(()) => {},
                                Err(error) => {
                                    return Err(CoderError::BackendError(error));
                                },
                            }
                            situation = EncoderSituation::Normal;
                        }
                    },
                    EncoderSituation::Normal => {
                        proof {
                            vstd::arithmetic::div_mod::lemma_small_mod(
                                (old_lower + offset) as nat,
                                modulus as nat,
                            );
                        }
                    },
                }
                proof {
                    // the narrowed interval in the inverted situation
                    let sum = (old_lower + offset) as nat;
                    if sum >= modulus {
                        vstd::arithmetic::div_mod::lemma_mod_sub_multiples_vanish(
                            sum as int,
                            modulus as int,
                        );
                        vstd::arithmetic::div_mod::lemma_small_mod(
                            (sum - modulus) as nat,
                            modulus as nat,
                        );
                    } else {
                        vstd::arithmetic::div_mod::lemma_small_mod(sum, modulus as nat);
                    }
                }
                if below_pow2(range, State::bits() - Word::bits()) {
                    proof {
                        lemma_shift_out(lower as nat, sb, (sb - wb) as nat);
                        let t = pow2((sb - wb) as nat);
                        let w = pow2(wb);
                        let x = (lower as nat) % t;
                        assert(range * w <= (t - 1) * w) by (nonlinear_arith)
                            requires
                                range <= t - 1,
                                w > 0,
                        ;
                        assert((t - 1) * w == t * w - w) by (nonlinear_arith);
                        lemma_pow2_le(1, wb);
                        assert(x * w < t * w) by (nonlinear_arith)
                            requires
                                x < t,
                                w > 0,
                        ;
                        assert(0 <= x * w) by (nonlinear_arith)
                            requires
                                0 <= x,
                                0 <= w,
                        ;
                        assert(0 <= range * w) by (nonlinear_arith)
                            requires
                                0 <= range,
                                0 <= w,
                        ;
                        // the interval is not small after the shift
                        let scale_n = scale as nat;
                        lemma_div_below(self@.range, pow2(prec), pow2((sb - wb - prec) as nat));
                        lemma_pow2_split((sb - wb) as nat, prec);
                        lemma_pow2_split(wb, prec);
                        let low = pow2((sb - wb - prec) as nat);
                        assert(range * w >= low * w) by (nonlinear_arith)
                            requires
                                range >= low,
                        ;
                        assert(low * w >= t) by (nonlinear_arith)
                            requires
                                t == low * pow2(prec),
                                w >= pow2(prec),
                                low >= 0,
                        ;
                    }
                    let word_value: u64 = div_pow2(lower, State::bits() - Word::bits());
                    let low_part: u64 = mod_pow2(lower, State::bits() - Word::bits());
                    let ghost unshifted_lower = lower;
                    let ghost unshifted_range = range;
                    range = mul_pow2_add(range, Word::bits(), 0);
                    lower = mul_pow2_add(low_part, Word::bits(), 0);
                    let word = Word::from_u64(word_value);
                    proof {
                        // word * t + x == unshifted lower
                        let t = pow2((sb - wb) as nat);
                        let w = pow2(wb);
                        let x = low_part as nat;
                        let r = unshifted_range as nat;
                        assert((x + r) * w == x * w + r * w) by (nonlinear_arith);
                        assert(t * w == pow2(sb));
                        assert(w * t == t * w) by (nonlinear_arith);
                        lemma_shift_out(unshifted_lower as nat, sb, (sb - wb) as nat);
                        assert(unshifted_lower == word_value * t + x);
                        if x + r >= t {
                            assert((x + r) * w >= t * w) by (nonlinear_arith)
                                requires
                                    x + r >= t,
                                    w > 0,
                            ;
                        } else {
                            assert((x + r) * w < t * w) by (nonlinear_arith)
                                requires
                                    x + r < t,
                                    w > 0,
                            ;
                        }
                        if unshifted_lower + unshifted_range < pow2(sb) && x + r >= t {
                            // the word that starts an inversion takes a carry
                            assert(word_value * t + x + r < w * t);
                            assert((word_value + 1) * t <= word_value * t + x + r)
                                by (nonlinear_arith)
                                requires
                                    x + r >= t,
                            ;
                            assert(word_value + 1 < w) by (nonlinear_arith)
                                requires
                                    (word_value + 1) * t < w * t,
                                    t > 0,
                            ;
                        }
                        if unshifted_lower + unshifted_range >= pow2(sb) {
                            // the interval stays across the top
                            assert(unshifted_lower >= pow2(sb) - r);
                            assert(word_value * t + x + r >= w * t);
                            assert(word_value < w);
                            assert(word_value * t <= (w - 1) * t) by (nonlinear_arith)
                                requires
                                    word_value <= w - 1,
                                    t >= 0,
                            ;
                            assert((w - 1) * t == w * t - t) by (nonlinear_arith);
                        }
                    }
                    match situation {
                        EncoderSituation::Inverted(count, first_word) => {
                            situation = EncoderSituation::Inverted(count + 1, first_word);
                        },
                        EncoderSituation::Normal => {
                            if (lower as u128) + (range as u128) < modulus {
                                let ghost earlier = self.bulk.written();
                                match self.bulk.write(word) {
                                    Ok(()) => {},
                                    Err(error) => {
                                        return Err(CoderError::BackendError(error));
                                    },
                                }
                                proof {
                                    lemma_word_values_push(earlier, word);
                                }
                            } else {
                                situation = EncoderSituation::Inverted(1, word);
                            }
                        },
                    }
                }
                self.state = CoderState::from_parts(lower, range);
                self.situation = situation;
                Ok(())
            },
        }
    }
    /// Appends what tells the final interval: the words held back and one
    /// more word. The interval and the situation stay as they are, so that
    /// the words can be taken away again.
    fn seal(&mut self) -> (result: Result<(), Backend::WriteError>)
        requires
            Self::valid_widths(),
            old(self).wf(),
            old(self).accepts_all(),
        ensures
            final(self).accepts_all(),
            final(self)@.lower == old(self)@.lower,
            final(self)@.range == old(self)@.range,
            final(self)@.situation == old(self)@.situation,
            old(self).writes_known() ==> final(self).writes_known(),
            old(self).unbounded() ==> result is Ok && final(self).unbounded(),
            old(self).writes_known() && room_for(
                old(self).backend().room(),
                sealed_extra(old(self)@, State::spec_bits()),
            ) ==> result is Ok,
            old(self).writes_known() && result is Ok ==> final(self)@.bulk == range_seal(
                old(self)@,
                Word::spec_bits(),
                State::spec_bits(),
            ) && final(self)@.bulk.len() == old(self)@.bulk.len() + sealed_extra(
                old(self)@,
                State::spec_bits(),
            ) && final(self)@.bulk.take(old(self)@.bulk.len() as int) == old(self)@.bulk,
    {
        let ghost wb = Word::spec_bits();
        let ghost sb = State::spec_bits();
        proof {
            Word::lemma_width();
            State::lemma_width();
            lemma_pow2_pos(sb);
            lemma_pow2_pos((sb - wb) as nat);
            lemma_pow2_le(sb, 64);
            vstd::arithmetic::power2::lemma2_to64_rest();
        }
        let modulus: u128 = pow2_u128(State::bits());
        let range: u64 = self.state.range.to_u64();
        let lower: u64 = self.state.lower.to_u64();
        if range as u128 == modulus - 1 {
            proof {
                assert(self@.bulk.take(self@.bulk.len() as int) =~= self@.bulk);
            }
            return Ok(());
        }
        let sum: u128 = lower as u128 + (range as u128 - 1);
        let point: u64 = (sum % modulus) as u64;
        match self.situation {
            EncoderSituation::Inverted(count, first_word) => {
                match self.write_resolved(count, first_word, point < lower) {
                    Ok(()) => {},
                    Err(error) => {
                        return Err(error);
                    },
                }
            },
            EncoderSituation::Normal => {
                proof {
                    assert(self@.bulk + Seq::<nat>::empty() =~= self@.bulk);
                }
            },
        }
        proof {
            lemma_pow2_split(sb, wb);
            lemma_shift_out(point as nat, sb, (sb - wb) as nat);
        }
        let word = Word::from_u64(div_pow2(point, State::bits() - Word::bits()));
        let ghost earlier = self.bulk.written();
        match self.bulk.write(word) {
            Ok(()) => {},
            Err(error) => {
                return Err(error);
            },
        }
        proof {
            lemma_word_values_push(earlier, word);
            if old(self).writes_known() {
                assert(self@.bulk.take(old(self)@.bulk.len() as int) =~= old(self)@.bulk);
            }
        }
        Ok(())
    }

    /// Seals the encoder and hands back its backend, which has then taken
    /// the compressed words; see [`range_seal`].
    pub fn into_compressed(self) -> (result: Result<Backend, Backend::WriteError>)
        requires
            Self::valid_widths(),
            self.wf(),
            self.accepts_all(),
        ensures
            self.unbounded() ==> result is Ok,
            self.writes_known() && room_for(
                self.backend().room(),
                sealed_extra(self@, State::spec_bits()),
            ) ==> result is Ok,
            self.writes_known() && result is Ok ==> result->Ok_0.writes_known() && word_values(
                result->Ok_0.written(),
            ) == range_seal(self@, Word::spec_bits(), State::spec_bits()),
    {
        let mut encoder = self;
        match encoder.seal() {
            Ok(()) => Ok(encoder.bulk),
            Err(error) => Err(error),
        }
    }

    /// Encodes the symbols of `items` in their order, each with its model,
    /// and stops at the first symbol that its model gives no probability.
    pub fn encode_symbols<const PRECISION: usize, D: EncoderModel<PRECISION>>(
        &mut self,
        items: &[(D::Symbol, D)],
    ) -> (result: Result<(), CoderError<EncoderFrontendError, Backend::WriteError>>)
        requires
            Self::valid_widths(),
            valid_precision(PRECISION as nat, Word::spec_bits()),
            old(self).wf(),
            old(self).accepts_all(),
            held_back(old(self)@) + items@.len() <= usize::MAX,
        ensures
            final(self).accepts_all(),
            result is Ok ==> final(self).wf(),
            old(self).unbounded() ==> final(self).unbounded() && final(self).wf() && (result
                is Ok <==> all_possible::<PRECISION, D>(items@)) && (result is Ok ==> final(self)@
                == range_encode_all::<PRECISION, D>(
                old(self)@,
                items@,
                Word::spec_bits(),
                State::spec_bits(),
            )) && (result is Err ==> exists|k: int|
                0 <= k < items@.len() && (#[trigger] items@[k]).1.probability(items@[k].0) == 0
                    && all_possible::<PRECISION, D>(items@.take(k)) && final(self)@
                    == range_encode_all::<PRECISION, D>(
                    old(self)@,
                    items@.take(k),
                    Word::spec_bits(),
                    State::spec_bits(),
                )),
            held_back(final(self)@) <= held_back(old(self)@) + items@.len(),
    {
        let mut i: usize = 0;
        proof {
            assert(items@.take(0) =~= Seq::empty());
        }
        while i < items.len()
            invariant
                Self::valid_widths(),
                valid_precision(PRECISION as nat, Word::spec_bits()),
                self.wf(),
                self.accepts_all(),
                i <= items@.len(),
                held_back(old(self)@) + items@.len() <= usize::MAX,
                held_back(self@) <= held_back(old(self)@) + i,
                old(self).unbounded() ==> self.unbounded() && all_possible::<PRECISION, D>(
                    items@.take(i as int),
                ) && self@ == range_encode_all::<PRECISION, D>(
                    old(self)@,
                    items@.take(i as int),
                    Word::spec_bits(),
                    State::spec_bits(),
                ),
            decreases items@.len() - i,
        {
            proof {
                assert(items@.take(i + 1).drop_last() =~= items@.take(i as int));
                assert(items@.take(i + 1).last() == items@[i as int]);
            }
            match self.encode_symbol::<PRECISION, D>(&items[i].0, &items[i].1) {
                Ok(()) => {
                    proof {
                        if old(self).unbounded() {
                            assert forall|j: int| 0 <= j < items@.take(i + 1).len() implies (
                            #[trigger] items@.take(i + 1)[j]).1.probability(
                                items@.take(i + 1)[j].0,
                            ) > 0 by {
                                if j < i {
                                    assert(items@.take(i + 1)[j] == items@.take(i as int)[j]);
                                }
                            }
                        }
                    }
                },
                Err(error) => {
                    proof {
                        if old(self).unbounded() {
                            assert(items@[i as int].1.probability(items@[i as int].0) == 0);
                            assert(!all_possible::<PRECISION, D>(items@));
                        }
                    }
                    return Err(error);
                },
            }
            i += 1;
        }
        proof {
            assert(items@.take(i as int) =~= items@);
        }
        Ok(())
    }

    /// Encodes `symbols` in their order, all with the one model `model`.
    pub fn encode_iid_symbols<const PRECISION: usize, D: EncoderModel<PRECISION>>(
        &mut self,
        symbols: &[D::Symbol],
        model: &D,
    ) -> (result: Result<(), CoderError<EncoderFrontendError, Backend::WriteError>>)
        requires
            Self::valid_widths(),
            valid_precision(PRECISION as nat, Word::spec_bits()),
            old(self).wf(),
            old(self).accepts_all(),
            held_back(old(self)@) + symbols@.len() <= usize::MAX,
        ensures
            final(self).accepts_all(),
            result is Ok ==> final(self).wf(),
            old(self).unbounded() ==> final(self).unbounded() && final(self).wf() && (result
                is Ok <==> all_possible::<PRECISION, D>(iid_items(symbols@, *model))) && (result
                is Ok ==> final(self)@ == range_encode_all::<PRECISION, D>(
                old(self)@,
                iid_items(symbols@, *model),
                Word::spec_bits(),
                State::spec_bits(),
            )),
            held_back(final(self)@) <= held_back(old(self)@) + symbols@.len(),
    {
        let ghost items = iid_items(symbols@, *model);
        let mut i: usize = 0;
        proof {
            assert(items.take(0) =~= Seq::empty());
        }
        while i < symbols.len()
            invariant
                Self::valid_widths(),
                valid_precision(PRECISION as nat, Word::spec_bits()),
                self.wf(),
                self.accepts_all(),
                i <= symbols@.len(),
                items == iid_items(symbols@, *model),
                held_back(old(self)@) + symbols@.len() <= usize::MAX,
                held_back(self@) <= held_back(old(self)@) + i,
                old(self).unbounded() ==> self.unbounded() && all_possible::<PRECISION, D>(
                    items.take(i as int),
                ) && self@ == range_encode_all::<PRECISION, D>(
                    old(self)@,
                    items.take(i as int),
                    Word::spec_bits(),
                    State::spec_bits(),
                ),
            decreases symbols@.len() - i,
        {
            proof {
                assert(items.take(i + 1).drop_last() =~= items.take(i as int));
                assert(items.take(i + 1).last() == items[i as int]);
            }
            match self.encode_symbol::<PRECISION, D>(&symbols[i], model) {
                Ok(()) => {
                    proof {
                        if old(self).unbounded() {
                            assert forall|j: int| 0 <= j < items.take(i + 1).len() implies (
                            #[trigger] items.take(i + 1)[j]).1.probability(
                                items.take(i + 1)[j].0,
                            ) > 0 by {
                                if j < i {
                                    assert(items.take(i + 1)[j] == items.take(i as int)[j]);
                                }
                            }
                        }
                    }
                },
                Err(error) => {
                    proof {
                        if old(self).unbounded() {
                            assert(items[i as int].1.probability(items[i as int].0) == 0);
                        }
                    }
                    return Err(error);
                },
            }
            i += 1;
        }
        proof {
            assert(items.take(i as int) =~= items);
        }
        Ok(())
    }
}

impl<Word: BitArray, State: BitArray> RangeEncoder<Word, State, Vec<Word>> {
    /// An encoder that has encoded nothing.
    pub fn new() -> (encoder: Self)
        requires
            Self::valid_widths(),
        ensures
            encoder@ == range_initial(State::spec_bits()),
            encoder.wf(),
            encoder.unbounded(),
    {
        Self::with_backend(Vec::new())
    }

    /// Whether nothing has been encoded.
    pub fn is_empty(&self) -> (empty: bool)
        ensures
            empty <==> self@.range == pow2(State::spec_bits()) - 1 && self@.bulk.len() == 0,
    {
        proof {
            State::lemma_width();
            lemma_pow2_pos(State::spec_bits());
            assert(self@.bulk.len() == self.bulk@.len());
        }
        let max: u128 = pow2_u128(State::bits()) - 1;
        self.state.range.to_u64() as u128 == max && self.bulk.len() == 0
    }

    /// Discards all compressed data.
    pub fn clear(&mut self)
        ensures
            final(self)@ == range_initial(State::spec_bits()),
    {
        self.bulk.clear();
        self.state = CoderState::initial();
        self.situation = EncoderSituation::Normal;
        proof {
            assert(self@.bulk =~= Seq::empty());
        }
    }

    /// Takes away the words that [`RangeEncoder::seal`] appended.
    fn unseal(&mut self)
        requires
            old(self)@.bulk.len() >= sealed_extra(old(self)@, State::spec_bits()),
            old(self)@.range == pow2(State::spec_bits()) - 1 ==> old(self)@.bulk.len() == 0,
        ensures
            final(self)@ == (RangeModel {
                bulk: old(self)@.bulk.take(
                    old(self)@.bulk.len() - sealed_extra(old(self)@, State::spec_bits()),
                ),
                ..old(self)@
            }),
    {
        proof {
            assert(self@.bulk.len() == self.bulk@.len());
            assert(self@.bulk.take(self@.bulk.len() as int) =~= self@.bulk);
            State::lemma_width();
            lemma_pow2_pos(State::spec_bits());
        }
        if self.bulk.len() == 0 {
            return ;
        }
        let ghost all = self.bulk@;
        self.bulk.pop();
        proof {
            lemma_word_values_drop_last(all);
            assert(all.drop_last() =~= all.take(all.len() - 1));
        }
        match self.situation {
            EncoderSituation::Inverted(count, _) => {
                let mut i: usize = 0;
                while i < count
                    invariant
                        i <= count,
                        all.len() >= 1 + count,
                        self.bulk@ == all.take(all.len() - 1 - i),
                        self.state == old(self).state,
                        self.situation == old(self).situation,
                    decreases count - i,
                {
                    self.bulk.pop();
                    proof {
                        assert(all.take(all.len() - 1 - i).drop_last() =~= all.take(
                            all.len() - 2 - i,
                        ));
                    }
                    i += 1;
                }
            },
            EncoderSituation::Normal => {},
        }
        proof {
            let n = all.len() - sealed_extra(old(self)@, State::spec_bits());
            assert(word_values(all.take(n)) =~= word_values(all).take(n));
        }
    }

    /// The compressed words of what was encoded so far. The encoder is
    /// sealed for the copy and then put back as it was, so that one can
    /// go on encoding afterwards.
    pub fn get_compressed(&mut self) -> (compressed: Vec<Word>)
        requires
            Self::valid_widths(),
            old(self).wf(),
        ensures
            word_values(compressed@) == range_seal(
                old(self)@,
                Word::spec_bits(),
                State::spec_bits(),
            ),
            final(self)@ == old(self)@,
    {
        let ghost before = self@;
        match self.seal() {
            Ok(()) => {},
            Err(_) => {},
        }
        let compressed = copy_words(&self.bulk);
        self.unseal();
        proof {
            let sealed = range_seal(before, Word::spec_bits(), State::spec_bits());
            let extra = sealed_extra(before, State::spec_bits());
            assert(sealed.len() == before.bulk.len() + extra);
        }
        compressed
    }

    /// The words written so far and the highest word of the lower end of
    /// the interval.
    pub fn iter_compressed(&self) -> (words: Vec<Word>)
        requires
            Self::valid_widths(),
        ensures
            word_values(words@) == self@.bulk.push(
                self@.lower / pow2((State::spec_bits() - Word::spec_bits()) as nat),
            ),
    {
        proof {
            Word::lemma_width();
            State::lemma_width();
            self.state.lower.lemma_value_bound();
            lemma_pow2_split(State::spec_bits(), Word::spec_bits());
            lemma_shift_out(
                self@.lower,
                State::spec_bits(),
                (State::spec_bits() - Word::spec_bits()) as nat,
            );
        }
        let mut words = copy_words(&self.bulk);
        let last = Word::from_u64(div_pow2(self.state.lower.to_u64(), State::bits() - Word::bits()));
        let ghost earlier = words@;
        words.push(last);
        proof {
            lemma_word_values_push(earlier, last);
        }
        words
    }

    /// The number of words written so far and one more, or none where
    /// nothing was encoded. The words held back are not counted: only
    /// where none is held back is this the number of compressed words that
    /// sealing would hand back.
    pub fn num_words(&self) -> (n: usize)
        requires
            self@.bulk.len() < usize::MAX,
        ensures
            n == (if self@.range == pow2(State::spec_bits()) - 1 && self@.bulk.len() == 0 {
                0
            } else {
                self@.bulk.len() + 1
            }),
    {
        proof {
            assert(self@.bulk.len() == self.bulk@.len());
        }
        if self.is_empty() {
            0
        } else {
            self.bulk.len() + 1
        }
    }

    /// The number of bits of the compressed words; see
    /// [`RangeEncoder::num_words`].
    pub fn num_bits(&self) -> (n: usize)
        requires
            (self@.bulk.len() + 1) * Word::spec_bits() <= usize::MAX,
        ensures
            n == Word::spec_bits() * (if self@.range == pow2(State::spec_bits()) - 1
                && self@.bulk.len() == 0 {
                0nat
            } else {
                self@.bulk.len() + 1
            }),
    {
        proof {
            Word::lemma_width();
            let len = self@.bulk.len();
            let wb = Word::spec_bits();
            assert((len + 1) * wb >= len + 1) by (nonlinear_arith)
                requires
                    wb >= 1,
            ;
            assert(wb * (len + 1) == (len + 1) * wb) by (nonlinear_arith);
            assert(wb * 0 == 0) by (nonlinear_arith);
        }
        Word::bits() * self.num_words()
    }

    /// The number of words written or held back.
    pub fn pos(&self) -> (pos: usize)
        requires
            self@.bulk.len() + held_back(self@) <= usize::MAX,
        ensures
            pos == self@.bulk.len() + held_back(self@),
    {
        proof {
            assert(self@.bulk.len() == self.bulk@.len());
        }
        let held = match self.situation {
            EncoderSituation::Inverted(count, _) => count,
            EncoderSituation::Normal => 0,
        };
        self.bulk.len() + held
    }

    /// The position and the interval, from which a decoder can go on; see
    /// [`RangeDecoder::seek`].
    pub fn pos_and_state(&self) -> (pos_and_state: (usize, CoderState<Word, State>))
        requires
            self@.bulk.len() + held_back(self@) <= usize::MAX,
        ensures
            pos_and_state.0 == self@.bulk.len() + held_back(self@),
            pos_and_state.1.lower_spec() == self@.lower,
            pos_and_state.1.range_spec() == self@.range,
    {
        (self.pos(), self.state)
    }

    /// The decoder that reads what the encoder has encoded.
    pub fn into_decoder(self) -> (result: Result<RangeDecoder<Word, State, Cursor<Vec<Word>>>, ()>)
        requires
            Self::valid_widths(),
            self.wf(),
        ensures
            result is Ok,
            result->Ok_0.wf(),
            result->Ok_0.reads_known(),
            result->Ok_0@ == range_decoder_initial(
                range_seal(self@, Word::spec_bits(), State::spec_bits()),
                Word::spec_bits(),
                State::spec_bits(),
            ),
            word_values(result->Ok_0.backend().buffer()@) == range_seal(
                self@,
                Word::spec_bits(),
                State::spec_bits(),
            ),
    {
        let compressed = match self.into_compressed() {
            Ok(compressed) => compressed,
            Err(_) => {
                return Err(());
            },
        };
        match RangeDecoder::<Word, State, Cursor<Vec<Word>>>::from_compressed(compressed) {
            Ok(decoder) => Ok(decoder),
            Err(_) => Err(()),
        }
    }

    /// A decoder that reads a copy of what the encoder has encoded so far.
    /// The encoder can go on encoding afterwards.
    pub fn decoder(&mut self) -> (decoder: RangeDecoder<Word, State, Cursor<Vec<Word>>>)
        requires
            Self::valid_widths(),
            old(self).wf(),
        ensures
            final(self)@ == old(self)@,
            decoder.wf(),
            decoder.reads_known(),
            decoder@ == range_decoder_initial(
                range_seal(old(self)@, Word::spec_bits(), State::spec_bits()),
                Word::spec_bits(),
                State::spec_bits(),
            ),
            word_values(decoder.backend().buffer()@) == range_seal(
                old(self)@,
                Word::spec_bits(),
                State::spec_bits(),
            ),
    {
        let compressed = self.get_compressed();
        match RangeDecoder::<Word, State, Cursor<Vec<Word>>>::from_compressed(compressed) {
            Ok(decoder) => decoder,
            Err(_) => vstd::pervasive::unreached(),
        }
    }
}

/// The error of a range decoder.
#[derive(Debug, Clone, Copy, PartialEq, Eq)]
#[non_exhaustive]
pub enum FrontendError {
    /// The compressed data cannot have come from an encoder that used the
    /// same entropy models.
    InvalidData,
}

impl FrontendError {
    /// The error in words.
    pub fn message(&self) -> (text: String)
        ensures
            text@ == "Tried to decode invalid compressed data."@,
    {
        "Tried to decode invalid compressed data.".to_string()
    }
}

/// What a range decoder holds: the values of the words that it has yet to
/// read, its interval, and the state that the words read so far point at.
pub struct RangeDecoderModel {
    pub pending: Seq<nat>,
    pub lower: nat,
    pub range: nat,
    pub point: nat,
}

/// The number that the words `words` spell, the first word being the
/// highest.
pub open spec fn be_value(words: Seq<nat>, wb: nat) -> nat
    decreases words.len(),
{
    if words.len() == 0 {
        0
    } else {
        be_value(words.drop_last(), wb) * pow2(wb) + words.last()
    }
}

/// The number of words that a decoder reads when it starts: as many as
/// make a state, or all there are.
pub open spec fn point_words(pending: Seq<nat>, wb: nat, sb: nat) -> nat {
    if pending.len() < sb / wb {
        pending.len()
    } else {
        sb / wb
    }
}

/// The point of a decoder that starts to read `pending`: the first words,
/// as many as make a state, or if there are fewer, those followed by zero
/// bits.
pub open spec fn initial_point(pending: Seq<nat>, wb: nat, sb: nat) -> nat {
    let n = point_words(pending, wb, sb);
    be_value(pending.take(n as int), wb) * pow2((sb - n * wb) as nat)
}

/// The decoder that starts to read `pending`.
pub open spec fn range_decoder_initial(pending: Seq<nat>, wb: nat, sb: nat) -> RangeDecoderModel {
    RangeDecoderModel {
        pending: pending.skip(point_words(pending, wb, sb) as int),
        lower: 0,
        range: (pow2(sb) - 1) as nat,
        point: initial_point(pending, wb, sb),
    }
}

/// The quantile that the next decoded symbol is chosen by.
pub open spec fn range_quantile(st: RangeDecoderModel, sb: nat, prec: nat) -> nat {
    (((st.point + pow2(sb) - st.lower) as nat) % pow2(sb)) / (st.range / pow2(prec))
}

/// The decoder after a symbol with the left cumulative `c` and the
/// probability `p` was decoded.
pub open spec fn range_decode(st: RangeDecoderModel, c: nat, p: nat, wb: nat, sb: nat, prec: nat) -> RangeDecoderModel {
    let scale = st.range / pow2(prec);
    let lower = (st.lower + scale * c) % pow2(sb);
    let range = scale * p;
    let threshold = pow2((sb - wb) as nat);
    if range < threshold {
        RangeDecoderModel {
            pending: if st.pending.len() > 0 {
                st.pending.drop_first()
            } else {
                st.pending
            },
            lower: (lower % threshold) * pow2(wb),
            range: range * pow2(wb),
            point: (st.point % threshold) * pow2(wb) + (if st.pending.len() > 0 {
                st.pending[0]
            } else {
                0
            }),
        }
    } else {
        RangeDecoderModel { pending: st.pending, lower, range, point: st.point }
    }
}

/// The decoder after one symbol was decoded with each model of `models`,
/// the symbols in the order in which they came, and whether every quantile
/// was one of the precision; the decoder stops at the first that is not.
pub open spec fn range_decode_symbols<const PRECISION: usize, D: EntropyModel<PRECISION>>(
    st: RangeDecoderModel,
    models: Seq<D>,
    wb: nat,
    sb: nat,
) -> (RangeDecoderModel, Seq<D::Symbol>, bool)
    decreases models.len(),
{
    if models.len() == 0 {
        (st, Seq::empty(), true)
    } else {
        let quantile = range_quantile(st, sb, PRECISION as nat);
        if quantile >= pow2(PRECISION as nat) {
            (st, Seq::empty(), false)
        } else {
            let symbol = models[0].quantile_symbol(quantile);
            let next = range_decode(
                st,
                models[0].left_cumulative(symbol),
                models[0].probability(symbol),
                wb,
                sb,
                PRECISION as nat,
            );
            let rest = range_decode_symbols(next, models.drop_first(), wb, sb);
            (rest.0, seq![symbol] + rest.1, rest.2)
        }
    }
}

/// A range decoder over words of type `Word` with states of type `State`
/// that reads from a backend of type `Backend`.
#[derive(Debug, Clone)]
pub struct RangeDecoder<Word: BitArray, State: BitArray, Backend: ReadWords<Word, Queue>> {
    bulk: Backend,
    state: CoderState<Word, State>,
    point: State,
    /// The number of words that the decoder has asked of the backend when
    /// it had none, and has taken to be zero.
    past_end: usize,
}

/// The number after `n`, as far as it fits.
pub open spec fn saturating_succ(n: nat) -> nat {
    if n < usize::MAX {
        n + 1
    } else {
        n
    }
}

/// Whether the interval of a decoder is small after a symbol with the
/// probability `p` was decoded, so that a word is read.
pub open spec fn range_decode_reads(st: RangeDecoderModel, p: nat, wb: nat, sb: nat, prec: nat) -> bool {
    (st.range / pow2(prec)) * p < pow2((sb - wb) as nat)
}

impl<Word: BitArray, State: BitArray, Backend: ReadWords<Word, Queue>> View for RangeDecoder<
    Word,
    State,
    Backend,
> {
    type V = RangeDecoderModel;

    closed spec fn view(&self) -> RangeDecoderModel {
        RangeDecoderModel {
            pending: word_values(self.bulk.pending()),
            lower: self.state.lower_spec(),
            range: self.state.range_spec(),
            point: self.point.as_nat(),
        }
    }
}

impl<Word: BitArray, State: BitArray, Backend: ReadWords<Word, Queue>> RangeDecoder<
    Word,
    State,
    Backend,
> {
    /// A state is a whole number of words, and at least two.
    pub open spec fn valid_widths() -> bool {
        valid_range_widths(Word::spec_bits(), State::spec_bits())
    }

    /// The backend.
    pub closed spec fn backend(&self) -> Backend {
        self.bulk
    }

    /// Whether the backend knows the words that it will yield.
    pub open spec fn reads_known(&self) -> bool {
        self.backend().reads_known()
    }

    /// The number of words that the decoder has asked of the backend when
    /// it had none, and has taken to be zero.
    pub closed spec fn past_end_spec(&self) -> nat {
        self.past_end as nat
    }

    /// The interval is not small.
    pub open spec fn wf(&self) -> bool {
        self@.range >= pow2((State::spec_bits() - Word::spec_bits()) as nat)
    }

    /// The decoder is its backend, its interval and its point.
    pub proof fn lemma_view(&self)
        ensures
            self@.pending == word_values(self.backend().pending()),
            self@.lower < pow2(State::spec_bits()),
            self@.range < pow2(State::spec_bits()),
            self@.point < pow2(State::spec_bits()),
    {
        self.state.lower.lemma_value_bound();
        self.state.range.lemma_value_bound();
        self.point.lemma_value_bound();
    }

    /// Reads the words that make the point of a decoder that starts.
    fn read_point(bulk: &mut Backend) -> (result: Result<(State, usize), Backend::ReadError>)
        requires
            Self::valid_widths(),
        ensures
            final(bulk).kept_words() == old(bulk).kept_words(),
            result is Ok ==> result->Ok_0.1 <= State::spec_bits() / Word::spec_bits(),
            old(bulk).reads_known() ==> final(bulk).reads_known() && result is Ok
                && result->Ok_0.0.as_nat() == initial_point(
                word_values(old(bulk).pending()),
                Word::spec_bits(),
                State::spec_bits(),
            ) && result->Ok_0.1 == State::spec_bits() / Word::spec_bits() - point_words(
                word_values(old(bulk).pending()),
                Word::spec_bits(),
                State::spec_bits(),
            ) && final(bulk).pending() == old(bulk).pending().skip(
                point_words(
                    word_values(old(bulk).pending()),
                    Word::spec_bits(),
                    State::spec_bits(),
                ) as int,
            ),
    {
        let ghost wb = Word::spec_bits();
        let ghost sb = State::spec_bits();
        let ghost all = old(bulk).pending();
        let ghost values = word_values(all);
        proof {
            Word::lemma_width();
            State::lemma_width();
            lemma_div_mod_split(sb, wb);
            lemma_pow2_pos(0);
            assert(0 * wb == 0) by (nonlinear_arith);
            assert(all.skip(0) =~= all);
            assert(values.take(0) =~= Seq::<nat>::empty());
        }
        let count: usize = State::bits() / Word::bits();
        let mut num_read: usize = 0;
        let mut point: u64 = 0;
        let mut ended: bool = false;
        while num_read < count && !ended
            invariant
                wb == Word::spec_bits(),
                sb == State::spec_bits(),
                0 < wb <= 64,
                0 < sb <= 64,
                count == sb / wb,
                count * wb == sb,
                num_read <= count,
                point < pow2((num_read * wb) as nat),
                all == old(bulk).pending(),
                values == word_values(all),
                bulk.kept_words() == old(bulk).kept_words(),
                old(bulk).reads_known() ==> bulk.reads_known() && num_read <= all.len()
                    && bulk.pending() == all.skip(num_read as int) && point == be_value(
                    values.take(num_read as int),
                    wb,
                ) && (ended ==> num_read == all.len()),
            decreases count - num_read + (if ended { 0int } else { 1int }),
        {
            let ghost before = bulk.pending();
            match bulk.read() {
                Err(error) => {
                    return Err(error);
                },
                Ok(None) => {
                    ended = true;
                },
                Ok(Some(word)) => {
                    proof {
                        word.lemma_value_bound();
                        lemma_shift_in(point as nat, word.as_nat(), (num_read * wb) as nat, wb);
                        assert(num_read * wb + wb == (num_read + 1) * wb) by (nonlinear_arith);
                        assert((num_read + 1) * wb <= count * wb) by (nonlinear_arith)
                            requires
                                num_read + 1 <= count,
                        ;
                        lemma_pow2_le(((num_read + 1) * wb) as nat, 64);
                        vstd::arithmetic::power2::lemma2_to64_rest();
                        if old(bulk).reads_known() {
                            assert(all.skip(num_read as int).drop_first() =~= all.skip(
                                num_read + 1,
                            ));
                            assert(values.take(num_read + 1).drop_last() =~= values.take(
                                num_read as int,
                            ));
                            assert(values.take(num_read + 1).last() == word.as_nat());
                        }
                    }
                    point = mul_pow2_add(point, Word::bits(), word.to_u64());
                    num_read += 1;
                },
            }
        }
        proof {
            assert(num_read * wb <= count * wb) by (nonlinear_arith)
                requires
                    num_read <= count,
            ;
            lemma_pow2_pos((sb - num_read * wb) as nat);
            lemma_shift_in(point as nat, 0, (num_read * wb) as nat, (sb - num_read * wb) as nat);
            lemma_pow2_le(sb, 64);
            vstd::arithmetic::power2::lemma2_to64_rest();
        }
        let shift: usize = State::bits() - num_read * Word::bits();
        let point: u64 = mul_pow2_add(point, shift, 0);
        Ok((State::from_u64(point), count - num_read))
    }

    /// The decoder that reads from `backend`.
    pub fn with_backend(backend: Backend) -> (result: Result<Self, Backend::ReadError>)
        requires
            Self::valid_widths(),
        ensures
            result is Ok ==> result->Ok_0.wf(),
            result is Ok ==> result->Ok_0.backend().kept_words() == backend.kept_words(),
            backend.reads_known() ==> result is Ok && result->Ok_0.reads_known()
                && result->Ok_0@ == range_decoder_initial(
                word_values(backend.pending()),
                Word::spec_bits(),
                State::spec_bits(),
            ) && result->Ok_0.past_end_spec() == State::spec_bits() / Word::spec_bits()
                - point_words(
                word_values(backend.pending()),
                Word::spec_bits(),
                State::spec_bits(),
            ),
    {
        let mut bulk = backend;
        let (point, past_end) = match Self::read_point(&mut bulk) {
            Ok(read) => read,
            Err(error) => {
                return Err(error);
            },
        };
        proof {
            Word::lemma_width();
            lemma_initial_wf(Word::spec_bits(), State::spec_bits());
            assert(word_values(backend.pending().skip(
                point_words(
                    word_values(backend.pending()),
                    Word::spec_bits(),
                    State::spec_bits(),
                ) as int,
            )) =~= word_values(backend.pending()).skip(
                point_words(
                    word_values(backend.pending()),
                    Word::spec_bits(),
                    State::spec_bits(),
                ) as int,
            ));
        }
        Ok(RangeDecoder { bulk, state: CoderState::initial(), point, past_end })
    }

    /// The decoder that reads the compressed words `compressed`.
    pub fn from_compressed<Buf>(compressed: Buf) -> (result: Result<Self, Backend::ReadError>) where
        Buf: IntoReadWords<Word, Queue, IntoReadWords = Backend>,

        requires
            Self::valid_widths(),
        ensures
            result is Ok,
            result->Ok_0.wf(),
            result->Ok_0.reads_known(),
            result->Ok_0@ == range_decoder_initial(
                word_values(compressed.read_order()),
                Word::spec_bits(),
                State::spec_bits(),
            ),
            result->Ok_0.backend().kept_words() == compressed.source_words(),
            result->Ok_0.past_end_spec() == State::spec_bits() / Word::spec_bits() - point_words(
                word_values(compressed.read_order()),
                Word::spec_bits(),
                State::spec_bits(),
            ),
    {
        Self::with_backend(compressed.into_read_backend())
    }

    /// The decoder that reads the compressed words that `compressed` lends.
    pub fn for_compressed<'a, Buf>(compressed: &'a Buf) -> (result: Result<
        Self,
        Backend::ReadError,
    >) where Buf: AsReadWords<'a, Word, Queue, AsReadWords = Backend>
        requires
            Self::valid_widths(),
        ensures
            result is Ok,
            result->Ok_0.wf(),
            result->Ok_0.reads_known(),
            result->Ok_0@ == range_decoder_initial(
                word_values(compressed.lent_read_order()),
                Word::spec_bits(),
                State::spec_bits(),
            ),
            result->Ok_0.backend().kept_words() == compressed.lent_source_words(),
            result->Ok_0.past_end_spec() == State::spec_bits() / Word::spec_bits() - point_words(
                word_values(compressed.lent_read_order()),
                Word::spec_bits(),
                State::spec_bits(),
            ),
    {
        Self::with_backend(compressed.as_read_backend())
    }

    /// The backend and the interval.
    pub fn into_raw_parts(self) -> (parts: (Backend, CoderState<Word, State>))
        ensures
            parts.0 == self.backend(),
            parts.1.lower_spec() == self@.lower,
            parts.1.range_spec() == self@.range,
    {
        (self.bulk, self.state)
    }

    /// The interval.
    pub fn state(&self) -> (state: CoderState<Word, State>)
        ensures
            state.lower_spec() == self@.lower,
            state.range_spec() == self@.range,
    {
        self.state
    }

    /// Whether the decoder may have decoded all there is: the backend seems
    /// exhausted, and the upper end of the interval lies no more than one
    /// word's worth above the point or nothing was decoded yet. So it is
    /// never `false` when a backend that knows its words holds no more and
    /// the interval lies so.
    pub fn maybe_empty(&self) -> (empty: bool)
        requires
            Self::valid_widths(),
        ensures
            empty == (self.backend().seems_exhausted() && range_may_end(
                self@,
                Word::spec_bits(),
                State::spec_bits(),
            )),
            self.reads_known() && self@.pending.len() == 0 && range_may_end(
                self@,
                Word::spec_bits(),
                State::spec_bits(),
            ) ==> empty,
    {
        proof {
            Word::lemma_width();
            State::lemma_width();
            lemma_pow2_pos(State::spec_bits());
            lemma_pow2_le(State::spec_bits(), 64);
            vstd::arithmetic::power2::lemma2_to64_rest();
            self.lemma_view();
            assert(self@.pending.len() == self.bulk.pending().len());
        }
        let modulus: u128 = pow2_u128(State::bits());
        let range: u128 = self.state.range.to_u64() as u128;
        let lower: u128 = self.state.lower.to_u64() as u128;
        let point: u128 = self.point.to_u64() as u128;
        let gap: u128 = (lower + range + modulus - point) % modulus;
        let near: bool = range == modulus - 1 || gap <= pow2_u128(State::bits() - Word::bits());
        self.bulk.maybe_exhausted() && near
    }

    /// Decodes a symbol with `model`.
    ///
    /// Fails with [`FrontendError::InvalidData`], and stays as it was,
    /// when the point lies so far above the interval that the quantile is
    /// none of the precision. The interval of the decoder follows the
    /// model whatever the backend yields; the point follows the words of a
    /// backend that knows them.
    pub fn decode_symbol<const PRECISION: usize, D: DecoderModel<PRECISION>>(
        &mut self,
        model: &D,
    ) -> (result: Result<D::Symbol, CoderError<FrontendError, Backend::ReadError>>)
        requires
            Self::valid_widths(),
            valid_precision(PRECISION as nat, Word::spec_bits()),
            old(self).wf(),
        ensures
            final(self).wf(),
            final(self).backend().kept_words() == old(self).backend().kept_words(),
            range_quantile(old(self)@, State::spec_bits(), PRECISION as nat) >= pow2(
                PRECISION as nat,
            ) ==> result == Err::<D::Symbol, CoderError<FrontendError, Backend::ReadError>>(
                CoderError::FrontendError(FrontendError::InvalidData),
            ) && *final(self) == *old(self),
            range_quantile(old(self)@, State::spec_bits(), PRECISION as nat) < pow2(
                PRECISION as nat,
            ) ==> ({
                let quantile = range_quantile(old(self)@, State::spec_bits(), PRECISION as nat);
                let symbol = model.quantile_symbol(quantile);
                let next = range_decode(
                    old(self)@,
                    model.left_cumulative(symbol),
                    model.probability(symbol),
                    Word::spec_bits(),
                    State::spec_bits(),
                    PRECISION as nat,
                );
                &&& final(self)@.lower == next.lower
                &&& final(self)@.range == next.range
                &&& !(result is Err && result->Err_0 is FrontendError)
                &&& result is Ok ==> result->Ok_0 == symbol
                &&& old(self).reads_known() ==> result is Ok && final(self).reads_known()
                    && final(self)@ == next && final(self).past_end_spec() == (
                if range_decode_reads(
                    old(self)@,
                    model.probability(symbol),
                    Word::spec_bits(),
                    State::spec_bits(),
                    PRECISION as nat,
                ) && old(self)@.pending.len() == 0 {
                    saturating_succ(old(self).past_end_spec())
                } else {
                    old(self).past_end_spec()
                })
            }),
    {
        let ghost wb = Word::spec_bits();
        let ghost sb = State::spec_bits();
        let ghost prec = PRECISION as nat;
        let ghost st = self@;
        proof {
            Word::lemma_width();
            State::lemma_width();
            self.lemma_view();
            lemma_pow2_pos(sb);
            lemma_pow2_pos(prec);
            lemma_pow2_split(sb, wb);
            lemma_pow2_split(sb, prec);
            lemma_pow2_split((sb - wb) as nat, prec);
            lemma_pow2_split(wb, prec);
            lemma_pow2_le(prec, (sb - wb) as nat);
            lemma_pow2_le(sb, 64);
            lemma_pow2_le(prec, 64);
            vstd::arithmetic::power2::lemma2_to64_rest();
            lemma_div_below(st.range, pow2(prec), 1);
            lemma_div_mod_split(st.range, pow2(prec));
        }
        let modulus: u128 = pow2_u128(State::bits());
        let lower: u64 = self.state.lower.to_u64();
        let range: u64 = self.state.range.to_u64();
        let point: u64 = self.point.to_u64();
        let scale: u64 = div_pow2(range, PRECISION);
        let offset: u64 = ((point as u128 + modulus - lower as u128) % modulus) as u64;
        let quantile: u64 = offset / scale;
        if !below_pow2(quantile, PRECISION) {
            return Err(CoderError::FrontendError(FrontendError::InvalidData));
        }
        let (symbol, left_cumulative, probability) = model.quantile_function(quantile);
        proof {
            model.lemma_quantile_symbol(quantile as nat);
            model.lemma_interval(symbol);
            lemma_narrow_within(st.range, left_cumulative as nat, probability as nat, prec);
            assert(0 <= scale * left_cumulative) by (nonlinear_arith)
                requires
                    0 <= scale,
                    0 <= left_cumulative,
            ;
            assert(0 <= scale * probability) by (nonlinear_arith)
                requires
                    0 <= scale,
                    0 <= probability,
            ;
        }
        let mut range: u64 = scale * probability;
        let shift: u64 = scale * left_cumulative;
        let mut lower: u64 = ((lower as u128 + shift as u128) % modulus) as u64;
        if below_pow2(range, State::bits() - Word::bits()) {
            proof {
                let t = pow2((sb - wb) as nat);
                let w = pow2(wb);
                let low = pow2((sb - wb - prec) as nat);
                lemma_shift_out(lower as nat, sb, (sb - wb) as nat);
                lemma_shift_out(point as nat, sb, (sb - wb) as nat);
                let x = (lower as nat) % t;
                let y = (point as nat) % t;
                assert(range * w <= (t - 1) * w) by (nonlinear_arith)
                    requires
                        range <= t - 1,
                        w > 0,
                ;
                assert(x * w <= (t - 1) * w) by (nonlinear_arith)
                    requires
                        x <= t - 1,
                        w > 0,
                ;
                assert(y * w <= (t - 1) * w) by (nonlinear_arith)
                    requires
                        y <= t - 1,
                        w > 0,
                ;
                assert((t - 1) * w == t * w - w) by (nonlinear_arith);
                assert(0 <= x * w && 0 <= y * w && 0 <= range * w) by (nonlinear_arith)
                    requires
                        0 <= x,
                        0 <= y,
                        0 <= range,
                        0 <= w,
                ;
                lemma_div_below(st.range, pow2(prec), low);
                assert(range * w >= low * w) by (nonlinear_arith)
                    requires
                        range >= low,
                ;
                assert(low * w >= t) by (nonlinear_arith)
                    requires
                        t == low * pow2(prec),
                        w >= pow2(prec),
                        low >= 0,
                ;
            }
            range = mul_pow2_add(range, Word::bits(), 0);
            lower = mul_pow2_add(mod_pow2(lower, State::bits() - Word::bits()), Word::bits(), 0);
            let shifted: u64 = mul_pow2_add(
                mod_pow2(point, State::bits() - Word::bits()),
                Word::bits(),
                0,
            );
            self.state = CoderState::from_parts(lower, range);
            self.point = State::from_u64(shifted);
            match self.bulk.read() {
                Err(error) => {
                    return Err(CoderError::BackendError(error));
                },
                Ok(None) => {
                    if self.past_end < usize::MAX {
                        self.past_end += 1;
                    }
                },
                Ok(Some(word)) => {
                    proof {
                        word.lemma_value_bound();
                        let y = (point as nat) % pow2((sb - wb) as nat);
                        lemma_shift_in(y, word.as_nat(), (sb - wb) as nat, wb);
                        if old(self).reads_known() {
                            let before = old(self).bulk.pending();
                            assert(word_values(before.drop_first()) =~= word_values(
                                before,
                            ).drop_first());
                        }
                    }
                    self.point = State::from_u64(shifted + word.to_u64());
                },
            }
        } else {
            self.state = CoderState::from_parts(lower, range);
        }
        Ok(symbol)
    }

    /// Decodes one symbol with each model of `models`, in their order, and
    /// stops at the first failure.
    pub fn decode_symbols<const PRECISION: usize, D: DecoderModel<PRECISION>>(
        &mut self,
        models: &[D],
    ) -> (result: Result<Vec<D::Symbol>, CoderError<FrontendError, Backend::ReadError>>)
        requires
            Self::valid_widths(),
            valid_precision(PRECISION as nat, Word::spec_bits()),
            old(self).wf(),
        ensures
            final(self).wf(),
            final(self).backend().kept_words() == old(self).backend().kept_words(),
            old(self).reads_known() ==> ({
                let decoded = range_decode_symbols::<PRECISION, D>(
                    old(self)@,
                    models@,
                    Word::spec_bits(),
                    State::spec_bits(),
                );
                &&& final(self).reads_known()
                &&& final(self)@ == decoded.0
                &&& result is Ok <==> decoded.2
                &&& result is Ok ==> result->Ok_0@ == decoded.1
                &&& result is Err ==> result == Err::<
                    Vec<D::Symbol>,
                    CoderError<FrontendError, Backend::ReadError>,
                >(CoderError::FrontendError(FrontendError::InvalidData))
            }),
    {
        let mut symbols: Vec<D::Symbol> = Vec::new();
        let mut i: usize = 0;
        proof {
            assert(models@.skip(0) =~= models@);
        }
        while i < models.len()
            invariant
                Self::valid_widths(),
                valid_precision(PRECISION as nat, Word::spec_bits()),
                self.wf(),
                self.backend().kept_words() == old(self).backend().kept_words(),
                i <= models@.len(),
                old(self).reads_known() ==> self.reads_known() && range_decode_symbols::<
                    PRECISION,
                    D,
                >(old(self)@, models@, Word::spec_bits(), State::spec_bits()) == ({
                    let rest = range_decode_symbols::<PRECISION, D>(
                        self@,
                        models@.skip(i as int),
                        Word::spec_bits(),
                        State::spec_bits(),
                    );
                    (rest.0, symbols@ + rest.1, rest.2)
                }),
            decreases models@.len() - i,
        {
            let ghost earlier = symbols@;
            proof {
                assert(models@.skip(i as int).drop_first() =~= models@.skip(i + 1));
                assert(models@.skip(i as int)[0] == models@[i as int]);
            }
            match self.decode_symbol::<PRECISION, D>(&models[i]) {
                Ok(symbol) => {
                    symbols.push(symbol);
                    proof {
                        let rest = range_decode_symbols::<PRECISION, D>(
                            self@,
                            models@.skip(i + 1),
                            Word::spec_bits(),
                            State::spec_bits(),
                        );
                        assert(earlier + (seq![symbol] + rest.1) =~= earlier.push(symbol)
                            + rest.1);
                    }
                },
                Err(error) => {
                    proof {
                        assert(earlier + Seq::<D::Symbol>::empty() =~= earlier);
                    }
                    return Err(error);
                },
            }
            i += 1;
        }
        proof {
            assert(models@.skip(i as int) =~= Seq::empty());
            assert(symbols@ + Seq::<D::Symbol>::empty() =~= symbols@);
        }
        Ok(symbols)
    }

    /// Decodes `amt` symbols, all with the one model `model`, and stops at
    /// the first failure.
    pub fn decode_iid_symbols<const PRECISION: usize, D: DecoderModel<PRECISION>>(
        &mut self,
        amt: usize,
        model: &D,
    ) -> (result: Result<Vec<D::Symbol>, CoderError<FrontendError, Backend::ReadError>>)
        requires
            Self::valid_widths(),
            valid_precision(PRECISION as nat, Word::spec_bits()),
            old(self).wf(),
        ensures
            final(self).wf(),
            final(self).backend().kept_words() == old(self).backend().kept_words(),
            old(self).reads_known() ==> ({
                let decoded = range_decode_symbols::<PRECISION, D>(
                    old(self)@,
                    iid_models(amt as nat, *model),
                    Word::spec_bits(),
                    State::spec_bits(),
                );
                &&& final(self).reads_known()
                &&& final(self)@ == decoded.0
                &&& result is Ok <==> decoded.2
                &&& result is Ok ==> result->Ok_0@ == decoded.1
                &&& result is Err ==> result == Err::<
                    Vec<D::Symbol>,
                    CoderError<FrontendError, Backend::ReadError>,
                >(CoderError::FrontendError(FrontendError::InvalidData))
            }),
    {
        let ghost models = iid_models(amt as nat, *model);
        let mut symbols: Vec<D::Symbol> = Vec::new();
        let mut i: usize = 0;
        proof {
            assert(models.skip(0) =~= models);
        }
        while i < amt
            invariant
                Self::valid_widths(),
                valid_precision(PRECISION as nat, Word::spec_bits()),
                self.wf(),
                self.backend().kept_words() == old(self).backend().kept_words(),
                i <= amt,
                models == iid_models(amt as nat, *model),
                old(self).reads_known() ==> self.reads_known() && range_decode_symbols::<
                    PRECISION,
                    D,
                >(old(self)@, models, Word::spec_bits(), State::spec_bits()) == ({
                    let rest = range_decode_symbols::<PRECISION, D>(
                        self@,
                        models.skip(i as int),
                        Word::spec_bits(),
                        State::spec_bits(),
                    );
                    (rest.0, symbols@ + rest.1, rest.2)
                }),
            decreases amt - i,
        {
            let ghost earlier = symbols@;
            proof {
                assert(models.skip(i as int).drop_first() =~= models.skip(i + 1));
                assert(models.skip(i as int)[0] == *model);
            }
            match self.decode_symbol::<PRECISION, D>(model) {
                Ok(symbol) => {
                    symbols.push(symbol);
                    proof {
                        let rest = range_decode_symbols::<PRECISION, D>(
                            self@,
                            models.skip(i + 1),
                            Word::spec_bits(),
                            State::spec_bits(),
                        );
                        assert(earlier + (seq![symbol] + rest.1) =~= earlier.push(symbol)
                            + rest.1);
                    }
                },
                Err(error) => {
                    proof {
                        assert(earlier + Seq::<D::Symbol>::empty() =~= earlier);
                    }
                    return Err(error);
                },
            }
            i += 1;
        }
        proof {
            assert(models.skip(i as int) =~= Seq::empty());
            assert(symbols@ + Seq::<D::Symbol>::empty() =~= symbols@);
        }
        Ok(symbols)
    }

    /// The position of the encoder that had encoded what the decoder has
    /// decoded: the number of words that the decoder has asked of the
    /// backend, whether or not the backend had them, less the words of one
    /// state.
    pub fn pos(&self) -> (pos: usize) where Backend: PosBackend<Word>
        requires
            Self::valid_widths(),
        ensures
            pos == decoder_position(
                self.backend().position(),
                self.past_end_spec(),
                State::spec_bits() / Word::spec_bits(),
            ),
    {
        proof {
            Word::lemma_width();
            State::lemma_width();
        }
        self.bulk.pos().saturating_add(self.past_end).saturating_sub(State::bits() / Word::bits())
    }

    /// The position and the interval; see [`RangeDecoder::seek`].
    pub fn pos_and_state(&self) -> (pos_and_state: (usize, CoderState<Word, State>)) where
        Backend: PosBackend<Word>,

        requires
            Self::valid_widths(),
        ensures
            pos_and_state.0 == decoder_position(
                self.backend().position(),
                self.past_end_spec(),
                State::spec_bits() / Word::spec_bits(),
            ),
            pos_and_state.1.lower_spec() == self@.lower,
            pos_and_state.1.range_spec() == self@.range,
    {
        (self.pos(), self.state)
    }

    /// Jumps to the position and the interval that an encoder or a decoder
    /// reported: the backend jumps to the position, the point is read anew
    /// from there, and the interval is installed. Fails, and leaves the
    /// decoder as it was, when the backend has no such position. Where a
    /// jump of a cursor leads says [`Cursor::lemma_jump`]; that the symbols
    /// encoded from the position on are decoded after the jump says
    /// `lemma_range_jump`.
    pub fn seek(&mut self, pos_and_state: (usize, CoderState<Word, State>)) -> (result: Result<
        (),
        (),
    >) where Backend: SeekBackend<Word>
        requires
            Self::valid_widths(),
            pos_and_state.1.wf(),
        ensures
            old(self).backend().sought(pos_and_state.0 as nat) is None ==> result is Err
                && *final(self) == *old(self),
            old(self).backend().sought(pos_and_state.0 as nat) is Some ==> ({
                let target = old(self).backend().sought(pos_and_state.0 as nat)->Some_0;
                &&& result is Ok ==> final(self).wf()
                &&& result is Ok ==> final(self).backend().kept_words() == target.kept_words()
                &&& target.reads_known() ==> result is Ok && final(self).reads_known()
                    && final(self)@ == (RangeDecoderModel {
                    lower: pos_and_state.1.lower_spec(),
                    range: pos_and_state.1.range_spec(),
                    ..range_decoder_initial(
                        word_values(target.pending()),
                        Word::spec_bits(),
                        State::spec_bits(),
                    )
                }) && final(self).past_end_spec() == State::spec_bits() / Word::spec_bits()
                    - point_words(
                    word_values(target.pending()),
                    Word::spec_bits(),
                    State::spec_bits(),
                )
            }),
    {
        let (pos, state) = pos_and_state;
        match self.bulk.seek(pos) {
            Err(()) => {
                return Err(());
            },
            Ok(()) => {},
        }
        let ghost target = self.bulk;
        match Self::read_point(&mut self.bulk) {
            Err(_) => {
                return Err(());
            },
            Ok((point, past_end)) => {
                self.point = point;
                self.past_end = past_end;
            },
        }
        self.state = state;
        proof {
            let n = point_words(
                word_values(target.pending()),
                Word::spec_bits(),
                State::spec_bits(),
            ) as int;
            assert(word_values(target.pending().skip(n)) =~= word_values(target.pending()).skip(
                n,
            ));
        }
        Ok(())
    }
}

/// The position that a decoder reports whose backend stands at
/// `backend_position`, that has asked for `past_end` words which the
/// backend did not have, and whose states have `count` words.
pub open spec fn decoder_position(backend_position: nat, past_end: nat, count: nat) -> nat {
    let asked = if backend_position + past_end > usize::MAX {
        usize::MAX as nat
    } else {
        backend_position + past_end
    };
    if asked >= count {
        (asked - count) as nat
    } else {
        0
    }
}

/// Whether a decoder with nothing more to read may have decoded all there
/// is: nothing was decoded yet, or the upper end of the interval lies no
/// more than one word's worth above the point.
pub open spec fn range_may_end(st: RangeDecoderModel, wb: nat, sb: nat) -> bool {
    st.range == pow2(sb) - 1 || ((st.lower + st.range + pow2(sb) - st.point) as nat) % pow2(sb)
        <= pow2((sb - wb) as nat)
}

/// The interval of a coder that starts is not small.
pub proof fn lemma_initial_wf(wb: nat, sb: nat)
    requires
        0 < wb <= sb,
    ensures
        pow2(sb) - 1 >= pow2((sb - wb) as nat),
{
    lemma_pow2_split(sb, wb);
    lemma_pow2_le(1, wb);
    vstd::arithmetic::power2::lemma2_to64();
    let t = pow2((sb - wb) as nat);
    let w = pow2(wb);
    assert(t * w >= t * 2) by (nonlinear_arith)
        requires
            w >= 2,
            t >= 1,
    ;
}

} // verus!
