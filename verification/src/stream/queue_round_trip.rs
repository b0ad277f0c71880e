//! The range decoder gives back what the range encoder was given.
//!
//! The proof follows the coder in exact arithmetic. The words that an
//! encoder has written or holds back, followed by its lower end, spell a
//! number: the exact lower end of its interval. Encoding a symbol adds to
//! that number what the model says, and shifting a word out multiplies it
//! by the size of a word, so that the intervals of an encoder lie within
//! one another. Sealing picks a number of the last interval, which
//! therefore is a number of every interval before; and the decoder, which
//! keeps the distance from the lower end to that number, finds in every
//! step the symbol whose part of the interval holds the number.

use vstd::arithmetic::power2::{lemma_pow2_adds, lemma_pow2_pos, pow2};
use vstd::prelude::*;

use crate::arith::{
    lemma_div_below,
    lemma_div_mod_split,
    lemma_mul_add_div_mod,
    lemma_pow2_le,
    lemma_pow2_split,
    lemma_shift_out,
};
use crate::stream::models::EntropyModel;
use crate::stream::queue::{
    be_value,
    held_back,
    initial_point,
    lemma_narrow_within,
    point_words,
    range_decode,
    range_decode_symbols,
    range_decoder_initial,
    range_encode,
    range_encode_all,
    range_initial,
    range_may_end,
    range_narrow,
    range_quantile,
    range_renormalize,
    range_seal,
    range_wf,
    sealed_extra,
    resolved_words,
    valid_range_widths,
    RangeDecoderModel,
    RangeModel,
    Situation,
};
use crate::stream::stack::{all_possible, models_of, symbols_of, valid_precision};

verus! {

/// The words that an encoder holds back, as they are if no carry reaches
/// them.
pub open spec fn held_words(st: RangeModel, wb: nat) -> Seq<nat> {
    match st.situation {
        Situation::Normal => Seq::empty(),
        Situation::Inverted { count, first_word } => resolved_words(count, first_word, false, wb),
    }
}

/// The words that an encoder has written or holds back.
pub open spec fn logical_words(st: RangeModel, wb: nat) -> Seq<nat> {
    st.bulk + held_words(st, wb)
}

/// The exact lower end of the interval of an encoder: the number that its
/// words, followed by its lower end, spell.
pub open spec fn exact_lower(st: RangeModel, wb: nat, sb: nat) -> nat {
    be_value(logical_words(st, wb), wb) * pow2(sb) + st.lower
}

/// The first `len` words of `words` followed by zero words.
pub open spec fn padded(words: Seq<nat>, len: nat) -> Seq<nat> {
    Seq::new(len, |i: int| if i < words.len() { words[i] } else { 0nat })
}

/// The number that the first `len` words of `words` followed by zero words
/// spell.
pub open spec fn padded_value(words: Seq<nat>, len: nat, wb: nat) -> nat {
    be_value(padded(words, len), wb)
}

/// The word in the place `i` of `words`, or zero behind their end.
pub open spec fn word_or_zero(words: Seq<nat>, i: nat) -> nat {
    if i < words.len() {
        words[i as int]
    } else {
        0
    }
}

/// An interval that was narrowed and has not been renormalized yet: it may
/// be small, but not by more than one word.
pub open spec fn narrowed_wf(st: RangeModel, wb: nat, sb: nat, prec: nat) -> bool {
    &&& st.lower < pow2(sb)
    &&& pow2((sb - wb - prec) as nat) <= st.range < pow2(sb) - 1
    &&& match st.situation {
        Situation::Normal => st.lower + st.range < pow2(sb),
        Situation::Inverted { count, first_word } => count >= 1 && first_word + 1 < pow2(wb)
            && st.lower + st.range >= pow2(sb),
    }
}

/// The number that words with one more word spell.
pub proof fn lemma_be_value_push(words: Seq<nat>, word: nat, wb: nat)
    ensures
        be_value(words.push(word), wb) == be_value(words, wb) * pow2(wb) + word,
        be_value(words + seq![word], wb) == be_value(words, wb) * pow2(wb) + word,
{
    assert(words.push(word).drop_last() =~= words);
    assert(words + seq![word] =~= words.push(word));
}

/// A carry into the words held back: the words with the carry spell one
/// more than the words without.
pub proof fn lemma_resolved_carry(front: Seq<nat>, count: nat, first_word: nat, wb: nat)
    requires
        count >= 1,
    ensures
        be_value(front + resolved_words(count, first_word, true, wb), wb) == be_value(
            front + resolved_words(count, first_word, false, wb),
            wb,
        ) + 1,
    decreases count,
{
    let with = resolved_words(count, first_word, true, wb);
    let without = resolved_words(count, first_word, false, wb);
    lemma_pow2_pos(wb);
    if count == 1 {
        assert(with =~= seq![first_word + 1]);
        assert(without =~= seq![first_word]);
        lemma_be_value_push(front, first_word + 1, wb);
        lemma_be_value_push(front, first_word, wb);
    } else {
        let with_before = resolved_words((count - 1) as nat, first_word, true, wb);
        let without_before = resolved_words((count - 1) as nat, first_word, false, wb);
        lemma_resolved_carry(front, (count - 1) as nat, first_word, wb);
        assert(front + with =~= (front + with_before).push(0));
        assert(front + without =~= (front + without_before).push((pow2(wb) - 1) as nat));
        lemma_be_value_push(front + with_before, 0, wb);
        lemma_be_value_push(front + without_before, (pow2(wb) - 1) as nat, wb);
        let x = be_value(front + without_before, wb);
        let b = pow2(wb);
        assert((x + 1) * b == x * b + b) by (nonlinear_arith);
    }
}

/// One more word held back: the words held back without a carry, with one
/// more word of ones.
pub proof fn lemma_held_one_more(count: nat, first_word: nat, wb: nat)
    requires
        count >= 1,
    ensures
        resolved_words(count + 1, first_word, false, wb) == resolved_words(
            count,
            first_word,
            false,
            wb,
        ).push((pow2(wb) - 1) as nat),
        resolved_words(count, first_word, false, wb).len() == count,
        resolved_words(count, first_word, true, wb).len() == count,
{
    assert(resolved_words(count + 1, first_word, false, wb) =~= resolved_words(
        count,
        first_word,
        false,
        wb,
    ).push((pow2(wb) - 1) as nat));
}

/// Narrowing adds to the exact lower end what the model says, and writes
/// or holds back no word.
pub proof fn lemma_narrow_exact(st: RangeModel, c: nat, p: nat, wb: nat, sb: nat, prec: nat)
    requires
        valid_range_widths(wb, sb),
        valid_precision(prec, wb),
        range_wf(st, wb, sb),
        p > 0,
        c + p <= pow2(prec),
    ensures
        narrowed_wf(range_narrow(st, c, p, sb, wb, prec), wb, sb, prec),
        range_narrow(st, c, p, sb, wb, prec).range == (st.range / pow2(prec)) * p,
        exact_lower(range_narrow(st, c, p, sb, wb, prec), wb, sb) == exact_lower(st, wb, sb) + (
        st.range / pow2(prec)) * c,
        logical_words(range_narrow(st, c, p, sb, wb, prec), wb).len() == logical_words(
            st,
            wb,
        ).len(),
{
    let big = pow2(sb);
    let m = pow2(prec);
    let scale = st.range / m;
    let n = range_narrow(st, c, p, sb, wb, prec);
    lemma_pow2_pos(prec);
    lemma_pow2_pos(sb);
    lemma_pow2_split(sb, prec);
    lemma_pow2_split(sb, wb);
    lemma_pow2_split((sb - wb) as nat, prec);
    lemma_pow2_le(prec, (sb - wb) as nat);
    lemma_pow2_le(1, prec);
    vstd::arithmetic::power2::lemma2_to64();
    lemma_narrow_within(st.range, c, p, prec);
    lemma_div_below(st.range, m, pow2((sb - prec) as nat));
    lemma_div_below(st.range, m, pow2((sb - wb - prec) as nat));
    assert(scale * p <= (pow2((sb - prec) as nat) - 1) * m) by (nonlinear_arith)
        requires
            scale <= pow2((sb - prec) as nat) - 1,
            p <= m,
            0 <= scale,
    ;
    assert((pow2((sb - prec) as nat) - 1) * m == pow2((sb - prec) as nat) * m - m)
        by (nonlinear_arith);
    assert(0 <= scale * c) by (nonlinear_arith)
        requires
            0 <= scale,
            0 <= c,
    ;
    let sum = st.lower + scale * c;
    if sum >= big {
        vstd::arithmetic::div_mod::lemma_mod_sub_multiples_vanish(sum as int, big as int);
        vstd::arithmetic::div_mod::lemma_small_mod((sum - big) as nat, big);
    } else {
        vstd::arithmetic::div_mod::lemma_small_mod(sum, big);
    }
    match st.situation {
        Situation::Normal => {
            assert(logical_words(n, wb) =~= logical_words(st, wb));
        },
        Situation::Inverted { count, first_word } => {
            lemma_held_one_more(count, first_word, wb);
            if n.lower + n.range < big {
                if n.lower < st.lower {
                    lemma_resolved_carry(st.bulk, count, first_word, wb);
                    assert(logical_words(n, wb) =~= st.bulk + resolved_words(
                        count,
                        first_word,
                        true,
                        wb,
                    ));
                    let x = be_value(logical_words(st, wb), wb);
                    assert((x + 1) * big == x * big + big) by (nonlinear_arith);
                } else {
                    assert(logical_words(n, wb) =~= logical_words(st, wb));
                }
            } else {
                assert(logical_words(n, wb) =~= logical_words(st, wb));
            }
        },
    }
}

/// Shifting a word out multiplies the exact lower end by the size of a
/// word, and writes or holds back one word.
pub proof fn lemma_renormalize_exact(st: RangeModel, wb: nat, sb: nat, prec: nat)
    requires
        valid_range_widths(wb, sb),
        valid_precision(prec, wb),
        narrowed_wf(st, wb, sb, prec),
    ensures
        range_wf(range_renormalize(st, wb, sb), wb, sb),
        range_renormalize(st, wb, sb).range != pow2(sb) - 1,
        st.range >= pow2((sb - wb) as nat) ==> range_renormalize(st, wb, sb) == st,
        st.range < pow2((sb - wb) as nat) ==> exact_lower(range_renormalize(st, wb, sb), wb, sb)
            == exact_lower(st, wb, sb) * pow2(wb) && logical_words(
            range_renormalize(st, wb, sb),
            wb,
        ).len() == logical_words(st, wb).len() + 1 && range_renormalize(st, wb, sb).range
            == st.range * pow2(wb) && range_renormalize(st, wb, sb).lower == (st.lower % pow2(
            (sb - wb) as nat,
        )) * pow2(wb),
{
    let big = pow2(sb);
    let t = pow2((sb - wb) as nat);
    let w = pow2(wb);
    let low = pow2((sb - wb - prec) as nat);
    let r = range_renormalize(st, wb, sb);
    lemma_pow2_pos(wb);
    lemma_pow2_pos(sb);
    lemma_pow2_split(sb, wb);
    lemma_pow2_split((sb - wb) as nat, prec);
    lemma_pow2_split(wb, prec);
    lemma_pow2_le(1, wb);
    vstd::arithmetic::power2::lemma2_to64();
    if st.range < t {
        lemma_shift_out(st.lower, sb, (sb - wb) as nat);
        let word = st.lower / t;
        let x = st.lower % t;
        let range = st.range;
        assert(range * w <= (t - 1) * w) by (nonlinear_arith)
            requires
                range <= t - 1,
                w > 0,
        ;
        assert(x * w <= (t - 1) * w) by (nonlinear_arith)
            requires
                x <= t - 1,
                w > 0,
        ;
        assert((t - 1) * w == t * w - w) by (nonlinear_arith);
        assert(0 <= x * w && 0 <= range * w) by (nonlinear_arith)
            requires
                0 <= x,
                0 <= range,
                0 <= w,
        ;
        assert(range * w >= low * w) by (nonlinear_arith)
            requires
                range >= low,
        ;
        assert(low * w >= t) by (nonlinear_arith)
            requires
                t == low * pow2(prec),
                w >= pow2(prec),
                low >= 0,
        ;
        assert((x + range) * w == x * w + range * w) by (nonlinear_arith);
        assert(w * t == t * w) by (nonlinear_arith);
        if x + range >= t {
            assert((x + range) * w >= t * w) by (nonlinear_arith)
                requires
                    x + range >= t,
                    w > 0,
            ;
        } else {
            assert((x + range) * w < t * w) by (nonlinear_arith)
                requires
                    x + range < t,
                    w > 0,
            ;
        }
        assert(st.lower == word * t + x);
        if st.lower + range < big && x + range >= t {
            assert((word + 1) * t <= word * t + x + range) by (nonlinear_arith)
                requires
                    x + range >= t,
            ;
            assert(word + 1 < w) by (nonlinear_arith)
                requires
                    (word + 1) * t < w * t,
                    t > 0,
            ;
        }
        let before = be_value(logical_words(st, wb), wb);
        // the shifted lower end, in exact arithmetic
        assert(st.lower * w == word * big + x * w) by (nonlinear_arith)
            requires
                st.lower == word * t + x,
                big == t * w,
        ;
        assert((before * big + st.lower) * w == (before * w + word) * big + x * w)
            by (nonlinear_arith)
            requires
                st.lower * w == word * big + x * w,
        ;
        match st.situation {
            Situation::Inverted { count, first_word } => {
                // the interval lies across the top: the word is all ones
                assert(word * t + x + range >= w * t);
                assert(word < w);
                assert(word * t <= (w - 1) * t) by (nonlinear_arith)
                    requires
                        word <= w - 1,
                        t >= 0,
                ;
                assert((w - 1) * t == w * t - t) by (nonlinear_arith);
                if word < w - 1 {
                    assert(word * t <= (w - 2) * t) by (nonlinear_arith)
                        requires
                            word <= w - 2,
                            t >= 0,
                    ;
                    assert((w - 2) * t == w * t - 2 * t) by (nonlinear_arith);
                }
                assert(word == w - 1);
                lemma_held_one_more(count, first_word, wb);
                assert(logical_words(r, wb) =~= logical_words(st, wb).push(word));
                lemma_be_value_push(logical_words(st, wb), word, wb);
            },
            Situation::Normal => {
                lemma_held_one_more(1, word, wb);
                assert(resolved_words(1, word, false, wb) =~= seq![word]);
                assert(logical_words(st, wb) =~= st.bulk);
                assert(logical_words(r, wb) =~= logical_words(st, wb).push(word));
                lemma_be_value_push(logical_words(st, wb), word, wb);
            },
        }
    }
}

/// Whether all words of `words` are words of `wb` bits.
pub open spec fn words_bounded(words: Seq<nat>, wb: nat) -> bool {
    forall|i: int| 0 <= i < words.len() ==> #[trigger] words[i] < pow2(wb)
}

/// The invariant of an encoder whose words are words; see [`range_wf`].
pub open spec fn range_normal(st: RangeModel, wb: nat, sb: nat) -> bool {
    range_wf(st, wb, sb) && words_bounded(st.bulk, wb)
}

/// The number that the first `len + 1` words spell, by the number that the
/// first `len` words spell.
pub proof fn lemma_padded_step(words: Seq<nat>, len: nat, wb: nat)
    ensures
        padded_value(words, len + 1, wb) == padded_value(words, len, wb) * pow2(wb) + word_or_zero(
            words,
            len,
        ),
{
    assert(padded(words, len + 1).drop_last() =~= padded(words, len));
}

/// The number that all words and `more` zero words spell.
pub proof fn lemma_padded_beyond(words: Seq<nat>, more: nat, wb: nat)
    ensures
        padded_value(words, words.len() + more, wb) == be_value(words, wb) * pow2(wb * more),
    decreases more,
{
    let v = be_value(words, wb);
    if more == 0 {
        assert(padded(words, words.len()) =~= words);
        assert(wb * 0 == 0) by (nonlinear_arith);
        lemma_pow2_pos(0);
        vstd::arithmetic::power2::lemma2_to64();
        assert(pow2(0) == 1);
        assert(v * 1 == v) by (nonlinear_arith);
        assert(padded_value(words, words.len(), wb) == v);
    } else {
        let before = (more - 1) as nat;
        lemma_padded_beyond(words, before, wb);
        lemma_padded_step(words, words.len() + before, wb);
        assert(word_or_zero(words, words.len() + before) == 0);
        lemma_pow2_adds(wb * before, wb);
        assert(wb * before + wb == wb * more) by (nonlinear_arith)
            requires
                before + 1 == more,
        ;
        let a = pow2(wb * before);
        let b = pow2(wb);
        assert(pow2(wb * more) == a * b);
        assert(padded_value(words, words.len() + before, wb) == v * a);
        assert(padded_value(words, words.len() + before + 1, wb) == (v * a) * b + 0);
        assert((v * a) * b == v * (a * b)) by (nonlinear_arith);
    }
}

/// The point of a decoder that starts is the number that the words of one
/// state spell.
pub proof fn lemma_initial_point(words: Seq<nat>, wb: nat, sb: nat)
    requires
        valid_range_widths(wb, sb),
        wb > 0,
    ensures
        initial_point(words, wb, sb) == padded_value(words, sb / wb, wb),
{
    let k = sb / wb;
    lemma_div_mod_split(sb, wb);
    assert(k * wb == sb);
    let n = point_words(words, wb, sb);
    if words.len() < k {
        assert(words.take(n as int) =~= words);
        lemma_padded_beyond(words, (k - n) as nat, wb);
        assert(wb * (k - n) as nat == sb - n * wb) by (nonlinear_arith)
            requires
                k * wb == sb,
                n <= k,
        ;
    } else {
        assert(padded(words, k) =~= words.take(k as int));
        assert(sb - n * wb == 0);
        lemma_pow2_pos(0);
        vstd::arithmetic::power2::lemma2_to64();
        let v = be_value(words.take(n as int), wb);
        assert(v * 1 == v) by (nonlinear_arith);
    }
}

/// The quotient by `t` of a number with a multiple of `t * w` added.
pub proof fn lemma_div_with_multiple(q: nat, x: nat, t: nat, w: nat)
    requires
        t > 0,
    ensures
        (q * (t * w) + x) / t == q * w + x / t,
{
    lemma_div_mod_split(x, t);
    assert(q * (t * w) + x == (q * w + x / t) * t + x % t) by (nonlinear_arith)
        requires
            x == (x / t) * t + x % t,
    ;
    lemma_mul_add_div_mod(q * w + x / t, t, x % t);
}

/// The compressed words of an encoder that has encoded something spell
/// the highest words of the last number of its interval, and there is one
/// word more of them than the encoder has written or holds back.
pub proof fn lemma_seal_exact(st: RangeModel, wb: nat, sb: nat)
    requires
        valid_range_widths(wb, sb),
        wb > 0,
        range_normal(st, wb, sb),
        st.range != pow2(sb) - 1,
    ensures
        range_seal(st, wb, sb).len() == logical_words(st, wb).len() + 1,
        be_value(range_seal(st, wb, sb), wb) == (exact_lower(st, wb, sb) + st.range - 1) / (pow2(
            (sb - wb) as nat,
        ) as int),
        words_bounded(range_seal(st, wb, sb), wb),
{
    let big = pow2(sb);
    let t = pow2((sb - wb) as nat);
    let w = pow2(wb);
    lemma_pow2_pos(sb);
    lemma_pow2_pos(wb);
    lemma_pow2_pos((sb - wb) as nat);
    lemma_pow2_split(sb, wb);
    let sealed = range_seal(st, wb, sb);
    let sum = (st.lower + st.range - 1) as nat;
    let point = sum % big;
    if sum >= big {
        vstd::arithmetic::div_mod::lemma_mod_sub_multiples_vanish(sum as int, big as int);
        vstd::arithmetic::div_mod::lemma_small_mod((sum - big) as nat, big);
    } else {
        vstd::arithmetic::div_mod::lemma_small_mod(sum, big);
    }
    lemma_shift_out(point, sb, (sb - wb) as nat);
    let held = match st.situation {
        Situation::Normal => Seq::<nat>::empty(),
        Situation::Inverted { count, first_word } => resolved_words(
            count,
            first_word,
            point < st.lower,
            wb,
        ),
    };
    let front = st.bulk + held;
    assert(sealed =~= front.push(point / t));
    lemma_be_value_push(front, point / t, wb);
    let q = be_value(front, wb);
    let x = be_value(logical_words(st, wb), wb);
    match st.situation {
        Situation::Normal => {
            assert(front =~= logical_words(st, wb));
        },
        Situation::Inverted { count, first_word } => {
            lemma_held_one_more(count, first_word, wb);
            if point < st.lower {
                lemma_resolved_carry(st.bulk, count, first_word, wb);
                assert((x + 1) * big == x * big + big) by (nonlinear_arith);
            } else {
                assert(front =~= logical_words(st, wb));
            }
        },
    }
    assert(exact_lower(st, wb, sb) + st.range - 1 == q * big + point);
    assert(big == t * w);
    lemma_div_with_multiple(q, point, t, w);
    assert forall|i: int| 0 <= i < sealed.len() implies #[trigger] sealed[i] < pow2(wb) by {
        if i < st.bulk.len() {
            assert(sealed[i] == st.bulk[i]);
        } else if i < front.len() {
            assert(sealed[i] == held[i - st.bulk.len()]);
            lemma_pow2_le(1, wb);
            vstd::arithmetic::power2::lemma2_to64();
        }
    }
}

/// The words of one state make as many bits as one state has.
pub proof fn lemma_words_per_state(wb: nat, sb: nat)
    requires
        valid_range_widths(wb, sb),
        wb > 0,
    ensures
        (sb / wb) * wb == sb,
        sb / wb >= 2,
        wb * ((sb / wb - 1) as nat) == sb - wb,
{
    lemma_div_mod_split(sb, wb);
    let k = sb / wb;
    if k < 2 {
        assert(k * wb <= 1 * wb) by (nonlinear_arith)
            requires
                k <= 1,
        ;
    }
    assert(wb * ((k - 1) as nat) == k * wb - wb) by (nonlinear_arith)
        requires
            k >= 1,
    ;
}

/// The number that the compressed words of an encoder spell, read with the
/// words of one state behind what the encoder has written or holds back,
/// is a number of the interval of the encoder.
pub proof fn lemma_sealed_within(st: RangeModel, wb: nat, sb: nat)
    requires
        valid_range_widths(wb, sb),
        wb > 0,
        range_normal(st, wb, sb),
    ensures
        exact_lower(st, wb, sb) <= padded_value(
            range_seal(st, wb, sb),
            logical_words(st, wb).len() + sb / wb,
            wb,
        ) < exact_lower(st, wb, sb) + st.range,
        st.range != pow2(sb) - 1 ==> exact_lower(st, wb, sb) + st.range - padded_value(
            range_seal(st, wb, sb),
            logical_words(st, wb).len() + sb / wb,
            wb,
        ) <= pow2((sb - wb) as nat),
        words_bounded(range_seal(st, wb, sb), wb),
        range_seal(st, wb, sb).len() <= logical_words(st, wb).len() + sb / wb,
{
    let t = pow2((sb - wb) as nat);
    let sealed = range_seal(st, wb, sb);
    let k = sb / wb;
    lemma_words_per_state(wb, sb);
    lemma_pow2_pos((sb - wb) as nat);
    lemma_pow2_pos(sb);
    lemma_pow2_le(1, sb);
    vstd::arithmetic::power2::lemma2_to64();
    if st.range == pow2(sb) - 1 {
        assert(sealed =~= Seq::<nat>::empty());
        assert(logical_words(st, wb) =~= Seq::<nat>::empty());
        lemma_padded_beyond(sealed, k, wb);
        assert(be_value(sealed, wb) == 0);
        assert(0 * pow2(wb * k) == 0) by (nonlinear_arith);
        assert(0 * pow2(sb) == 0) by (nonlinear_arith);
    } else {
        lemma_seal_exact(st, wb, sb);
        let last = (exact_lower(st, wb, sb) + st.range - 1) as nat;
        lemma_padded_beyond(sealed, (k - 1) as nat, wb);
        lemma_div_mod_split(last, t);
    }
}

/// Encoding a symbol in exact arithmetic: the interval is narrowed to the
/// part of the symbol and, if it has become small, multiplied by the size
/// of a word.
pub proof fn lemma_encode_exact(st: RangeModel, c: nat, p: nat, wb: nat, sb: nat, prec: nat)
    requires
        valid_range_widths(wb, sb),
        valid_precision(prec, wb),
        range_normal(st, wb, sb),
        p > 0,
        c + p <= pow2(prec),
    ensures
        ({
            let scale = st.range / pow2(prec);
            let next = range_encode(st, c, p, wb, sb, prec);
            let narrowed = (st.lower + scale * c) % pow2(sb);
            &&& range_normal(next, wb, sb)
            &&& next.range != pow2(sb) - 1
            &&& scale * c + scale * p <= st.range
            &&& scale * p >= pow2((sb - wb) as nat) ==> next.range == scale * p && next.lower
                == narrowed && exact_lower(next, wb, sb) == exact_lower(st, wb, sb) + scale * c
                && logical_words(next, wb).len() == logical_words(st, wb).len()
            &&& scale * p < pow2((sb - wb) as nat) ==> next.range == scale * p * pow2(wb)
                && next.lower == (narrowed % pow2((sb - wb) as nat)) * pow2(wb) && exact_lower(
                next,
                wb,
                sb,
            ) == (exact_lower(st, wb, sb) + scale * c) * pow2(wb) && logical_words(
                next,
                wb,
            ).len() == logical_words(st, wb).len() + 1
        }),
{
    let n = range_narrow(st, c, p, sb, wb, prec);
    let next = range_renormalize(n, wb, sb);
    lemma_narrow_exact(st, c, p, wb, sb, prec);
    lemma_renormalize_exact(n, wb, sb, prec);
    lemma_pow2_pos(prec);
    lemma_pow2_split(sb, wb);
    lemma_pow2_split((sb - wb) as nat, prec);
    lemma_pow2_le(prec, (sb - wb) as nat);
    lemma_narrow_within(st.range, c, p, prec);
    lemma_pow2_le(1, wb);
    vstd::arithmetic::power2::lemma2_to64();
    // the words stay words
    assert forall|i: int| 0 <= i < n.bulk.len() implies #[trigger] n.bulk[i] < pow2(wb) by {
        if i < st.bulk.len() {
            assert(n.bulk[i] == st.bulk[i]);
        }
    }
    lemma_shift_out(n.lower, sb, (sb - wb) as nat);
    assert forall|i: int| 0 <= i < next.bulk.len() implies #[trigger] next.bulk[i] < pow2(wb) by {
        if i < n.bulk.len() {
            assert(next.bulk[i] == n.bulk[i]);
        }
    }
}

/// A number that lies in an interval after a word was shifted in lay in
/// the interval before.
pub proof fn lemma_unshift_bounds(low: nat, high: nat, value: nat, word: nat, w: nat)
    requires
        word < w,
        low * w <= value * w + word < high * w,
    ensures
        low <= value < high,
{
    if value < low {
        assert(value * w + word < low * w) by (nonlinear_arith)
            requires
                value + 1 <= low,
                word < w,
        ;
    }
    if value >= high {
        assert(value * w >= high * w) by (nonlinear_arith)
            requires
                value >= high,
                w > 0,
        ;
    }
}

/// If the number that compressed words spell lies in the interval of an
/// encoder after a symbol was encoded, then it lay in the part of that
/// symbol of the interval before.
pub proof fn lemma_step_back(
    st: RangeModel,
    c: nat,
    p: nat,
    words: Seq<nat>,
    wb: nat,
    sb: nat,
    prec: nat,
)
    requires
        valid_range_widths(wb, sb),
        valid_precision(prec, wb),
        range_normal(st, wb, sb),
        p > 0,
        c + p <= pow2(prec),
        words_bounded(words, wb),
        ({
            let next = range_encode(st, c, p, wb, sb, prec);
            exact_lower(next, wb, sb) <= padded_value(
                words,
                logical_words(next, wb).len() + sb / wb,
                wb,
            ) < exact_lower(next, wb, sb) + next.range
        }),
    ensures
        ({
            let scale = st.range / pow2(prec);
            let value = padded_value(words, logical_words(st, wb).len() + sb / wb, wb);
            exact_lower(st, wb, sb) + scale * c <= value < exact_lower(st, wb, sb) + scale * c
                + scale * p
        }),
{
    let scale = st.range / pow2(prec);
    let next = range_encode(st, c, p, wb, sb, prec);
    let len = logical_words(st, wb).len() + sb / wb;
    lemma_encode_exact(st, c, p, wb, sb, prec);
    lemma_pow2_pos(wb);
    if scale * p < pow2((sb - wb) as nat) {
        lemma_padded_step(words, len, wb);
        let w = pow2(wb);
        let x = exact_lower(st, wb, sb) + scale * c;
        assert((x + scale * p) * w == x * w + scale * p * w) by (nonlinear_arith);
        lemma_unshift_bounds(
            x,
            x + scale * p,
            padded_value(words, len, wb),
            word_or_zero(words, len),
            w,
        );
    }
}

/// The encoder after the symbols of `items` were encoded in their order,
/// the first one first.
pub open spec fn range_encode_front<const PRECISION: usize, D: EntropyModel<PRECISION>>(
    st: RangeModel,
    items: Seq<(D::Symbol, D)>,
    wb: nat,
    sb: nat,
) -> RangeModel
    decreases items.len(),
{
    if items.len() == 0 {
        st
    } else {
        range_encode_front(
            range_encode(
                st,
                items[0].1.left_cumulative(items[0].0),
                items[0].1.probability(items[0].0),
                wb,
                sb,
                PRECISION as nat,
            ),
            items.drop_first(),
            wb,
            sb,
        )
    }
}

/// Encoding symbol by symbol is the same from the front and from the back.
pub proof fn lemma_encode_front<const PRECISION: usize, D: EntropyModel<PRECISION>>(
    st: RangeModel,
    items: Seq<(D::Symbol, D)>,
    wb: nat,
    sb: nat,
)
    ensures
        range_encode_front::<PRECISION, D>(st, items, wb, sb) == range_encode_all::<PRECISION, D>(
            st,
            items,
            wb,
            sb,
        ),
    decreases items.len(),
{
    if items.len() == 0 {
    } else {
        let first = range_encode(
            st,
            items[0].1.left_cumulative(items[0].0),
            items[0].1.probability(items[0].0),
            wb,
            sb,
            PRECISION as nat,
        );
        let rest = items.drop_first();
        let front = items.drop_last();
        assert(range_encode_front::<PRECISION, D>(st, items, wb, sb) == range_encode_front::<
            PRECISION,
            D,
        >(first, rest, wb, sb));
        if items.len() == 1 {
            assert(rest.len() == 0);
            assert(front.len() == 0);
            assert(range_encode_front::<PRECISION, D>(first, rest, wb, sb) == first);
            assert(range_encode_all::<PRECISION, D>(st, front, wb, sb) == st);
            assert(items.last() == items[0]);
        } else {
            let middle = rest.drop_last();
            assert(middle =~= front.drop_first());
            assert(front[0] == items[0]);
            assert(rest.last() == items.last());
            lemma_encode_front::<PRECISION, D>(first, rest, wb, sb);
            lemma_encode_front::<PRECISION, D>(st, front, wb, sb);
            lemma_encode_front::<PRECISION, D>(first, middle, wb, sb);
            assert(range_encode_front::<PRECISION, D>(st, front, wb, sb) == range_encode_front::<
                PRECISION,
                D,
            >(first, front.drop_first(), wb, sb));
            assert(range_encode_all::<PRECISION, D>(st, front, wb, sb) == range_encode_all::<
                PRECISION,
                D,
            >(first, middle, wb, sb));
        }
    }
}

/// The intervals of an encoder lie within one another: the number that the
/// compressed words spell after all symbols of `items` were encoded is a
/// number of the interval before.
pub proof fn lemma_nested<const PRECISION: usize, D: EntropyModel<PRECISION>>(
    st: RangeModel,
    items: Seq<(D::Symbol, D)>,
    wb: nat,
    sb: nat,
)
    requires
        valid_range_widths(wb, sb),
        valid_precision(PRECISION as nat, wb),
        range_normal(st, wb, sb),
        all_possible::<PRECISION, D>(items),
    ensures
        ({
            let sealed = range_seal(
                range_encode_front::<PRECISION, D>(st, items, wb, sb),
                wb,
                sb,
            );
            &&& words_bounded(sealed, wb)
            &&& range_normal(range_encode_front::<PRECISION, D>(st, items, wb, sb), wb, sb)
            &&& exact_lower(st, wb, sb) <= padded_value(
                sealed,
                logical_words(st, wb).len() + sb / wb,
                wb,
            ) < exact_lower(st, wb, sb) + st.range
        }),
    decreases items.len(),
{
    if items.len() == 0 {
        lemma_sealed_within(st, wb, sb);
    } else {
        let c = items[0].1.left_cumulative(items[0].0);
        let p = items[0].1.probability(items[0].0);
        items[0].1.lemma_interval(items[0].0);
        let next = range_encode(st, c, p, wb, sb, PRECISION as nat);
        lemma_encode_exact(st, c, p, wb, sb, PRECISION as nat);
        assert forall|i: int| 0 <= i < items.drop_first().len() implies (
        #[trigger] items.drop_first()[i]).1.probability(items.drop_first()[i].0) > 0 by {
            assert(items.drop_first()[i] == items[i + 1]);
        }
        lemma_nested::<PRECISION, D>(next, items.drop_first(), wb, sb);
        let sealed = range_seal(range_encode_front::<PRECISION, D>(st, items, wb, sb), wb, sb);
        lemma_step_back(st, c, p, sealed, wb, sb, PRECISION as nat);
        let scale = st.range / pow2(PRECISION as nat);
        assert(0 <= scale * c) by (nonlinear_arith)
            requires
                0 <= scale,
                0 <= c,
        ;
    }
}

/// Whether a decoder has followed an encoder: it has the interval of the
/// encoder, it has read the words that the encoder has written or holds
/// back and the words of one state more, and its point lies as far above
/// its lower end as the number that all words it has read spell lies above
/// the exact lower end of the encoder, which is within the interval.
pub open spec fn in_step(st: RangeModel, dt: RangeDecoderModel, words: Seq<nat>, wb: nat, sb: nat) -> bool {
    let len = logical_words(st, wb).len() + sb / wb;
    let value = padded_value(words, len, wb);
    let x = exact_lower(st, wb, sb);
    &&& dt.lower == st.lower
    &&& dt.range == st.range
    &&& dt.pending == words.skip(
        if len <= words.len() {
            len as int
        } else {
            words.len() as int
        },
    )
    &&& x <= value < x + st.range
    &&& dt.point == ((st.lower + value - x) as nat) % pow2(sb)
}

/// The remainder of a sum that is below twice the modulus.
pub proof fn lemma_mod_once(x: nat, m: nat)
    requires
        m > 0,
        x < 2 * m,
    ensures
        x % m == (if x >= m {
            (x - m) as nat
        } else {
            x
        }),
{
    if x >= m {
        vstd::arithmetic::div_mod::lemma_mod_sub_multiples_vanish(x as int, m as int);
        vstd::arithmetic::div_mod::lemma_small_mod((x - m) as nat, m);
    } else {
        vstd::arithmetic::div_mod::lemma_small_mod(x, m);
    }
}

/// Shifting a word out of a state: the low words times the size of a word
/// are the remainder of the state times the size of a word.
pub proof fn lemma_shift_is_mod(x: nat, t: nat, w: nat)
    requires
        t > 0,
        w > 0,
    ensures
        (x % t) * w == (x * w) % (t * w),
        (x % t) * w <= t * w - w,
{
    lemma_div_mod_split(x, t);
    let q = x / t;
    let r = x % t;
    assert(r * w <= (t - 1) * w) by (nonlinear_arith)
        requires
            r <= t - 1,
            w > 0,
    ;
    assert((t - 1) * w == t * w - w) by (nonlinear_arith);
    assert(0 <= r * w) by (nonlinear_arith)
        requires
            0 <= r,
            0 <= w,
    ;
    assert(0 < t * w) by (nonlinear_arith)
        requires
            0 < t,
            0 < w,
    ;
    assert(x * w == q * (t * w) + r * w) by (nonlinear_arith)
        requires
            x == q * t + r,
    ;
    lemma_mul_add_div_mod(q, t * w, r * w);
}

/// The decoder follows the encoder by one symbol: if the number that the
/// compressed words spell lies in the interval of the encoder after the
/// symbol with the interval `[c, c + p)` was encoded, then the quantile of
/// the decoder lies in `[c, c + p)`, and after decoding with that interval
/// the decoder has followed the encoder.
pub proof fn lemma_decode_step(
    st: RangeModel,
    dt: RangeDecoderModel,
    c: nat,
    p: nat,
    words: Seq<nat>,
    wb: nat,
    sb: nat,
    prec: nat,
)
    requires
        valid_range_widths(wb, sb),
        valid_precision(prec, wb),
        range_normal(st, wb, sb),
        p > 0,
        c + p <= pow2(prec),
        words_bounded(words, wb),
        in_step(st, dt, words, wb, sb),
        ({
            let next = range_encode(st, c, p, wb, sb, prec);
            exact_lower(next, wb, sb) <= padded_value(
                words,
                logical_words(next, wb).len() + sb / wb,
                wb,
            ) < exact_lower(next, wb, sb) + next.range
        }),
    ensures
        c <= range_quantile(dt, sb, prec) < c + p,
        in_step(
            range_encode(st, c, p, wb, sb, prec),
            range_decode(dt, c, p, wb, sb, prec),
            words,
            wb,
            sb,
        ),
{
    let big = pow2(sb);
    let t = pow2((sb - wb) as nat);
    let w = pow2(wb);
    let m = pow2(prec);
    let scale = st.range / m;
    let next = range_encode(st, c, p, wb, sb, prec);
    let after = range_decode(dt, c, p, wb, sb, prec);
    let len = logical_words(st, wb).len() + sb / wb;
    let value = padded_value(words, len, wb);
    let x = exact_lower(st, wb, sb);
    let offset = (value - x) as nat;
    lemma_pow2_pos(sb);
    lemma_pow2_pos(wb);
    lemma_pow2_pos((sb - wb) as nat);
    lemma_pow2_pos(prec);
    lemma_pow2_split(sb, wb);
    lemma_pow2_split((sb - wb) as nat, prec);
    lemma_pow2_le(prec, (sb - wb) as nat);
    lemma_encode_exact(st, c, p, wb, sb, prec);
    lemma_step_back(st, c, p, words, wb, sb, prec);
    lemma_narrow_within(st.range, c, p, prec);
    assert(0 <= scale * c && 0 < scale * p) by (nonlinear_arith)
        requires
            1 <= scale,
            0 <= c,
            0 < p,
    ;
    // the quantile
    lemma_mod_once(st.lower + offset, big);
    let point = dt.point;
    lemma_mod_once((point + big - st.lower) as nat, big);
    assert(((point + big - st.lower) as nat) % big == offset);
    assert((c + p) * scale == scale * c + scale * p) by (nonlinear_arith);
    assert(c * scale == scale * c) by (nonlinear_arith);
    lemma_div_below(offset, scale, c + p);
    lemma_div_below(offset, scale, c);
    // the narrowed lower end
    let narrowed = (st.lower + scale * c) % big;
    lemma_mod_once(st.lower + scale * c, big);
    let rest = (offset - scale * c) as nat;
    lemma_mod_once(narrowed + rest, big);
    assert(point == (narrowed + rest) % big);
    if scale * p < t {
        lemma_padded_step(words, len, wb);
        let word = word_or_zero(words, len);
        assert(word < w);
        let u = narrowed + rest;
        lemma_shift_is_mod(point, t, w);
        lemma_shift_is_mod(narrowed, t, w);
        lemma_shift_is_mod(u, t, w);
        // the point of the decoder after the shift
        vstd::arithmetic::div_mod::lemma_mul_mod_noop_left(u as int, w as int, big as int);
        assert((point * w) % big == (u * w) % big);
        let shifted = (u * w) % big;
        assert(after.point == shifted + word);
        // the target
        let target = next.lower + (rest * w + word);
        assert(next.lower == (narrowed * w) % big);
        assert(u * w == narrowed * w + rest * w) by (nonlinear_arith)
            requires
                u == narrowed + rest,
        ;
        assert(0 <= rest * w && 0 <= narrowed * w) by (nonlinear_arith)
            requires
                0 <= rest,
                0 <= narrowed,
                0 <= w,
        ;
        vstd::arithmetic::div_mod::lemma_add_mod_noop(
            (narrowed * w) as int,
            (rest * w + word) as int,
            big as int,
        );
        vstd::arithmetic::div_mod::lemma_add_mod_noop((u * w) as int, word as int, big as int);
        vstd::arithmetic::div_mod::lemma_small_mod(word, big);
        vstd::arithmetic::div_mod::lemma_small_mod(shifted + word, big);
        vstd::arithmetic::div_mod::lemma_mod_twice((narrowed * w) as int, big as int);
        assert(rest * w + word < big) by (nonlinear_arith)
            requires
                rest < t,
                word < w,
                big == t * w,
        ;
        vstd::arithmetic::div_mod::lemma_small_mod(rest * w + word, big);
        assert(target % big == shifted + word);
        // what the exact numbers say
        let next_value = padded_value(words, len + 1, wb);
        let next_x = exact_lower(next, wb, sb);
        assert(next_value == value * w + word);
        assert(next_x == (x + scale * c) * w);
        assert(next_value - next_x == rest * w + word) by (nonlinear_arith)
            requires
                next_value == value * w + word,
                next_x == (x + scale * c) * w,
                rest == value - x - scale * c,
        ;
        if len < words.len() {
            assert(dt.pending.len() > 0);
            assert(dt.pending[0] == words[len as int]);
            assert(dt.pending.drop_first() =~= words.skip(len as int + 1));
        } else {
            assert(dt.pending.len() == 0);
        }
    } else {
        assert(exact_lower(next, wb, sb) == x + scale * c);
    }
}

/// The decoder follows the encoder through all symbols: a decoder that has
/// followed an encoder decodes, from the compressed words of the encoder
/// after the symbols of `items` were encoded, these symbols, and has then
/// followed the encoder to its end.
pub proof fn lemma_decode_follows<const PRECISION: usize, D: EntropyModel<PRECISION>>(
    st: RangeModel,
    dt: RangeDecoderModel,
    items: Seq<(D::Symbol, D)>,
    wb: nat,
    sb: nat,
)
    requires
        valid_range_widths(wb, sb),
        valid_precision(PRECISION as nat, wb),
        range_normal(st, wb, sb),
        all_possible::<PRECISION, D>(items),
        in_step(
            st,
            dt,
            range_seal(range_encode_front::<PRECISION, D>(st, items, wb, sb), wb, sb),
            wb,
            sb,
        ),
    ensures
        ({
            let last = range_encode_front::<PRECISION, D>(st, items, wb, sb);
            let decoded = range_decode_symbols::<PRECISION, D>(dt, models_of(items), wb, sb);
            &&& decoded.2
            &&& decoded.1 == symbols_of(items)
            &&& in_step(last, decoded.0, range_seal(last, wb, sb), wb, sb)
        }),
    decreases items.len(),
{
    let last = range_encode_front::<PRECISION, D>(st, items, wb, sb);
    let sealed = range_seal(last, wb, sb);
    if items.len() == 0 {
        assert(symbols_of(items) =~= Seq::empty());
        assert(models_of(items) =~= Seq::empty());
    } else {
        let symbol = items[0].0;
        let model = items[0].1;
        let c = model.left_cumulative(symbol);
        let p = model.probability(symbol);
        model.lemma_interval(symbol);
        let next = range_encode(st, c, p, wb, sb, PRECISION as nat);
        let rest = items.drop_first();
        assert forall|i: int| 0 <= i < rest.len() implies (#[trigger] rest[i]).1.probability(
            rest[i].0,
        ) > 0 by {
            assert(rest[i] == items[i + 1]);
        }
        lemma_encode_exact(st, c, p, wb, sb, PRECISION as nat);
        lemma_nested::<PRECISION, D>(next, rest, wb, sb);
        lemma_decode_step(st, dt, c, p, sealed, wb, sb, PRECISION as nat);
        let quantile = range_quantile(dt, sb, PRECISION as nat);
        model.lemma_symbol_of_quantile(symbol, quantile);
        let after = range_decode(dt, c, p, wb, sb, PRECISION as nat);
        lemma_decode_follows::<PRECISION, D>(next, after, rest, wb, sb);
        assert(models_of(items)[0] == model);
        assert(models_of(items).drop_first() =~= models_of(rest));
        assert(seq![symbol] + symbols_of(rest) =~= symbols_of(items));
    }
}

/// The range decoder gives back what the range encoder was given: from the
/// compressed words of an encoder that has encoded the symbols of `items`,
/// each with its model, a decoder decodes with the same models these
/// symbols in their order, without a failure. Afterwards it has read all
/// words, and it may have decoded all there is.
pub proof fn lemma_range_round_trip<const PRECISION: usize, D: EntropyModel<PRECISION>>(
    items: Seq<(D::Symbol, D)>,
    wb: nat,
    sb: nat,
)
    requires
        valid_range_widths(wb, sb),
        valid_precision(PRECISION as nat, wb),
        all_possible::<PRECISION, D>(items),
    ensures
        ({
            let encoded = range_encode_all::<PRECISION, D>(range_initial(sb), items, wb, sb);
            let compressed = range_seal(encoded, wb, sb);
            let decoded = range_decode_symbols::<PRECISION, D>(
                range_decoder_initial(compressed, wb, sb),
                models_of(items),
                wb,
                sb,
            );
            &&& decoded.2
            &&& decoded.1 == symbols_of(items)
            &&& decoded.0.pending.len() == 0
            &&& range_may_end(decoded.0, wb, sb)
        }),
{
    let big = pow2(sb);
    let t = pow2((sb - wb) as nat);
    let start = range_initial(sb);
    let encoded = range_encode_all::<PRECISION, D>(start, items, wb, sb);
    let compressed = range_seal(encoded, wb, sb);
    let reader = range_decoder_initial(compressed, wb, sb);
    lemma_encode_front::<PRECISION, D>(start, items, wb, sb);
    lemma_pow2_pos(sb);
    lemma_pow2_pos((sb - wb) as nat);
    lemma_pow2_split(sb, wb);
    lemma_pow2_le(1, wb);
    vstd::arithmetic::power2::lemma2_to64();
    assert(t * pow2(wb) >= t * 2) by (nonlinear_arith)
        requires
            pow2(wb) >= 2,
            t >= 1,
    ;
    assert(range_normal(start, wb, sb));
    lemma_nested::<PRECISION, D>(start, items, wb, sb);
    lemma_initial_point(compressed, wb, sb);
    lemma_words_per_state(wb, sb);
    assert(logical_words(start, wb) =~= Seq::<nat>::empty());
    assert(be_value(logical_words(start, wb), wb) == 0);
    assert(0 * big == 0) by (nonlinear_arith);
    let value = padded_value(compressed, sb / wb, wb);
    vstd::arithmetic::div_mod::lemma_small_mod(value, big);
    assert(in_step(start, reader, compressed, wb, sb));
    lemma_decode_follows::<PRECISION, D>(start, reader, items, wb, sb);
    let decoded = range_decode_symbols::<PRECISION, D>(reader, models_of(items), wb, sb);
    lemma_sealed_within(encoded, wb, sb);
    // it may have decoded all there is
    if encoded.range != big - 1 {
        let len = logical_words(encoded, wb).len() + sb / wb;
        let last_value = padded_value(compressed, len, wb);
        let x = exact_lower(encoded, wb, sb);
        let offset = (last_value - x) as nat;
        lemma_mod_once(encoded.lower + offset, big);
        let gap = (encoded.range - offset) as nat;
        let sum = (encoded.lower + encoded.range + big - decoded.0.point) as nat;
        vstd::arithmetic::div_mod::lemma_small_mod(gap, big);
        if encoded.lower + offset >= big {
            assert(sum == big * 2 + gap);
            vstd::arithmetic::div_mod::lemma_mod_multiples_vanish(2, gap as int, big as int);
        } else {
            assert(sum == big * 1 + gap);
            vstd::arithmetic::div_mod::lemma_mod_multiples_vanish(1, gap as int, big as int);
        }
    }
}

/// The number that `len` words spell is below two to the number of their
/// bits.
pub proof fn lemma_padded_bound(words: Seq<nat>, len: nat, wb: nat)
    requires
        words_bounded(words, wb),
    ensures
        padded_value(words, len, wb) < pow2(wb * len),
    decreases len,
{
    lemma_pow2_pos(wb);
    if len == 0 {
        assert(padded(words, 0) =~= Seq::<nat>::empty());
        assert(wb * 0 == 0) by (nonlinear_arith);
        lemma_pow2_pos(0);
    } else {
        let before = (len - 1) as nat;
        lemma_padded_bound(words, before, wb);
        lemma_padded_step(words, before, wb);
        lemma_pow2_adds(wb * before, wb);
        assert(wb * before + wb == wb * len) by (nonlinear_arith)
            requires
                before + 1 == len,
        ;
        let v = padded_value(words, before, wb);
        let w = word_or_zero(words, before);
        let a = pow2(wb * before);
        let b = pow2(wb);
        assert(w < b);
        assert(v * b + w < a * b) by (nonlinear_arith)
            requires
                v < a,
                w < b,
        ;
    }
}

/// The number that the first `pos + len` words spell, by the number that
/// the first `pos` words spell and the number that the `len` words behind
/// them spell.
pub proof fn lemma_padded_split(words: Seq<nat>, pos: nat, len: nat, wb: nat)
    requires
        pos <= words.len(),
    ensures
        padded_value(words, pos + len, wb) == be_value(words.take(pos as int), wb) * pow2(wb * len)
            + padded_value(words.skip(pos as int), len, wb),
    decreases len,
{
    let front = be_value(words.take(pos as int), wb);
    if len == 0 {
        assert(padded(words, pos) =~= words.take(pos as int));
        assert(padded(words.skip(pos as int), 0) =~= Seq::<nat>::empty());
        assert(wb * 0 == 0) by (nonlinear_arith);
        lemma_pow2_pos(0);
        vstd::arithmetic::power2::lemma2_to64();
        assert(front * 1 == front) by (nonlinear_arith);
    } else {
        let before = (len - 1) as nat;
        lemma_padded_split(words, pos, before, wb);
        lemma_padded_step(words, pos + before, wb);
        lemma_padded_step(words.skip(pos as int), before, wb);
        assert(word_or_zero(words, pos + before) == word_or_zero(words.skip(pos as int), before));
        lemma_pow2_adds(wb * before, wb);
        assert(wb * before + wb == wb * len) by (nonlinear_arith)
            requires
                before + 1 == len,
        ;
        let a = pow2(wb * before);
        let b = pow2(wb);
        let q = padded_value(words.skip(pos as int), before, wb);
        let w = word_or_zero(words, pos + before);
        assert((front * a + q) * b + w == front * (a * b) + (q * b + w)) by (nonlinear_arith);
    }
}

/// An encoder never has fewer words than before: after the symbols of
/// `items` it has written or holds back at least the words that it had
/// written or held back, and its compressed words are at least as many.
pub proof fn lemma_words_grow<const PRECISION: usize, D: EntropyModel<PRECISION>>(
    st: RangeModel,
    items: Seq<(D::Symbol, D)>,
    wb: nat,
    sb: nat,
)
    requires
        valid_range_widths(wb, sb),
        valid_precision(PRECISION as nat, wb),
        range_normal(st, wb, sb),
        all_possible::<PRECISION, D>(items),
    ensures
        ({
            let last = range_encode_front::<PRECISION, D>(st, items, wb, sb);
            &&& logical_words(st, wb).len() <= logical_words(last, wb).len()
            &&& logical_words(last, wb).len() <= range_seal(last, wb, sb).len()
        }),
    decreases items.len(),
{
    if items.len() == 0 {
        if st.range == pow2(sb) - 1 {
            assert(logical_words(st, wb) =~= st.bulk);
        } else {
            lemma_seal_exact(st, wb, sb);
        }
    } else {
        let c = items[0].1.left_cumulative(items[0].0);
        let p = items[0].1.probability(items[0].0);
        items[0].1.lemma_interval(items[0].0);
        let next = range_encode(st, c, p, wb, sb, PRECISION as nat);
        lemma_encode_exact(st, c, p, wb, sb, PRECISION as nat);
        assert forall|i: int| 0 <= i < items.drop_first().len() implies (
        #[trigger] items.drop_first()[i]).1.probability(items.drop_first()[i].0) > 0 by {
            assert(items.drop_first()[i] == items[i + 1]);
        }
        lemma_words_grow::<PRECISION, D>(next, items.drop_first(), wb, sb);
    }
}

/// A decoder that jumps decodes what was encoded from there on. Let an
/// encoder in the state `st` report its position, the number of words that
/// it has written or holds back, and its interval, and then encode the
/// symbols of `items`, each with its model. A decoder of the compressed
/// words that jumps to that position and interval reaches a position of
/// the compressed words, and decodes with the same models these symbols
/// in their order, without a failure.
pub proof fn lemma_range_jump<const PRECISION: usize, D: EntropyModel<PRECISION>>(
    st: RangeModel,
    items: Seq<(D::Symbol, D)>,
    wb: nat,
    sb: nat,
)
    requires
        valid_range_widths(wb, sb),
        valid_precision(PRECISION as nat, wb),
        range_normal(st, wb, sb),
        all_possible::<PRECISION, D>(items),
    ensures
        ({
            let last = range_encode_all::<PRECISION, D>(st, items, wb, sb);
            let compressed = range_seal(last, wb, sb);
            let pos = st.bulk.len() + held_back(st);
            let reader = RangeDecoderModel {
                lower: st.lower,
                range: st.range,
                ..range_decoder_initial(compressed.skip(pos as int), wb, sb)
            };
            let decoded = range_decode_symbols::<PRECISION, D>(reader, models_of(items), wb, sb);
            &&& pos <= compressed.len()
            &&& decoded.2
            &&& decoded.1 == symbols_of(items)
        }),
{
    let big = pow2(sb);
    let k = sb / wb;
    let last = range_encode_front::<PRECISION, D>(st, items, wb, sb);
    let compressed = range_seal(last, wb, sb);
    let pos = logical_words(st, wb).len();
    let behind = compressed.skip(pos as int);
    let reader = RangeDecoderModel {
        lower: st.lower,
        range: st.range,
        ..range_decoder_initial(behind, wb, sb)
    };
    lemma_encode_front::<PRECISION, D>(st, items, wb, sb);
    lemma_words_grow::<PRECISION, D>(st, items, wb, sb);
    lemma_nested::<PRECISION, D>(st, items, wb, sb);
    lemma_words_per_state(wb, sb);
    lemma_pow2_pos(sb);
    assert(wb * k == sb) by (nonlinear_arith)
        requires
            k * wb == sb,
    ;
    assert forall|i: int| 0 <= i < behind.len() implies #[trigger] behind[i] < pow2(wb) by {
        assert(behind[i] == compressed[i + pos]);
    }
    lemma_initial_point(behind, wb, sb);
    lemma_padded_bound(behind, k, wb);
    lemma_padded_split(compressed, pos, k, wb);
    let front = be_value(compressed.take(pos as int), wb);
    let written = be_value(logical_words(st, wb), wb);
    let value = padded_value(compressed, pos + k, wb);
    let x = exact_lower(st, wb, sb);
    let point = reader.point;
    assert(value == front * big + point);
    assert(x == written * big + st.lower);
    assert(front >= written) by (nonlinear_arith)
        requires
            front * big + point >= written * big + st.lower,
            point < big,
    ;
    let ahead = (front - written) as nat;
    assert(st.lower + value - x == ahead * big + point) by (nonlinear_arith)
        requires
            value == front * big + point,
            x == written * big + st.lower,
            ahead == front - written,
    ;
    vstd::arithmetic::div_mod::lemma_mod_multiples_vanish(ahead as int, point as int, big as int);
    vstd::arithmetic::div_mod::lemma_small_mod(point, big);
    assert(big * ahead == ahead * big) by (nonlinear_arith);
    let len = pos + k;
    assert(reader.pending =~= compressed.skip(
        if len <= compressed.len() {
            len as int
        } else {
            compressed.len() as int
        },
    ));
    assert(in_step(st, reader, compressed, wb, sb));
    lemma_decode_follows::<PRECISION, D>(st, reader, items, wb, sb);
}

/// Nothing in, nothing out: an encoder that has encoded nothing has no
/// compressed words, and a decoder of no words has nothing to read and may
/// have decoded all there is.
pub proof fn lemma_range_empty(wb: nat, sb: nat)
    requires
        valid_range_widths(wb, sb),
        wb > 0,
    ensures
        range_seal(range_initial(sb), wb, sb) == Seq::<nat>::empty(),
        range_decoder_initial(Seq::<nat>::empty(), wb, sb).pending.len() == 0,
        range_may_end(range_decoder_initial(Seq::<nat>::empty(), wb, sb), wb, sb),
{
    lemma_pow2_pos(sb);
}

/// A symbol that is certain: encoding a symbol whose interval is all of
/// `[0, 2^prec)` with an encoder that holds no word back writes no word
/// and leaves the lower end as it is, and sealing then appends the one
/// word that tells the interval. A decoder of no words finds the quantile
/// zero, by which every model yields such a symbol.
pub proof fn lemma_range_certain_symbol(st: RangeModel, wb: nat, sb: nat, prec: nat)
    requires
        valid_range_widths(wb, sb),
        valid_precision(prec, wb),
        range_wf(st, wb, sb),
        st.situation is Normal,
    ensures
        range_encode(st, 0, pow2(prec), wb, sb, prec) == (RangeModel {
            range: (st.range / pow2(prec)) * pow2(prec),
            ..st
        }),
        sealed_extra(range_encode(st, 0, pow2(prec), wb, sb, prec), sb) == 1,
        range_quantile(range_decoder_initial(Seq::<nat>::empty(), wb, sb), sb, prec) == 0,
{
    let big = pow2(sb);
    let m = pow2(prec);
    let t = pow2((sb - wb) as nat);
    let low = pow2((sb - wb - prec) as nat);
    let part = pow2((sb - prec) as nat);
    lemma_pow2_pos(sb);
    lemma_pow2_pos(prec);
    lemma_pow2_split(sb, prec);
    lemma_pow2_split((sb - wb) as nat, prec);
    lemma_pow2_le(1, (sb - prec) as nat);
    vstd::arithmetic::power2::lemma2_to64();
    let scale = st.range / m;
    lemma_div_mod_split(st.range, m);
    lemma_div_below(st.range, m, low);
    assert(scale * m >= low * m) by (nonlinear_arith)
        requires
            scale >= low,
    ;
    assert(scale * 0 == 0) by (nonlinear_arith);
    vstd::arithmetic::div_mod::lemma_small_mod(st.lower, big);
    // the decoder of no words
    let reader = range_decoder_initial(Seq::<nat>::empty(), wb, sb);
    assert(Seq::<nat>::empty().take(0) =~= Seq::<nat>::empty());
    assert(0 * pow2((sb - 0 * wb) as nat) == 0) by (nonlinear_arith);
    assert(reader.point == 0) by {
        assert(point_words(Seq::<nat>::empty(), wb, sb) == 0);
        assert(be_value(Seq::<nat>::empty().take(0), wb) == 0);
        assert(0 * wb == 0) by (nonlinear_arith);
    }
    vstd::arithmetic::div_mod::lemma_mod_self_0(big as int);
    let first_scale = (big - 1) as nat / m;
    assert((part - 1) * m == part * m - m) by (nonlinear_arith);
    assert(big - 1 == (part - 1) * m + (m - 1));
    lemma_mul_add_div_mod((part - 1) as nat, m, (m - 1) as nat);
    assert(first_scale == part - 1);
    assert(part >= 2);
    vstd::arithmetic::div_mod::lemma_div_of0(first_scale as int);
    // the interval after the symbol is not the whole of the states
    lemma_pow2_split(prec, 1);
    let half = pow2((prec - 1) as nat);
    assert(m == half * 2);
    assert(scale * m == (scale * half) * 2) by (nonlinear_arith)
        requires
            m == half * 2,
    ;
    lemma_pow2_split(sb, 1);
    assert(big == pow2((sb - 1) as nat) * 2);
    if scale * m == big - 1 {
        assert(false) by (nonlinear_arith)
            requires
                scale * m == (scale * half) * 2,
                big == pow2((sb - 1) as nat) * 2,
                scale * m == big - 1,
        ;
    }
}

} // verus!
