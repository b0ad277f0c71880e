use constriction::bit_array::BitArray;
use constriction::stream::models::ContiguousCategorical;
use rand_xoshiro::rand_core::{RngCore, SeedableRng};
use rand_xoshiro::Xoshiro256StarStar;
use statrs::distribution::{ContinuousCDF, Normal};
use constriction::stream::chain::{BackendError, ChainCoder, ChangePrecisionError, FrontendError};
use constriction::stream::{CoderError, EncoderFrontendError, TryCodingError};

/// The word with the low bits of `x`.
fn word_of<W: BitArray>(x: u64) -> W {
    let bits = W::bits();
    if bits >= 64 {
        W::from_u64(x)
    } else {
        W::from_u64(x & ((1u64 << bits) - 1))
    }
}

/// A Gaussian with the given mean and standard deviation, quantized to the
/// integers from `min` to `max`: every integer keeps one unit of
/// probability, and the rest of the mass follows the Gaussian.
fn leaky_gaussian<const PRECISION: usize>(
    min: i32,
    max: i32,
    mean: f64,
    std_dev: f64,
) -> ContiguousCategorical<PRECISION> {
    let dist = Normal::new(mean, std_dev).unwrap();
    let total: u64 = 1u64 << PRECISION;
    let free_weight = ((total - 1) - (max - min) as u64) as f64;
    let count = (max - min + 1) as usize;
    let mut cdf = Vec::with_capacity(count + 1);
    cdf.push(0u64);
    for i in 1..count {
        let symbol = min + i as i32;
        let non_leaky = (free_weight * dist.cdf(symbol as f64 - 0.5)) as u64;
        cdf.push(non_leaky + i as u64);
    }
    cdf.push(total);
    ContiguousCategorical::new(min, cdf).unwrap()
}

/// A categorical model over the symbols `0, 1, ...` whose probabilities
/// follow `probabilities` as closely as the precision allows while every
/// symbol keeps at least one unit of probability.
fn categorical<const PRECISION: usize>(probabilities: &[f64]) -> ContiguousCategorical<PRECISION> {
    let total: u64 = 1u64 << PRECISION;
    let sum: f64 = probabilities.iter().sum();
    let mut weights: Vec<u64> = probabilities
        .iter()
        .map(|p| ((p / sum * total as f64).round() as u64).max(1))
        .collect();
    loop {
        let current: u64 = weights.iter().sum();
        if current == total {
            break;
        }
        let mut largest = 0;
        for i in 0..weights.len() {
            if weights[i] > weights[largest] {
                largest = i;
            }
        }
        if current > total {
            let excess = (current - total).min(weights[largest] - 1);
            weights[largest] -= excess;
        } else {
            weights[largest] += total - current;
        }
    }
    let mut cdf = Vec::with_capacity(weights.len() + 1);
    let mut accumulated = 0u64;
    cdf.push(0u64);
    for weight in weights {
        accumulated += weight;
        cdf.push(accumulated);
    }
    ContiguousCategorical::new(0, cdf).unwrap()
}

fn generic_restore_many<Word, State, const PRECISION: usize>(
    amt_compressed_words: usize,
    amt_symbols: usize,
) where
    Word: BitArray + PartialEq + std::fmt::Debug + Clone,
    State: BitArray + std::fmt::Debug + Clone,
{
    let mut rng = Xoshiro256StarStar::seed_from_u64(
        (amt_compressed_words as u64).rotate_left(32) ^ amt_symbols as u64,
    );
    let mut compressed = (0..amt_compressed_words)
        .map(|_| word_of::<Word>(rng.next_u64()))
        .collect::<Vec<_>>();

    // Make the last compressed word have a random number of leading zero bits so that
    // we test various filling levels.
    let leading_zeros = (rng.next_u32() % (Word::bits() as u32 - 1)) as usize;
    let last_word = compressed.last_mut().unwrap();
    let mut last = last_word.to_u64();
    last |= 1u64 << (Word::bits() - leading_zeros - 1);
    let all_ones = if Word::bits() >= 64 { u64::MAX } else { (1u64 << Word::bits()) - 1 };
    last &= all_ones >> leading_zeros;
    *last_word = Word::from_u64(last);

    let parameters = (0..amt_symbols)
        .map(|_| {
            let mean = (200.0 / u32::MAX as f64) * rng.next_u32() as f64 - 100.0;
            let std_dev = (10.0 / u32::MAX as f64) * rng.next_u32() as f64 + 0.001;
            (mean, std_dev)
        })
        .collect::<Vec<_>>();
    let quantize = |&(mean, std_dev): &(f64, f64)| leaky_gaussian::<PRECISION>(-100, 100, mean, std_dev);

    let mut coder = ChainCoder::<Word, State, Vec<Word>, Vec<Word>, PRECISION>::from_quantiles(
        compressed.clone(),
    )
    .unwrap();

    let models = parameters.iter().map(quantize).collect::<Vec<_>>();
    let symbols = coder.decode_symbols(&models).unwrap();

    assert!(!coder.maybe_exhausted());

    let (remainders_prefix, remainders_suffix) = coder.clone().into_remainders().unwrap();
    let mut remainders = remainders_prefix.clone();
    remainders.extend_from_slice(&remainders_suffix);
    let coder2 = ChainCoder::from_remainders(remainders).unwrap();
    let coder3 = ChainCoder::from_remainders(remainders_suffix).unwrap();

    let items = symbols.iter().cloned().zip(models).collect::<Vec<_>>();
    for (mut coder, prefix) in vec![
        (coder, vec![]),
        (coder2, vec![]),
        (coder3, remainders_prefix),
    ] {
        coder.encode_symbols_reverse(&items).unwrap();

        let (quantiles_prefix, quantiles_suffix) = coder.into_quantiles().unwrap();

        let mut reconstructed = prefix;
        reconstructed.extend(quantiles_prefix);
        reconstructed.extend(quantiles_suffix);

        assert_eq!(reconstructed, compressed);
    }
}

#[test]
fn chain_restore_none() {
    generic_restore_many::<u32, u64, 24>(4, 0);
}

#[test]
fn chain_restore_one() {
    generic_restore_many::<u32, u64, 24>(5, 1);
}

#[test]
fn chain_restore_two() {
    generic_restore_many::<u32, u64, 24>(5, 2);
}

#[test]
fn chain_restore_ten() {
    generic_restore_many::<u32, u64, 24>(20, 10);
}

#[test]
fn chain_restore_twenty() {
    generic_restore_many::<u32, u64, 24>(19, 20);
}

#[test]
fn chain_restore_many_u32_u64_32() {
    generic_restore_many::<u32, u64, 32>(1024, 1000);
}

#[test]
fn chain_restore_many_u32_u64_24() {
    generic_restore_many::<u32, u64, 24>(1024, 1000);
}

#[test]
fn chain_restore_many_u32_u64_16() {
    generic_restore_many::<u32, u64, 16>(1024, 1000);
}

#[test]
fn chain_restore_many_u16_u64_16() {
    generic_restore_many::<u16, u64, 16>(1024, 1000);
}

#[test]
fn chain_restore_many_u32_u64_8() {
    generic_restore_many::<u32, u64, 8>(1024, 1000);
}

#[test]
fn chain_restore_many_u16_u64_8() {
    generic_restore_many::<u16, u64, 8>(1024, 1000);
}

#[test]
fn chain_restore_many_u8_u64_8() {
    generic_restore_many::<u8, u64, 8>(1024, 1000);
}

#[test]
fn chain_restore_many_u16_u32_16() {
    generic_restore_many::<u16, u32, 16>(1024, 1000);
}

#[test]
fn chain_restore_many_u16_u32_8() {
    generic_restore_many::<u16, u32, 8>(1024, 1000);
}

#[test]
fn chain_restore_many_u8_u32_8() {
    generic_restore_many::<u8, u32, 8>(1024, 1000);
}

fn decode_categoricals(data: Vec<u32>, probabilities: &[[f64; 4]]) -> Vec<i32> {
    let models = probabilities
        .iter()
        .map(|probs| categorical::<24>(probs))
        .collect::<Vec<_>>();
    let mut coder = ChainCoder::<u32, u64, Vec<u32>, Vec<u32>, 24>::from_binary(data).unwrap();
    coder.decode_symbols(&models).unwrap()
}

#[test]
fn chain_changing_one_model_changes_one_symbol() {
    let data = vec![0x80d1_4131, 0xdda9_7c6c, 0x5017_a640, 0x01170a3d];
    let mut probabilities = [
        [0.1, 0.7, 0.1, 0.1],
        [0.2, 0.2, 0.1, 0.5],
        [0.2, 0.1, 0.4, 0.3],
    ];
    assert_eq!(decode_categoricals(data.clone(), &probabilities), [0, 3, 3]);

    probabilities[0] = [0.09, 0.71, 0.1, 0.1];
    assert_eq!(decode_categoricals(data, &probabilities), [1, 3, 3]);
}

#[test]
fn chain_from_quantiles_refuses_short_or_zero_ended_input() {
    type Coder = ChainCoder<u32, u64, Vec<u32>, Vec<u32>, 24>;
    // What the coder has not read comes back: all but a zero word at the
    // end, or nothing where the words ran out.
    assert_eq!(Coder::from_quantiles(vec![]).err(), Some(CoderError::FrontendError(vec![])));
    assert_eq!(Coder::from_quantiles(vec![5, 0]).err(), Some(CoderError::FrontendError(vec![5])));
    assert_eq!(Coder::from_binary(vec![]).err(), Some(CoderError::FrontendError(vec![])));
    assert_eq!(Coder::from_binary(vec![5]).unwrap().state().remainders(), (1 << 32) | 5);
    assert_eq!(Coder::from_remainders(vec![7, 8, 0]).err(), Some(CoderError::FrontendError(vec![7, 8])));
    assert_eq!(Coder::from_remainders(vec![7, 0, 1]).err(), Some(CoderError::FrontendError(vec![7])));
    assert_eq!(Coder::from_remainders(vec![7, 1]).err(), Some(CoderError::FrontendError(vec![])));
    // One word of 9 bits or more fills the head at this precision.
    let coder = Coder::from_quantiles(vec![5, 0x100]).unwrap();
    assert!(coder.is_whole());
    assert_eq!(coder.state().remainders(), 0x100);
    // A smaller word takes a second one, and fails without.
    let coder = Coder::from_quantiles(vec![5, 0xff]).unwrap();
    assert_eq!(coder.state().remainders(), 0xff_0000_0005);
    assert_eq!(Coder::from_quantiles(vec![0xff]).err(), Some(CoderError::FrontendError(vec![])));
}

#[test]
fn chain_into_quantiles_gives_back_the_input() {
    type Coder = ChainCoder<u32, u64, Vec<u32>, Vec<u32>, 24>;
    let input = vec![0x1234_5678, 0x9abc_def0, 0x0fed_cba9, 0x8765_4321];
    let coder = Coder::from_quantiles(input.clone()).unwrap();
    let (remainders, quantiles) = coder.into_quantiles().unwrap();
    assert!(remainders.is_empty());
    assert_eq!(quantiles, input);
}

#[test]
fn chain_decoding_runs_out_of_data() {
    let model = leaky_gaussian::<24>(-100, 100, 0.0, 10.0);
    let mut coder = ChainCoder::<u32, u64, Vec<u32>, Vec<u32>, 24>::from_quantiles(vec![0x100]).unwrap();
    assert!(coder.maybe_exhausted());
    assert_eq!(
        coder.decode_symbol(&model),
        Err(CoderError::FrontendError(FrontendError::OutOfData))
    );
}

#[test]
fn chain_encoding_errors() {
    let model = leaky_gaussian::<24>(-10, 10, 0.0, 3.0);
    let mut coder = ChainCoder::<u32, u64, Vec<u32>, Vec<u32>, 24>::from_remainders(vec![0x100, 1]).unwrap();
    assert!(coder.maybe_full());
    assert_eq!(
        coder.encode_symbol(&11, &model),
        Err(CoderError::FrontendError(EncoderFrontendError::ImpossibleSymbol))
    );
    // The head of the remainders holds 9 bits, too few for a symbol of
    // this probability, and their stack is empty.
    assert_eq!(
        coder.encode_symbol(&0, &model),
        Err(CoderError::BackendError(BackendError::Remainders(None)))
    );
}

#[test]
fn chain_smallest_and_largest_precision() {
    let data = vec![0x1234u16, 0xfedc, 0x0f0f, 0x8001, 0x7777, 0x0101];
    let binary = ContiguousCategorical::<1>::new(0, vec![0, 1, 2]).unwrap();
    let mut coder = ChainCoder::<u16, u32, Vec<u16>, Vec<u16>, 1>::from_quantiles(data.clone()).unwrap();
    let symbols = coder.decode_symbols(&(0..33).map(|_| ContiguousCategorical::<1>::new(0, vec![0, 1, 2]).unwrap()).collect::<Vec<_>>()).unwrap();
    // The head of the remainders takes the words 0x0101 and 0x7777. The
    // quantiles are the bits of the words below, the lowest bit of a word
    // first: 0x8001 is the first word that is read.
    assert_eq!(symbols[..17], [1, 0, 0, 0, 0, 0, 0, 0, 0, 0, 0, 0, 0, 0, 0, 1, 1]);
    assert!(!coder.is_whole());
    assert!(coder.clone().into_quantiles().is_err());
    coder.encode_iid_symbols_reverse(&symbols, &binary).unwrap();
    assert!(coder.is_whole());
    let (remainders, quantiles) = coder.into_quantiles().unwrap();
    assert!(remainders.is_empty());
    assert_eq!(quantiles, data);

    let wide = leaky_gaussian::<16>(-100, 100, 3.0, 20.0);
    let mut coder = ChainCoder::<u16, u32, Vec<u16>, Vec<u16>, 16>::from_quantiles(data.clone()).unwrap();
    let symbols = coder.decode_symbols(&(0..4).map(|_| leaky_gaussian::<16>(-100, 100, 3.0, 20.0)).collect::<Vec<_>>()).unwrap();
    assert!(coder.is_whole());
    coder.encode_iid_symbols_reverse(&symbols, &wide).unwrap();
    let (remainders, quantiles) = coder.into_quantiles().unwrap();
    assert!(remainders.is_empty());
    assert_eq!(quantiles, data);
}

#[test]
fn chain_models_that_fail() {
    type Coder = ChainCoder<u32, u64, Vec<u32>, Vec<u32>, 24>;
    let good = || leaky_gaussian::<24>(-10, 10, 0.0, 3.0);
    let data = vec![0x0123_4567u32, 0x89ab_cdef, 0x1122_3344, 0x5566_7788];
    let mut coder = Coder::from_quantiles(data.clone()).unwrap();
    let models = [good(), good(), good()];
    let symbols = coder.decode_symbols(&models).unwrap();
    let decoded = coder.clone();

    let items = symbols.iter().map(|symbol| Ok::<_, &str>((*symbol, good()))).collect();
    assert_eq!(coder.try_encode_symbols_reverse(items), Ok(()));
    assert_eq!(coder.into_quantiles().unwrap().1, data);

    let mut coder = decoded.clone();
    let items = vec![Ok((symbols[0], good())), Err("no model"), Ok((symbols[2], good()))];
    assert_eq!(
        coder.try_encode_symbols_reverse(items),
        Err(TryCodingError::InvalidEntropyModel("no model"))
    );
    coder.encode_symbols_reverse(&[(symbols[0], good()), (symbols[1], good())]).unwrap();
    assert_eq!(coder.into_quantiles().unwrap().1, data);

    let mut coder = decoded.clone();
    let items = vec![Ok::<_, &str>((symbols[0], good())), Ok((11, good())), Ok((symbols[2], good()))];
    assert_eq!(
        coder.try_encode_symbols_reverse(items),
        Err(TryCodingError::CodingError(CoderError::FrontendError(
            EncoderFrontendError::ImpossibleSymbol
        )))
    );
    // The third symbol was encoded before the second one was refused.
    let mut expected = decoded;
    expected.encode_symbol(&symbols[2], &good()).unwrap();
    assert_eq!(coder.state(), expected.state());
}

#[test]
fn chain_steps_by_hand() {
    // Words of 8 bits, a state of 32 bits, quantiles of a whole word. The
    // head of the remainders takes words until it has 17 bits or more.
    let model = ContiguousCategorical::<8>::new(0, vec![0, 100, 200, 256]).unwrap();
    let mut coder =
        ChainCoder::<u8, u32, Vec<u8>, Vec<u8>, 8>::from_quantiles(vec![0xab, 0x12, 0x34, 0x56]).unwrap();
    assert_eq!(coder.state().remainders(), 0x56_3412);
    assert_eq!(coder.state().quantiles(), 1);
    // The quantile 0xab = 171 lies in [100, 200): symbol 1. The head of
    // the remainders becomes 0x56_3412 * 100 + 71 = 0x21ac_574f, which has
    // more than 24 bits and loses its low word.
    assert_eq!(coder.decode_symbol(&model), Ok(1));
    assert_eq!(coder.state().remainders(), 0x21_ac57);
    assert!(coder.is_whole());
    assert!(coder.maybe_exhausted());
    let (quantiles, remainders) = coder.clone().into_remainders().unwrap();
    assert!(quantiles.is_empty());
    assert_eq!(remainders, vec![0x4f, 0x57, 0xac, 0x21, 0x01]);
    // Encoding the symbol takes the word back and divides by 100.
    coder.encode_symbol(&1, &model).unwrap();
    assert_eq!(coder.state().remainders(), 0x56_3412);
    assert_eq!(coder.into_quantiles().unwrap(), (vec![], vec![0xab, 0x12, 0x34, 0x56]));

    // Words of 16 bits and quantiles of 12 bits: the 4 bits that a word
    // has left go to the head of the quantiles, and three words make four
    // quantiles.
    let model = ContiguousCategorical::<12>::new(0, vec![0, 0x800, 0xc00, 0x1000]).unwrap();
    let mut coder =
        ChainCoder::<u16, u32, Vec<u16>, Vec<u16>, 12>::from_quantiles(vec![0x1234, 0xabcd, 0x0111]).unwrap();
    assert_eq!(coder.state().remainders(), 0x111);
    assert_eq!(coder.decode_symbol(&model), Ok(1));
    assert_eq!(coder.state().quantiles(), 0x1a);
    assert_eq!(coder.state().remainders(), 0x4_47cd);
    assert!(!coder.is_whole());
    assert_eq!(coder.decode_symbol(&model), Ok(0));
    assert_eq!(coder.state().quantiles(), 0x1a1);
    assert_eq!(coder.state().remainders(), 0x223e);
    assert_eq!(
        coder.decode_symbol(&model),
        Err(CoderError::FrontendError(FrontendError::OutOfData))
    );
    assert_eq!(coder.state().quantiles(), 0x1a1);
    let (quantiles, remainders) = coder.into_remainders().unwrap();
    assert!(quantiles.is_empty());
    assert_eq!(remainders, vec![0x6a34, 0x223e, 0x1a1]);
}

#[test]
fn chain_decrease_precision_needs_remainders() {
    type Coder = ChainCoder<u32, u64, Vec<u32>, Vec<u32>, 24>;
    // The head has 9 bits; at the precision 8 it needs 25.
    let coder = Coder::from_quantiles(vec![7, 0x100]).unwrap();
    assert_eq!(coder.decrease_precision::<8>().err(), Some(None));
    let coder = Coder::from_quantiles(vec![7, 0x100]).unwrap();
    assert!(matches!(
        coder.change_precision::<8>(),
        Err(ChangePrecisionError::Read(None))
    ));
    // With a word on the remainders it takes that word.
    let coder = Coder::from_remainders(vec![0xabcd, 5, 0x100, 1]).unwrap();
    assert_eq!(coder.state().remainders(), 0x100);
    let coder = coder.decrease_precision::<8>().unwrap();
    assert_eq!(coder.state().remainders(), 0x100_0000_0005);
    assert_eq!(coder.into_remainders().unwrap().1, vec![0xabcd, 5, 0x100, 1]);
}

#[test]
fn chain_into_binary_undoes_from_binary() {
    type Coder = ChainCoder<u32, u64, Vec<u32>, Vec<u32>, 24>;
    let data = vec![0x80d1_4131, 0xdda9_7c6c, 0x5017_a640, 0x01170a3d];
    let coder = Coder::from_binary(data.clone()).unwrap();
    assert_eq!(coder.state().remainders(), 0x1_0117_0a3d);
    let (remainders, quantiles) = coder.into_binary().unwrap();
    assert!(remainders.is_empty());
    assert_eq!(quantiles, data);

    // A head whose highest bit is not the lowest bit of a word is refused.
    let coder = Coder::from_quantiles(data).unwrap();
    assert!(coder.into_binary().is_err());
}

#[test]
fn chain_change_precision() {
    type Coder = ChainCoder<u32, u64, Vec<u32>, Vec<u32>, 24>;
    let data = vec![0x0123_4567u32, 0x89ab_cdef, 0x1122_3344, 0x5566_7788];
    let model24 = leaky_gaussian::<24>(-100, 100, 0.0, 10.0);
    let model20 = leaky_gaussian::<20>(-100, 100, 0.0, 10.0);
    let mut coder = Coder::from_quantiles(data).unwrap();
    let _symbol_a = coder.decode_symbol(&model24).unwrap();
    let heads = coder.state();
    let mut coder = coder.change_precision::<20>().unwrap();
    assert_eq!(coder.state().remainders(), heads.remainders());
    let _symbol_b = coder.decode_symbol(&model20).unwrap();

    // At the precision 32 a head of 33 bits is too large and loses a word.
    let coder = Coder::from_quantiles(vec![1, 0xffff_ffff]).unwrap();
    let coder = coder.increase_precision::<32>().unwrap();
    assert_eq!(coder.state().remainders(), 0xffff_ffff);
    let coder = Coder::from_binary(vec![1, 0xffff_ffff]).unwrap();
    assert_eq!(coder.state().remainders(), 0x1_ffff_ffff);
    let coder = coder.increase_precision::<32>().unwrap();
    assert_eq!(coder.state().remainders(), 1);
    let (_, remainders) = coder.into_remainders().unwrap();
    assert_eq!(remainders, vec![0xffff_ffff, 1, 1]);
}
