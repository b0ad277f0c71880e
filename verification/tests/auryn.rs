use constriction::bit_array::BitArray;
use constriction::stream::models::ContiguousCategorical;
use rand_xoshiro::rand_core::{RngCore, SeedableRng};
use rand_xoshiro::Xoshiro256StarStar;
use statrs::distribution::{ContinuousCDF, Normal};
use constriction::auryn::Auryn;
use constriction::stream::stack::AnsCoder;
use constriction::stream::{CoderError, EncoderFrontendError, TryCodingError};

/// The word with the low bits of `x`.
fn word_of<W: BitArray>(x: u64) -> W {
    let bits = W::bits();
    if bits >= 64 {
        W::from_u64(x)
    } else {
        W::from_u64(x & ((1u64 << bits) - 1))
    }
}

/// A Gaussian with the given mean and standard deviation, quantized to the
/// integers from `min` to `max`: every integer keeps one unit of
/// probability, and the rest of the mass follows the Gaussian.
fn leaky_gaussian<const PRECISION: usize>(
    min: i32,
    max: i32,
    mean: f64,
    std_dev: f64,
) -> ContiguousCategorical<PRECISION> {
    let dist = Normal::new(mean, std_dev).unwrap();
    let total: u64 = 1u64 << PRECISION;
    let free_weight = ((total - 1) - (max - min) as u64) as f64;
    let count = (max - min + 1) as usize;
    let mut cdf = Vec::with_capacity(count + 1);
    cdf.push(0u64);
    for i in 1..count {
        let symbol = min + i as i32;
        let non_leaky = (free_weight * dist.cdf(symbol as f64 - 0.5)) as u64;
        cdf.push(non_leaky + i as u64);
    }
    cdf.push(total);
    ContiguousCategorical::new(min, cdf).unwrap()
}

#[test]
fn auryn_compress_none() {
    let auryn1 = Auryn::<u32, u64, 24>::with_compressed_data(Vec::new());
    assert!(auryn1.maybe_empty());
    let (supply, waste) = auryn1.into_supply_and_waste();
    assert!(supply.is_empty());
    assert!(waste.is_empty());

    let auryn2 = Auryn::<u32, u64, 24>::with_supply_and_waste(supply, waste);
    assert!(auryn2.maybe_empty());
}

fn generic_restore_many<Word, State, const PRECISION: usize>(
    amt_compressed_words: usize,
    amt_symbols: usize,
) where
    Word: BitArray + PartialEq + std::fmt::Debug,
    State: BitArray,
{
    let mut rng = Xoshiro256StarStar::seed_from_u64(
        (amt_compressed_words as u64).rotate_left(32) ^ amt_symbols as u64,
    );
    let mut compressed = (0..amt_compressed_words)
        .map(|_| word_of::<Word>(rng.next_u64()))
        .collect::<Vec<_>>();

    // Set the highest bit so that the last word is not zero.
    if let Some(last) = compressed.last_mut() {
        *last = Word::from_u64(last.to_u64() | (1u64 << (Word::bits() - 1)));
    }

    let parameters = (0..amt_symbols)
        .map(|_| {
            let mean = (200.0 / u32::MAX as f64) * rng.next_u32() as f64 - 100.0;
            let std_dev = (10.0 / u32::MAX as f64) * rng.next_u32() as f64 + 0.001;
            (mean, std_dev)
        })
        .collect::<Vec<_>>();
    let quantize = |&(mean, std_dev): &(f64, f64)| leaky_gaussian::<PRECISION>(-127, 127, mean, std_dev);

    let mut auryn = Auryn::<Word, State, PRECISION>::with_compressed_data(
        compressed.iter().map(|w| Word::from_u64(w.to_u64())).collect(),
    );
    assert!(auryn.waste().is_empty());

    let models = parameters.iter().map(quantize).collect::<Vec<_>>();
    let symbols = auryn.decode_symbols(&models);

    assert!(!auryn.maybe_empty());
    if amt_symbols != 0 {
        assert!(!auryn.waste().is_empty());
    }

    let items = symbols.iter().cloned().zip(models).collect::<Vec<_>>();
    auryn.encode_symbols_reverse(&items).unwrap();

    let (supply, waste) = auryn.into_supply_and_waste();
    assert!(waste.is_empty());
    assert_eq!(supply.into_compressed(), compressed);
}

#[test]
fn auryn_restore_none() {
    generic_restore_many::<u32, u64, 24>(3, 0);
}

#[test]
fn auryn_restore_one() {
    generic_restore_many::<u32, u64, 24>(3, 1);
}

#[test]
fn auryn_restore_two() {
    generic_restore_many::<u32, u64, 24>(3, 2);
}

#[test]
fn auryn_restore_ten() {
    generic_restore_many::<u32, u64, 24>(20, 10);
}

#[test]
fn auryn_restore_twenty() {
    generic_restore_many::<u32, u64, 24>(18, 20);
}

#[test]
fn auryn_restore_many_u32_u64_32() {
    generic_restore_many::<u32, u64, 32>(1024, 1000);
}

#[test]
fn auryn_restore_many_u32_u64_24() {
    generic_restore_many::<u32, u64, 24>(1024, 1000);
}

#[test]
fn auryn_restore_many_u32_u64_16() {
    generic_restore_many::<u32, u64, 16>(1024, 1000);
}

#[test]
fn auryn_restore_many_u16_u64_16() {
    generic_restore_many::<u16, u64, 16>(1024, 1000);
}

#[test]
fn auryn_restore_many_u32_u64_8() {
    generic_restore_many::<u32, u64, 8>(1024, 1000);
}

#[test]
fn auryn_restore_many_u16_u64_8() {
    generic_restore_many::<u16, u64, 8>(1024, 1000);
}

#[test]
fn auryn_restore_many_u8_u64_8() {
    generic_restore_many::<u8, u64, 8>(1024, 1000);
}

#[test]
fn auryn_restore_many_u16_u32_16() {
    generic_restore_many::<u16, u32, 16>(1024, 1000);
}

#[test]
fn auryn_restore_many_u16_u32_8() {
    generic_restore_many::<u16, u32, 8>(1024, 1000);
}

#[test]
fn auryn_restore_many_u8_u32_8() {
    generic_restore_many::<u8, u32, 8>(1024, 1000);
}

#[test]
fn auryn_decoding_moves_bits_from_supply_to_waste() {
    let model = leaky_gaussian::<24>(-100, 100, 0.0, 10.0);
    let mut auryn = Auryn::<u32, u64, 24>::with_compressed_data(vec![0x0123_4567, 0x89ab_cdef]);
    let before = auryn.state();
    let symbol = auryn.decode_symbol(&model);
    assert_ne!(auryn.state(), before);
    auryn.encode_symbol(&symbol, &model).unwrap();
    assert_eq!(auryn.state(), before);
    let (supply, waste) = auryn.into_supply_and_waste();
    assert!(waste.is_empty());
    assert_eq!(supply.into_compressed(), vec![0x0123_4567, 0x89ab_cdef]);
}

#[test]
fn auryn_smallest_precision() {
    let model = ContiguousCategorical::<1>::new(0, vec![0, 1, 2]).unwrap();
    let compressed = vec![0x1234u16, 0xfedc, 0x0f0f, 0x8001];
    let mut auryn = Auryn::<u16, u32, 1>::with_compressed_data(compressed.clone());
    let symbols = auryn.decode_iid_symbols(40, &model);
    // Every symbol is one bit of the data, the lowest bit of the head
    // first: the head starts as 0x8001_0f0f.
    assert_eq!(symbols[..10], [1, 1, 1, 1, 0, 0, 0, 0, 1, 1]);
    // A symbol of two that are equally likely uses up its bit: nothing is
    // left for the waste.
    assert!(auryn.waste().is_empty());
    auryn.encode_iid_symbols_reverse(&symbols, &model).unwrap();
    let (supply, waste) = auryn.into_supply_and_waste();
    assert!(waste.is_empty());
    assert_eq!(supply.into_compressed(), compressed);
}

#[test]
fn auryn_models_that_fail() {
    let good = || leaky_gaussian::<24>(-10, 10, 0.0, 3.0);
    let compressed = vec![0x0123_4567u32, 0x89ab_cdef, 0x8000_0001];
    let mut auryn = Auryn::<u32, u64, 24>::with_compressed_data(compressed.clone());
    let symbols = auryn.decode_iid_symbols(3, &good());
    let state = auryn.state();

    // All models are there: the symbols are encoded.
    let items = symbols.iter().map(|symbol| Ok::<_, &str>((*symbol, good()))).collect();
    assert_eq!(auryn.try_encode_symbols_reverse(items), Ok(()));
    assert_eq!(auryn.supply().get_compressed(), compressed);

    // The model of the second symbol is missing: the third is encoded.
    let mut auryn = Auryn::<u32, u64, 24>::with_compressed_data(compressed.clone());
    auryn.decode_iid_symbols(3, &good());
    let items = vec![Ok((symbols[0], good())), Err("no model"), Ok((symbols[2], good()))];
    assert_eq!(
        auryn.try_encode_symbols_reverse(items),
        Err(TryCodingError::InvalidEntropyModel("no model"))
    );
    assert_ne!(auryn.state(), state);
    auryn.encode_symbol(&symbols[1], &good()).unwrap();
    auryn.encode_symbol(&symbols[0], &good()).unwrap();
    assert_eq!(auryn.supply().get_compressed(), compressed);

    // The third symbol is impossible: nothing is encoded.
    let mut auryn = Auryn::<u32, u64, 24>::with_compressed_data(compressed);
    auryn.decode_iid_symbols(3, &good());
    let items = vec![Ok::<_, &str>((symbols[0], good())), Ok((symbols[1], good())), Ok((11, good()))];
    assert_eq!(
        auryn.try_encode_symbols_reverse(items),
        Err(TryCodingError::CodingError(CoderError::FrontendError(
            EncoderFrontendError::ImpossibleSymbol
        )))
    );
    assert_eq!(auryn.state(), state);
}

#[test]
fn auryn_waste_in_normal_form_and_back() {
    let model = leaky_gaussian::<24>(-100, 100, 0.0, 10.0);
    let compressed = (1..40u32).map(|i| i.wrapping_mul(0x9e37_79b9) | 1).collect::<Vec<_>>();
    let mut auryn = Auryn::<u32, u64, 24>::with_compressed_data(compressed.clone());
    let symbols = auryn.decode_iid_symbols(30, &model);
    let head = auryn.waste().state();
    let words = auryn.waste().bulk().len();
    assert!(words > 0);
    assert!(head < 1 << 40);
    {
        let waste = auryn.waste_mut();
        // In normal form the head has reached 2^32: a small head has taken
        // a word from the bulk.
        assert!(waste.state() >= 1 << 32);
        if head < 1 << 32 {
            assert_eq!(waste.bulk().len(), words - 1);
        } else {
            assert_eq!(waste.state(), head);
        }
    }
    auryn.restore_waste();
    assert!(auryn.waste().state() < 1 << 40);
    auryn.encode_iid_symbols_reverse(&symbols, &model).unwrap();
    let (supply, waste) = auryn.into_supply_and_waste();
    assert!(waste.is_empty());
    assert_eq!(supply.into_compressed(), compressed);
}

#[test]
fn auryn_refuses_impossible_symbol() {
    let model = leaky_gaussian::<24>(-10, 10, 0.0, 3.0);
    let mut auryn = Auryn::<u32, u64, 24>::with_supply(AnsCoder::<u32, u64>::new());
    let before = auryn.state();
    assert!(auryn.encode_symbol(&11, &model).is_err());
    assert_eq!(auryn.state(), before);
}

#[test]
fn auryn_with_supply_and_waste_flushes_large_waste() {
    // A waste in normal form has a head of 33 bits or more, which is more
    // than a waste may have at this precision: one word is flushed.
    let waste = AnsCoder::<u32, u64>::with_compressed_data(vec![7, 0x8000_0001, 0xffff_ffff]);
    assert_eq!(waste.state(), 0xffff_ffff_8000_0001);
    let auryn = Auryn::<u32, u64, 24>::with_supply_and_waste(AnsCoder::new(), waste);
    assert_eq!(auryn.waste().state(), 0xffff_ffff);
    assert_eq!(auryn.waste().bulk(), &vec![7, 0x8000_0001]);
}
