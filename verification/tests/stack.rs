use constriction::bit_array::BitArray;
use constriction::stream::models::ContiguousCategorical;
use rand_xoshiro::rand_core::{RngCore, SeedableRng};
use rand_xoshiro::Xoshiro256StarStar;
use statrs::distribution::{ContinuousCDF, Normal};
use constriction::stream::stack::AnsCoder;
use constriction::stream::{CoderError, EncoderFrontendError};

/// The word with the low bits of `x`.
fn word_of<W: BitArray>(x: u64) -> W {
    let bits = W::bits();
    if bits >= 64 {
        W::from_u64(x)
    } else {
        W::from_u64(x & ((1u64 << bits) - 1))
    }
}

/// A Gaussian with the given mean and standard deviation, quantized to the
/// integers from `min` to `max`: every integer keeps one unit of
/// probability, and the rest of the mass follows the Gaussian.
fn leaky_gaussian<const PRECISION: usize>(
    min: i32,
    max: i32,
    mean: f64,
    std_dev: f64,
) -> ContiguousCategorical<PRECISION> {
    let dist = Normal::new(mean, std_dev).unwrap();
    let total: u64 = 1u64 << PRECISION;
    let free_weight = ((total - 1) - (max - min) as u64) as f64;
    let count = (max - min + 1) as usize;
    let mut cdf = Vec::with_capacity(count + 1);
    cdf.push(0u64);
    for i in 1..count {
        let symbol = min + i as i32;
        let non_leaky = (free_weight * dist.cdf(symbol as f64 - 0.5)) as u64;
        cdf.push(non_leaky + i as u64);
    }
    cdf.push(total);
    ContiguousCategorical::new(min, cdf).unwrap()
}

fn ans_restore_many<Word, State, const PRECISION: usize>(amt_compressed_words: usize, amt_symbols: usize)
where
    Word: BitArray + PartialEq + std::fmt::Debug + Clone,
    State: BitArray,
{
    let mut rng = Xoshiro256StarStar::seed_from_u64(
        (amt_compressed_words as u64).rotate_left(32) ^ amt_symbols as u64,
    );
    let mut compressed = (0..amt_compressed_words)
        .map(|_| word_of::<Word>(rng.next_u64()))
        .collect::<Vec<_>>();
    if let Some(last) = compressed.last_mut() {
        *last = Word::from_u64(last.to_u64() | (1u64 << (Word::bits() - 1)));
    }
    let models = (0..amt_symbols)
        .map(|_| {
            let mean = (200.0 / u32::MAX as f64) * rng.next_u32() as f64 - 100.0;
            let std_dev = (10.0 / u32::MAX as f64) * rng.next_u32() as f64 + 0.001;
            leaky_gaussian::<PRECISION>(-127, 127, mean, std_dev)
        })
        .collect::<Vec<_>>();

    let mut coder = AnsCoder::<Word, State>::from_compressed(compressed.clone()).unwrap();
    let symbols = coder.decode_symbols(&models);
    let items = symbols.iter().cloned().zip(models).collect::<Vec<_>>();
    coder.encode_symbols_reverse(&items).unwrap();
    assert_eq!(coder.into_compressed(), compressed);
}

#[test]
fn ans_restore_many_u32_u64_24() {
    ans_restore_many::<u32, u64, 24>(1024, 1000);
}

#[test]
fn ans_restore_many_u32_u64_32() {
    ans_restore_many::<u32, u64, 32>(1024, 1000);
}

#[test]
fn ans_restore_many_u16_u32_1() {
    ans_restore_many_binary_models::<u16, u32>();
}

/// The smallest precision: two symbols of probability one half each.
fn ans_restore_many_binary_models<Word, State>()
where
    Word: BitArray + PartialEq + std::fmt::Debug + Clone,
    State: BitArray,
{
    let model = ContiguousCategorical::<1>::new(0, vec![0, 1, 2]).unwrap();
    let symbols = [0, 1, 1, 0, 1, 0, 0, 0, 1, 1, 1, 1, 0, 1, 0, 1, 1, 0, 0, 1];
    let mut coder = AnsCoder::<Word, State>::new();
    coder.encode_iid_symbols_reverse(&symbols, &model).unwrap();
    assert_eq!(coder.num_words(), 2);
    assert_eq!(coder.decode_iid_symbols(symbols.len(), &model), symbols);
    assert!(coder.is_empty());
}

#[test]
fn ans_compress_many_and_decode() {
    let mut rng = Xoshiro256StarStar::seed_from_u64(5678);
    let items = (0..1000)
        .map(|_| {
            let mean = (200.0 / u32::MAX as f64) * rng.next_u32() as f64 - 100.0;
            let std_dev = (10.0 / u32::MAX as f64) * rng.next_u32() as f64 + 0.001;
            let model = leaky_gaussian::<24>(-127, 127, mean, std_dev);
            let symbol = (mean.round() as i32).clamp(-127, 127);
            (symbol, model)
        })
        .collect::<Vec<_>>();
    let mut coder = AnsCoder::<u32, u64>::new();
    assert!(coder.is_empty());
    coder.encode_symbols_reverse(&items).unwrap();
    assert!(!coder.is_empty());

    let compressed = coder.get_compressed();
    assert_eq!(compressed.len(), coder.num_words());
    assert_ne!(*compressed.last().unwrap(), 0);
    let mut decoder = AnsCoder::<u32, u64>::from_compressed(compressed).unwrap();

    let symbols = items.iter().map(|item| item.0).collect::<Vec<_>>();
    let models = items.into_iter().map(|item| item.1).collect::<Vec<_>>();
    assert_eq!(decoder.decode_symbols(&models), symbols);
    assert!(decoder.is_empty());
    assert_eq!(coder.decode_symbols(&models), symbols);
    assert!(coder.is_empty());
    assert!(coder.into_compressed().is_empty());
}

#[test]
fn ans_encode_one_symbol_by_hand() {
    // An empty coder: head 0. Encoding a symbol with the interval
    // [c, c + p) gives the head (0 / p) * 2^24 + 0 % p + c = c.
    let model = ContiguousCategorical::<24>::new(0, vec![0, 0x40_0000, 0x100_0000]).unwrap();
    let mut coder = AnsCoder::<u32, u64>::new();
    coder.encode_symbol(&1, &model).unwrap();
    assert_eq!(coder.state(), 0x40_0000);
    // Once more: p = 0xc0_0000, head = (h / p) * 2^24 + h % p + c with
    // h = 0x40_0000, which is below p.
    coder.encode_symbol(&1, &model).unwrap();
    assert_eq!(coder.state(), 0x40_0000 + 0x40_0000);
    coder.encode_symbol(&0, &model).unwrap();
    // h = 0x80_0000, p = 0x40_0000, c = 0: (2 << 24) + 0.
    assert_eq!(coder.state(), 2 << 24);
    assert_eq!(coder.into_compressed(), vec![2 << 24]);
}

#[test]
fn ans_from_compressed_refuses_zero_at_the_end() {
    assert_eq!(
        AnsCoder::<u32, u64>::from_compressed(vec![1, 2, 0]).err(),
        Some(vec![1, 2, 0])
    );
    let coder = AnsCoder::<u32, u64>::from_compressed(vec![]).unwrap();
    assert!(coder.is_empty());
    let coder = AnsCoder::<u32, u64>::from_compressed(vec![7, 8, 9]).unwrap();
    assert_eq!(coder.state(), (9 << 32) | 8);
    assert_eq!(coder.bulk(), &vec![7]);
    assert_eq!(coder.into_compressed(), vec![7, 8, 9]);
}

#[test]
fn ans_binary_data() {
    let data = vec![0x80d1_4131u32, 0xdda9_7c6c, 0, 0];
    let coder = AnsCoder::<u32, u64>::from_binary(data.clone());
    assert_eq!(coder.state(), 1 << 32);
    assert_eq!(coder.bulk(), &vec![0x80d1_4131u32, 0xdda9_7c6c, 0]);
    assert_eq!(coder.get_binary(), Ok(data.clone()));
    assert_eq!(coder.into_binary().ok(), Some(data));

    let coder = AnsCoder::<u32, u64>::from_compressed(vec![1, 2, 3]).unwrap();
    assert_eq!(coder.get_binary(), Err(()));
    assert!(coder.into_binary().is_err());
}

#[test]
fn ans_refuses_impossible_symbol() {
    let model = leaky_gaussian::<24>(-10, 10, 0.0, 3.0);
    let mut coder = AnsCoder::<u32, u64>::from_compressed(vec![7, 8, 9]).unwrap();
    assert_eq!(
        coder.encode_symbol(&11, &model),
        Err(CoderError::FrontendError(EncoderFrontendError::ImpossibleSymbol))
    );
    assert_eq!(coder.get_compressed(), vec![7, 8, 9]);
    coder.clear();
    assert!(coder.is_empty());
    assert!(coder.maybe_empty());
}

#[test]
fn ans_certain_symbol_costs_nothing() {
    let model = ContiguousCategorical::<24>::new(-3, vec![0, 1 << 24]).unwrap();
    let mut coder = AnsCoder::<u32, u64>::new();
    coder.encode_iid_symbols_reverse(&[-3; 50], &model).unwrap();
    assert!(coder.is_empty());
    assert_eq!(coder.decode_iid_symbols(3, &model), vec![-3; 3]);
    assert!(coder.is_empty());

    let mut coder = AnsCoder::<u32, u64>::from_compressed(vec![7, 8, 9]).unwrap();
    coder.encode_iid_symbols_reverse(&[-3; 50], &model).unwrap();
    assert_eq!(coder.get_compressed(), vec![7, 8, 9]);
}
