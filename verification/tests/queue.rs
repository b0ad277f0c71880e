use constriction::bit_array::BitArray;
use constriction::stream::models::ContiguousCategorical;
use rand_xoshiro::rand_core::{RngCore, SeedableRng};
use rand_xoshiro::Xoshiro256StarStar;
use statrs::distribution::{ContinuousCDF, Normal};
use constriction::backends::{
    BoundedWriteError, Cursor, FallibleCallbackWriteWords, InfallibleCallbackWriteWords,
};
use constriction::stream::models::{DecoderModel, EncoderModel};
use constriction::stream::queue::{CoderState, FrontendError, RangeDecoder, RangeEncoder};
use constriction::stream::{CoderError, EncoderFrontendError};

/// The word with the low bits of `x`.
fn word_of<W: BitArray>(x: u64) -> W {
    let bits = W::bits();
    if bits >= 64 {
        W::from_u64(x)
    } else {
        W::from_u64(x & ((1u64 << bits) - 1))
    }
}

/// A Gaussian with the given mean and standard deviation, quantized to the
/// integers from `min` to `max`: every integer keeps one unit of
/// probability, and the rest of the mass follows the Gaussian.
fn leaky_gaussian<const PRECISION: usize>(
    min: i32,
    max: i32,
    mean: f64,
    std_dev: f64,
) -> ContiguousCategorical<PRECISION> {
    let dist = Normal::new(mean, std_dev).unwrap();
    let total: u64 = 1u64 << PRECISION;
    let free_weight = ((total - 1) - (max - min) as u64) as f64;
    let count = (max - min + 1) as usize;
    let mut cdf = Vec::with_capacity(count + 1);
    cdf.push(0u64);
    for i in 1..count {
        let symbol = min + i as i32;
        let non_leaky = (free_weight * dist.cdf(symbol as f64 - 0.5)) as u64;
        cdf.push(non_leaky + i as u64);
    }
    cdf.push(total);
    ContiguousCategorical::new(min, cdf).unwrap()
}

/// A categorical model over the symbols `0, 1, ...` whose probabilities
/// follow `probabilities` as closely as the precision allows while every
/// symbol keeps at least one unit of probability.
fn categorical<const PRECISION: usize>(probabilities: &[f64]) -> ContiguousCategorical<PRECISION> {
    let total: u64 = 1u64 << PRECISION;
    let sum: f64 = probabilities.iter().sum();
    let mut weights: Vec<u64> = probabilities
        .iter()
        .map(|p| ((p / sum * total as f64).round() as u64).max(1))
        .collect();
    loop {
        let current: u64 = weights.iter().sum();
        if current == total {
            break;
        }
        let mut largest = 0;
        for i in 0..weights.len() {
            if weights[i] > weights[largest] {
                largest = i;
            }
        }
        if current > total {
            let excess = (current - total).min(weights[largest] - 1);
            weights[largest] -= excess;
        } else {
            weights[largest] += total - current;
        }
    }
    let mut cdf = Vec::with_capacity(weights.len() + 1);
    let mut accumulated = 0u64;
    cdf.push(0u64);
    for weight in weights {
        accumulated += weight;
        cdf.push(accumulated);
    }
    ContiguousCategorical::new(0, cdf).unwrap()
}

#[test]
fn queue_compress_none() {
    let encoder = RangeEncoder::<u32, u64>::new();
    assert!(encoder.is_empty());
    let compressed = encoder.into_compressed().unwrap();
    assert!(compressed.is_empty());

    let decoder = RangeDecoder::<u32, u64, Cursor<Vec<u32>>>::from_compressed(compressed).unwrap();
    assert!(decoder.maybe_empty());
}

#[test]
fn compress_one() {
    generic_compress_few(std::iter::once(5), 1)
}

#[test]
fn compress_two() {
    generic_compress_few([2, 8].iter().cloned(), 1)
}

#[test]
fn compress_ten() {
    generic_compress_few(0..10, 2)
}

#[test]
fn compress_twenty() {
    generic_compress_few(-10..10, 4)
}

fn generic_compress_few<I>(symbols: I, expected_size: usize)
where
    I: IntoIterator<Item = i32>,
    I::IntoIter: Clone,
{
    let symbols = symbols.into_iter();

    let mut encoder = RangeEncoder::<u32, u64>::new();
    let model = leaky_gaussian::<24>(-127, 127, 3.2, 5.1);

    let encoded = symbols.clone().collect::<Vec<_>>();
    encoder.encode_iid_symbols(&encoded, &model).unwrap();
    let compressed = encoder.into_compressed().unwrap();
    assert_eq!(compressed.len(), expected_size);

    let mut decoder =
        RangeDecoder::<u32, u64, Cursor<&Vec<u32>>>::from_compressed(&compressed).unwrap();
    for symbol in symbols {
        assert_eq!(decoder.decode_symbol(&model).unwrap(), symbol);
    }
    assert!(decoder.maybe_empty());
}

fn generic_compress_many<Word, State, const PRECISION: usize>()
where
    Word: BitArray,
    State: BitArray,
{
    const AMT: usize = 1000;
    let mut symbols_gaussian = Vec::with_capacity(AMT);
    let mut means = Vec::with_capacity(AMT);
    let mut stds = Vec::with_capacity(AMT);

    let mut rng = Xoshiro256StarStar::seed_from_u64(1234);
    for _ in 0..AMT {
        let mean = (200.0 / u32::MAX as f64) * rng.next_u32() as f64 - 100.0;
        let std_dev = (10.0 / u32::MAX as f64) * rng.next_u32() as f64 + 0.001;
        let quantile = (rng.next_u32() as f64 + 0.5) / (1u64 << 32) as f64;
        let dist = Normal::new(mean, std_dev).unwrap();
        let symbol = std::cmp::max(
            -127,
            std::cmp::min(127, dist.inverse_cdf(quantile).round() as i32),
        );

        symbols_gaussian.push(symbol);
        means.push(mean);
        stds.push(std_dev);
    }

    let hist = [
        1u32, 186545, 237403, 295700, 361445, 433686, 509456, 586943, 663946, 737772, 1657269,
        896675, 922197, 930672, 916665, 0, 0, 0, 0, 0, 723031, 650522, 572300, 494702, 418703,
        347600, 1, 283500, 226158, 178194, 136301, 103158, 76823, 55540, 39258, 27988, 54269,
    ];
    let categorical_probabilities = hist.iter().map(|&x| x as f64).collect::<Vec<_>>();
    let categorical = categorical::<PRECISION>(&categorical_probabilities);
    let mut symbols_categorical = Vec::with_capacity(AMT);
    let max_probability = (1u64 << PRECISION) - 1;
    for _ in 0..AMT {
        let quantile = rng.next_u32() as u64 & max_probability;
        let symbol = categorical.quantile_function(quantile).0;
        symbols_categorical.push(symbol);
    }

    let mut encoder = RangeEncoder::<Word, State>::new();

    encoder
        .encode_iid_symbols(&symbols_categorical, &categorical)
        .unwrap();

    let items = symbols_gaussian
        .iter()
        .zip(&means)
        .zip(&stds)
        .map(|((&symbol, &mean), &std_dev)| {
            (symbol, leaky_gaussian::<PRECISION>(-127, 127, mean, std_dev))
        })
        .collect::<Vec<_>>();
    encoder.encode_symbols(&items).unwrap();

    let mut decoder = encoder.into_decoder().unwrap();

    let reconstructed_categorical = decoder.decode_iid_symbols(AMT, &categorical).unwrap();
    let models = means
        .iter()
        .zip(&stds)
        .map(|(&mean, &std_dev)| leaky_gaussian::<PRECISION>(-127, 127, mean, std_dev))
        .collect::<Vec<_>>();
    let reconstructed_gaussian = decoder.decode_symbols(&models).unwrap();

    assert!(decoder.maybe_empty());

    assert_eq!(symbols_categorical, reconstructed_categorical);
    assert_eq!(symbols_gaussian, reconstructed_gaussian);
}

#[test]
fn compress_many_u32_u64_32() {
    generic_compress_many::<u32, u64, 32>();
}

#[test]
fn compress_many_u32_u64_24() {
    generic_compress_many::<u32, u64, 24>();
}

#[test]
fn compress_many_u32_u64_16() {
    generic_compress_many::<u32, u64, 16>();
}

#[test]
fn compress_many_u32_u64_8() {
    generic_compress_many::<u32, u64, 8>();
}

#[test]
fn compress_many_u16_u64_16() {
    generic_compress_many::<u16, u64, 16>();
}

#[test]
fn compress_many_u16_u64_12() {
    generic_compress_many::<u16, u64, 12>();
}

#[test]
fn compress_many_u16_u64_8() {
    generic_compress_many::<u16, u64, 8>();
}

#[test]
fn compress_many_u8_u64_8() {
    generic_compress_many::<u8, u64, 8>();
}

#[test]
fn compress_many_u16_u32_16() {
    generic_compress_many::<u16, u32, 16>();
}

#[test]
fn compress_many_u16_u32_12() {
    generic_compress_many::<u16, u32, 12>();
}

#[test]
fn compress_many_u16_u32_8() {
    generic_compress_many::<u16, u32, 8>();
}

#[test]
fn compress_many_u8_u32_8() {
    generic_compress_many::<u8, u32, 8>();
}

#[test]
fn compress_many_u8_u16_8() {
    generic_compress_many::<u8, u16, 8>();
}

#[test]
fn seek() {
    const NUM_CHUNKS: usize = 100;
    const SYMBOLS_PER_CHUNK: usize = 100;

    let model = leaky_gaussian::<24>(-100, 100, 0.0, 10.0);

    let mut encoder = RangeEncoder::<u32, u64>::new();

    let mut rng = Xoshiro256StarStar::seed_from_u64(123);
    let mut symbols = Vec::with_capacity(NUM_CHUNKS);
    let mut jump_table = Vec::with_capacity(NUM_CHUNKS);

    for _ in 0..NUM_CHUNKS {
        jump_table.push(encoder.pos_and_state());
        let chunk = (0..SYMBOLS_PER_CHUNK)
            .map(|_| model.quantile_function((rng.next_u32() % (1 << 24)) as u64).0)
            .collect::<Vec<_>>();
        encoder.encode_iid_symbols(&chunk, &model).unwrap();
        symbols.push(chunk);
    }
    let final_pos_and_state = encoder.pos_and_state();

    let mut decoder = encoder.decoder();

    // Verify that decoding leads to the same positions and states.
    for (chunk, &pos_and_state) in symbols.iter().zip(&jump_table) {
        assert_eq!(decoder.pos_and_state(), pos_and_state);
        let decoded = decoder.decode_iid_symbols(SYMBOLS_PER_CHUNK, &model).unwrap();
        assert_eq!(&decoded, chunk);
    }
    assert_eq!(decoder.pos_and_state(), final_pos_and_state);
    assert!(decoder.maybe_empty());

    // Seek to some random offsets in the jump table and decode one chunk
    for i in 0..100 {
        let chunk_index = if i == 3 {
            // Make sure we test jumping to beginning at least once.
            0
        } else {
            rng.next_u32() as usize % NUM_CHUNKS
        };

        let pos_and_state = jump_table[chunk_index];
        decoder.seek(pos_and_state).unwrap();
        let decoded = decoder.decode_iid_symbols(SYMBOLS_PER_CHUNK, &model).unwrap();
        assert_eq!(&decoded, &symbols[chunk_index])
    }

    // Test jumping to end (but first make sure we're not already at the end).
    decoder.seek(jump_table[0]).unwrap();
    assert!(!decoder.maybe_empty());
    decoder.seek(final_pos_and_state).unwrap();
    assert!(decoder.maybe_empty());
}

#[test]
fn range_encoder_writes_to_any_backend() {
    let model = leaky_gaussian::<24>(-100, 100, 0.0, 10.0);
    let mut rng = Xoshiro256StarStar::seed_from_u64(7);
    let symbols = (0..200)
        .map(|_| model.quantile_function((rng.next_u32() % (1 << 24)) as u64).0)
        .collect::<Vec<_>>();
    let mut encoder = RangeEncoder::<u32, u64>::new();
    encoder.encode_iid_symbols(&symbols, &model).unwrap();
    let expected = encoder.into_compressed().unwrap();
    assert!(expected.len() > 10);

    // A buffer of just the right size.
    let buffer = Cursor::new_at_write_beginning(vec![0u32; expected.len()]);
    let mut encoder = RangeEncoder::<u32, u64, Cursor<Vec<u32>>>::with_backend(buffer);
    encoder.encode_iid_symbols(&symbols, &model).unwrap();
    assert_eq!(encoder.bulk().buf()[..5], expected[..5]);
    let sealed = encoder.into_compressed().unwrap();
    assert_eq!(sealed.into_buf_and_pos(), (expected.clone(), expected.len()));

    // A buffer that is one word short.
    let buffer = Cursor::new_at_write_beginning(vec![0u32; expected.len() - 1]);
    let mut encoder = RangeEncoder::<u32, u64, Cursor<Vec<u32>>>::with_backend(buffer);
    let failure = match encoder.encode_iid_symbols(&symbols, &model) {
        Ok(()) => encoder.into_compressed().err(),
        Err(CoderError::BackendError(error)) => Some(error),
        Err(CoderError::FrontendError(_)) => None,
    };
    assert_eq!(failure, Some(BoundedWriteError::OutOfSpace));

    // A callback that collects the words.
    let mut taken = Vec::new();
    {
        let sink = InfallibleCallbackWriteWords::new(|word: u32| taken.push(word));
        let mut encoder = RangeEncoder::<u32, u64, _>::with_backend(sink);
        encoder.encode_iid_symbols(&symbols, &model).unwrap();
        encoder.into_compressed().unwrap();
    }
    assert_eq!(taken, expected);

    // A callback that fails.
    let sink = FallibleCallbackWriteWords::new(|word: u32| if word % 2 == 0 { Ok(()) } else { Err(word) });
    let mut encoder = RangeEncoder::<u32, u64, _>::with_backend(sink);
    let odd = *expected.iter().find(|word| *word % 2 == 1).unwrap();
    let failure = match encoder.encode_iid_symbols(&symbols, &model) {
        Ok(()) => encoder.into_compressed().err(),
        Err(CoderError::BackendError(error)) => Some(error),
        Err(CoderError::FrontendError(_)) => None,
    };
    assert_eq!(failure, Some(odd));
}

#[test]
fn range_encoder_refuses_impossible_symbol() {
    let model = leaky_gaussian::<24>(-10, 10, 0.0, 3.0);
    let mut encoder = RangeEncoder::<u32, u64>::new();
    assert_eq!(
        encoder.encode_symbol(&-11, &model),
        Err(CoderError::FrontendError(EncoderFrontendError::ImpossibleSymbol))
    );
    assert!(encoder.is_empty());
}

#[test]
fn range_decoder_detects_invalid_data() {
    // The interval of all states but the highest has the scale
    // 2^(64 - 24) - 1, so that the highest states give a quantile of 2^24.
    let model = leaky_gaussian::<24>(-10, 10, 0.0, 3.0);
    let compressed = vec![0xffff_ffffu32, 0xffff_ffff];
    let mut decoder = RangeDecoder::<u32, u64, Cursor<Vec<u32>>>::from_compressed(compressed).unwrap();
    assert_eq!(
        decoder.decode_symbol(&model),
        Err(CoderError::FrontendError(FrontendError::InvalidData))
    );
}

#[test]
fn range_decoder_aligns_short_input_to_the_left() {
    let model = categorical::<8>(&[0.25, 0.25, 0.25, 0.25]);
    // One word of two: the point is 0xc0 followed by 24 zero bits, which
    // lies in the last quarter of the states.
    let mut decoder = RangeDecoder::<u8, u32, Cursor<Vec<u8>>>::from_compressed(vec![0xc0]).unwrap();
    assert_eq!(decoder.decode_symbol(&model).unwrap(), 3);
    let mut decoder = RangeDecoder::<u8, u32, Cursor<Vec<u8>>>::from_compressed(vec![0x40]).unwrap();
    assert_eq!(decoder.decode_symbol(&model).unwrap(), 1);
}

#[test]
fn range_coder_exact_words() {
    // Words of 8 bits, states of 32 bits, four symbols of probability 1/4.
    // The first interval has 2^32 - 1 states, so that the scale is
    // 2^24 - 1: the symbol `s` narrows the interval to the 64 * scale
    // states from `s * 64 * scale` on, and sealing gives the highest word
    // of the last state of the interval.
    let model = categorical::<8>(&[0.25, 0.25, 0.25, 0.25]);
    for (symbol, word, lower_word) in [(0, 0x3fu8, 0x00u8), (1, 0x7f, 0x3f), (3, 0xff, 0xbf)] {
        let mut encoder = RangeEncoder::<u8, u32>::new();
        encoder.encode_symbol(&symbol, &model).unwrap();
        assert!(!encoder.is_empty());
        assert_eq!(encoder.state().range(), ((1u32 << 24) - 1) * 64);
        assert_eq!(encoder.state().lower(), ((1u32 << 24) - 1) * 64 * symbol as u32);
        assert_eq!(encoder.pos(), 0);
        assert!(encoder.bulk().is_empty());
        assert_eq!(encoder.num_words(), 1);
        assert_eq!(encoder.num_bits(), 8);
        assert_eq!(encoder.iter_compressed(), vec![lower_word]);
        assert_eq!(encoder.get_compressed(), vec![word]);
        assert_eq!(encoder.get_compressed(), vec![word]);
        let compressed = encoder.into_compressed().unwrap();
        assert_eq!(compressed, vec![word]);
        let mut decoder = RangeDecoder::<u8, u32, Cursor<Vec<u8>>>::from_compressed(compressed).unwrap();
        assert_eq!(decoder.pos(), 0);
        assert_eq!(decoder.decode_symbol(&model).unwrap(), symbol);
        assert_eq!(decoder.state().range(), ((1u32 << 24) - 1) * 64);
    }
}

#[test]
fn range_decoder_position_counts_words_past_the_end() {
    let model = categorical::<8>(&[0.25, 0.25, 0.25, 0.25]);
    let symbols = [0, 1, 2, 3, 3, 2, 1, 0, 1, 1, 2, 2];
    let mut encoder = RangeEncoder::<u8, u32>::new();
    let mut positions = Vec::new();
    for symbol in &symbols {
        positions.push(encoder.pos_and_state());
        encoder.encode_symbol(symbol, &model).unwrap();
    }
    let end = encoder.pos_and_state();
    let mut decoder = encoder.into_decoder().unwrap();
    for (symbol, position) in symbols.iter().zip(&positions) {
        assert_eq!(decoder.pos_and_state(), *position);
        assert_eq!(decoder.decode_symbol(&model).unwrap(), *symbol);
    }
    assert_eq!(decoder.pos_and_state(), end);
    decoder.seek(positions[5]).unwrap();
    assert_eq!(decoder.pos_and_state(), positions[5]);
    assert_eq!(decoder.decode_iid_symbols(7, &model).unwrap(), symbols[5..]);
    decoder.seek(end).unwrap();
    assert_eq!(decoder.pos_and_state(), end);
    assert!(decoder.maybe_empty());
    assert_eq!(decoder.seek((end.0 + 5, end.1)), Err(()));
    let (backend, state) = decoder.into_raw_parts();
    assert_eq!(state, end.1);
    assert_eq!(backend.into_buf_and_pos().1, end.0 + 1);
}

#[test]
fn range_encoder_holds_back_many_words_and_resolves() {
    // Three symbols of about a third each. The symbols are chosen such
    // that the interval always holds the state 0x8000_0000: the first word
    // that is shifted out is 0x7f if the final interval lies below that
    // state and 0x80 if it lies above, and all words after it are 0xff or
    // 0x00. The encoder has to hold them all back until a symbol settles
    // the matter.
    let cdf = [0u64, 85, 171, 256];
    let model = ContiguousCategorical::<8>::new(0, cdf.to_vec()).unwrap();
    for carry in [false, true] {
        let mut encoder = RangeEncoder::<u8, u32>::new();
        let mut symbols = Vec::new();
        // The state that the interval has to hold, as the encoder sees it:
        // once a word is held back it is the first state beyond the top.
        let mut target: u64 = 0x8000_0000;
        let settling = if carry { 2 } else { 0 };
        let held_back = loop {
            let held_back = encoder.num_held_back();
            let lower = encoder.state().lower() as u64;
            let scale = (encoder.state().range() as u64) >> 8;
            let settles = if carry {
                lower + scale * cdf[2] >= target
            } else {
                lower + scale * cdf[1] < target
            };
            if held_back >= 6 && settles {
                break held_back;
            }
            let symbol = (0..3)
                .find(|&s| lower + scale * cdf[s] < target && target <= lower + scale * cdf[s + 1])
                .unwrap();
            let narrowed = lower + scale * cdf[symbol];
            if scale * (cdf[symbol + 1] - cdf[symbol]) < 1 << 24 {
                target = (target - ((narrowed >> 24) << 24)) << 8;
            }
            encoder.encode_symbol(&(symbol as i32), &model).unwrap();
            symbols.push(symbol as i32);
            assert!(encoder.bulk().is_empty());
        };
        assert_eq!(target, 1 << 32);
        assert_eq!(encoder.pos(), held_back);
        assert_eq!(encoder.num_words(), 1);
        let mut below = vec![0xffu8; held_back];
        below[0] = 0x7f;
        let mut above = vec![0u8; held_back];
        above[0] = 0x80;

        // Sealing the encoder as it is writes the words held back.
        let sealed = encoder.get_compressed();
        assert_eq!(sealed.len(), held_back + 1);
        assert!(sealed[..held_back] == below[..] || sealed[..held_back] == above[..]);
        assert!(encoder.bulk().is_empty());
        assert_eq!(encoder.num_held_back(), held_back);

        // A symbol whose part of the interval lies on one side settles it.
        encoder.encode_symbol(&settling, &model).unwrap();
        symbols.push(settling);
        assert_eq!(encoder.num_held_back(), 0);
        if carry {
            assert_eq!(encoder.bulk()[..held_back], above[..]);
        } else {
            assert_eq!(encoder.bulk()[..held_back], below[..]);
        }

        for symbol in [1, 0, 2, 1] {
            encoder.encode_symbol(&symbol, &model).unwrap();
            symbols.push(symbol);
        }
        let mut decoder = encoder.into_decoder().unwrap();
        assert_eq!(decoder.decode_iid_symbols(symbols.len(), &model).unwrap(), symbols);
        assert!(decoder.maybe_empty());
    }
}

#[test]
fn range_coder_smallest_precision() {
    let model = ContiguousCategorical::<1>::new(0, vec![0, 1, 2]).unwrap();
    let mut rng = Xoshiro256StarStar::seed_from_u64(99);
    let symbols = (0..500).map(|_| (rng.next_u32() & 1) as i32).collect::<Vec<_>>();
    let mut encoder = RangeEncoder::<u8, u16>::new();
    encoder.encode_iid_symbols(&symbols, &model).unwrap();
    let compressed = encoder.get_compressed();
    // One bit per symbol, and the word that sealing adds.
    assert!(compressed.len() == 63 || compressed.len() == 64);
    let mut decoder = encoder.into_decoder().unwrap();
    assert_eq!(decoder.decode_iid_symbols(symbols.len(), &model).unwrap(), symbols);
    assert!(decoder.maybe_empty());
}

#[test]
fn range_coder_state_from_parts() {
    assert!(CoderState::<u32, u64>::new(5, 1 << 32).is_ok());
    assert!(CoderState::<u32, u64>::new(5, (1 << 32) - 1).is_err());
    assert!(CoderState::<u32, u64>::new(u64::MAX, 0).is_err());
    let state = CoderState::<u8, u16>::new(7, 0x100).unwrap();
    assert_eq!((state.lower(), state.range()), (7, 0x100));
    assert_eq!(state, state.clone());
    let mut decoder = RangeDecoder::<u8, u16, Cursor<Vec<u8>>>::from_compressed(vec![1, 2, 3]).unwrap();
    decoder.seek((1, state)).unwrap();
    assert_eq!(decoder.state(), state);
    assert_eq!(decoder.pos(), 1);
}

#[test]
fn range_coder_certain_symbol_from_empty_stream() {
    let model = ContiguousCategorical::<24>::new(7, vec![0, 1 << 24]).unwrap();
    assert_eq!(model.left_cumulative_and_probability(&7), Some((0, 1 << 24)));
    let mut decoder = RangeDecoder::<u32, u64, Cursor<Vec<u32>>>::from_compressed(vec![]).unwrap();
    assert_eq!(decoder.decode_iid_symbols(5, &model).unwrap(), vec![7; 5]);

    let mut encoder = RangeEncoder::<u32, u64>::new();
    encoder.encode_iid_symbols(&[7; 100], &model).unwrap();
    assert!(encoder.bulk().is_empty());
    // sealing tells the interval in one word
    assert_eq!(encoder.num_words(), 1);
    let compressed = encoder.into_compressed().unwrap();
    assert_eq!(compressed.len(), 1);
    let mut decoder = RangeDecoder::<u32, u64, Cursor<Vec<u32>>>::from_compressed(compressed).unwrap();
    assert_eq!(decoder.decode_iid_symbols(100, &model).unwrap(), vec![7; 100]);
}

#[test]
fn range_encoder_succeeds_where_the_backend_has_room() {
    let model = categorical::<24>(&[0.5, 0.25, 0.25]);
    // room for one word: no word is held back, so one symbol goes in
    let buffer = Cursor::new_at_write_beginning(vec![0u32; 1]);
    let mut encoder = RangeEncoder::<u32, u64, Cursor<Vec<u32>>>::with_backend(buffer);
    assert_eq!(encoder.num_held_back(), 0);
    assert!(encoder.encode_symbol(&1, &model).is_ok());
    // and sealing takes the one word that is left
    let sealed = encoder.into_compressed().unwrap();
    let (words, pos) = sealed.into_buf_and_pos();
    assert_eq!(pos, 1);
    let mut reference = RangeEncoder::<u32, u64>::new();
    reference.encode_symbol(&1, &model).unwrap();
    assert_eq!(words, reference.into_compressed().unwrap());

    // no room at all: sealing fails once something was encoded
    let buffer = Cursor::new_at_write_beginning(Vec::<u32>::new());
    let mut encoder = RangeEncoder::<u32, u64, Cursor<Vec<u32>>>::with_backend(buffer);
    encoder.encode_symbol(&1, &model).unwrap();
    assert_eq!(encoder.into_compressed().err(), Some(BoundedWriteError::OutOfSpace));
}

#[test]
fn range_encoder_clear() {
    let model = leaky_gaussian::<24>(-100, 100, 0.0, 10.0);
    let mut encoder = RangeEncoder::<u32, u64>::new();
    encoder.encode_iid_symbols(&[1, 2, 3, 4, 5, 6, 7, 8, 9], &model).unwrap();
    assert!(!encoder.is_empty());
    encoder.clear();
    assert!(encoder.is_empty());
    assert_eq!(encoder.num_words(), 0);
}
