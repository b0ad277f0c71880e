use constriction::bit_array::{div_pow2, mod_pow2, mul_add, mul_pow2_add, pow2_u128, BitArray};
use constriction::stream::models::{ContiguousCategorical, DecoderModel, EncoderModel};
use constriction::stream::queue::FrontendError;
use constriction::stream::EncoderFrontendError;

#[test]
fn table_model_rejects_bad_tables() {
    assert!(ContiguousCategorical::<8>::new(0, vec![0, 100, 256]).is_some());
    assert!(ContiguousCategorical::<8>::new(0, vec![0, 256]).is_some());
    assert!(ContiguousCategorical::<8>::new(0, vec![]).is_none());
    assert!(ContiguousCategorical::<8>::new(0, vec![0]).is_none());
    assert!(ContiguousCategorical::<8>::new(0, vec![1, 100, 256]).is_none());
    assert!(ContiguousCategorical::<8>::new(0, vec![0, 100, 255]).is_none());
    assert!(ContiguousCategorical::<8>::new(0, vec![0, 100, 100, 256]).is_none());
    assert!(ContiguousCategorical::<8>::new(0, vec![0, 100, 50, 256]).is_none());
    assert!(ContiguousCategorical::<8>::new(i32::MAX, vec![0, 100, 256]).is_none());
    assert!(ContiguousCategorical::<8>::new(i32::MAX - 1, vec![0, 100, 256]).is_some());
    assert!(ContiguousCategorical::<0>::new(0, vec![0, 1]).is_none());
    assert!(ContiguousCategorical::<64>::new(0, vec![0, 1]).is_none());
    assert!(ContiguousCategorical::<63>::new(0, vec![0, 1 << 63]).is_some());
}

#[test]
fn table_model_lookups() {
    let model = ContiguousCategorical::<8>::new(-2, vec![0, 10, 11, 200, 256]).unwrap();
    assert_eq!(model.left_cumulative_and_probability(&-3), None);
    assert_eq!(model.left_cumulative_and_probability(&-2), Some((0, 10)));
    assert_eq!(model.left_cumulative_and_probability(&-1), Some((10, 1)));
    assert_eq!(model.left_cumulative_and_probability(&0), Some((11, 189)));
    assert_eq!(model.left_cumulative_and_probability(&1), Some((200, 56)));
    assert_eq!(model.left_cumulative_and_probability(&2), None);
    assert_eq!(model.quantile_function(0), (-2, 0, 10));
    assert_eq!(model.quantile_function(9), (-2, 0, 10));
    assert_eq!(model.quantile_function(10), (-1, 10, 1));
    assert_eq!(model.quantile_function(11), (0, 11, 189));
    assert_eq!(model.quantile_function(199), (0, 11, 189));
    assert_eq!(model.quantile_function(200), (1, 200, 56));
    assert_eq!(model.quantile_function(255), (1, 200, 56));
    for quantile in 0..256 {
        let (symbol, left, probability) = model.quantile_function(quantile);
        assert!(left <= quantile && quantile < left + probability);
        assert_eq!(model.left_cumulative_and_probability(&symbol), Some((left, probability)));
    }
}

#[test]
fn bit_arrays() {
    assert_eq!(<u8 as BitArray>::bits(), 8);
    assert_eq!(<u16 as BitArray>::bits(), 16);
    assert_eq!(<u32 as BitArray>::bits(), 32);
    assert_eq!(<u64 as BitArray>::bits(), 64);
    assert_eq!(<u8 as BitArray>::from_u64(200).to_u64(), 200);
    assert_eq!(<u16 as BitArray>::from_u64(0xfffe), 0xfffe);
    assert_eq!(0xdead_beefu32.to_u64(), 0xdead_beef);
    assert_eq!(<u64 as BitArray>::from_u64(u64::MAX), u64::MAX);
}

#[test]
fn powers_of_two() {
    assert_eq!(pow2_u128(0), 1);
    assert_eq!(pow2_u128(63), 1 << 63);
    assert_eq!(pow2_u128(64), 1 << 64);
    assert_eq!(div_pow2(0xabcd, 8), 0xab);
    assert_eq!(div_pow2(u64::MAX, 64), 0);
    assert_eq!(mod_pow2(0xabcd, 8), 0xcd);
    assert_eq!(mod_pow2(u64::MAX, 64), u64::MAX);
    assert_eq!(mod_pow2(5, 0), 0);
    assert_eq!(mul_add(u64::MAX, u64::MAX, u64::MAX), u128::MAX - u64::MAX as u128);
    assert_eq!(mul_pow2_add(0xab, 8, 0xcd), 0xabcd);
    assert_eq!(mul_pow2_add(0, 64, 7), 7);
}

#[test]
fn errors_in_words() {
    assert_eq!(
        EncoderFrontendError::ImpossibleSymbol.message(),
        "Tried to encode symbol that has zero probability under the used entropy model."
    );
    assert_eq!(FrontendError::InvalidData.message(), "Tried to decode invalid compressed data.");
    assert_eq!(
        constriction::stream::chain::FrontendError::OutOfData.message(),
        "Out of data."
    );
}
