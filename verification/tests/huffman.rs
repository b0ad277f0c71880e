use constriction::symbol::huffman::{DecoderHuffmanTree, EncoderHuffmanTree};
use constriction::symbol::{DecodingError, EncodingError};

fn encode_all_symbols(tree: &EncoderHuffmanTree) -> Vec<String> {
    (0..tree.num_symbols())
        .map(|symbol| {
            tree.encode_symbol(symbol)
                .unwrap()
                .into_iter()
                .map(|bit| if bit { '1' } else { '0' })
                .collect::<String>()
        })
        .collect()
}

#[test]
fn encoder_huffman_tree() {
    let tree = EncoderHuffmanTree::from_probabilities::<u32>(&[1]);
    assert_eq!(tree.nodes(), &[0]);
    assert_eq!(encode_all_symbols(&tree), [""]);

    let tree = EncoderHuffmanTree::from_probabilities::<u32>(&[1, 2]);
    assert_eq!(tree.nodes(), &[4, 5, 0]);
    assert_eq!(encode_all_symbols(&tree), ["0", "1"]);

    let tree = EncoderHuffmanTree::from_probabilities::<u32>(&[2, 1]);
    assert_eq!(tree.nodes(), &[5, 4, 0]);
    assert_eq!(encode_all_symbols(&tree), ["1", "0"]);

    // Ties are broken by index.
    let tree = EncoderHuffmanTree::from_probabilities::<u32>(&[1, 1]);
    assert_eq!(tree.nodes(), &[4, 5, 0]);
    assert_eq!(encode_all_symbols(&tree), ["0", "1"]);

    let tree = EncoderHuffmanTree::from_probabilities::<u32>(&[2, 2, 4, 1, 1]);
    assert_eq!(tree.nodes(), &[12, 13, 15, 10, 11, 14, 16, 17, 0]);
    assert_eq!(encode_all_symbols(&tree), ["00", "01", "11", "100", "101"]);
}

fn test_decoding_all_symbols(decoder_tree: &DecoderHuffmanTree, encoder_tree: &EncoderHuffmanTree) {
    for symbol in 0..encoder_tree.num_symbols() {
        let codeword = encoder_tree.encode_symbol(symbol).unwrap();
        let (decoded, read) = decoder_tree.decode_symbol(&codeword).unwrap();
        assert_eq!(symbol, decoded);
        assert_eq!(read, codeword.len());
    }
}

#[test]
fn decoder_huffman_tree() {
    let tree = DecoderHuffmanTree::from_probabilities::<u32>(&[1]);
    assert!(tree.nodes().is_empty());
    test_decoding_all_symbols(&tree, &EncoderHuffmanTree::from_probabilities::<u32>(&[1]));

    let tree = DecoderHuffmanTree::from_probabilities::<u32>(&[1, 2]);
    assert_eq!(tree.nodes(), &[[0, 1]]);
    test_decoding_all_symbols(&tree, &EncoderHuffmanTree::from_probabilities::<u32>(&[0, 1]));

    let tree = DecoderHuffmanTree::from_probabilities::<u32>(&[2, 1]);
    assert_eq!(tree.nodes(), &[[1, 0]]);
    test_decoding_all_symbols(&tree, &EncoderHuffmanTree::from_probabilities::<u32>(&[2, 1]));

    // Ties are broken by index.
    let tree = DecoderHuffmanTree::from_probabilities::<u32>(&[1u32, 1]);
    assert_eq!(tree.nodes(), &[[0, 1]]);
    test_decoding_all_symbols(&tree, &EncoderHuffmanTree::from_probabilities::<u32>(&[1, 1]));

    let tree = DecoderHuffmanTree::from_probabilities::<u32>(&[2, 2, 4, 1, 1]);
    assert_eq!(tree.nodes(), &[[3, 4], [0, 1], [5, 2], [6, 7]]);
    test_decoding_all_symbols(
        &tree,
        &EncoderHuffmanTree::from_probabilities::<u32>(&[2, 2, 4, 1, 1]),
    );
}

#[test]
fn huffman_singleton_has_the_empty_codeword() {
    let encoder = EncoderHuffmanTree::from_probabilities::<u64>(&[1]);
    let decoder = DecoderHuffmanTree::from_probabilities::<u64>(&[1]);
    assert_eq!(encoder.num_symbols(), 1);
    assert_eq!(decoder.num_symbols(), 1);
    assert_eq!(encoder.encode_symbol(0), Ok(vec![]));
    assert_eq!(decoder.decode_symbol(&[]), Ok((0, 0)));
    assert_eq!(decoder.decode_symbol(&[true, false]), Ok((0, 0)));
}

#[test]
fn huffman_trees_from_merges() {
    let weights: [u32; 5] = [2, 2, 4, 1, 1];
    let decoder = DecoderHuffmanTree::from_probabilities::<u32>(&weights);
    let merges: Vec<[usize; 2]> = decoder.nodes().clone();
    assert_eq!(merges, vec![[3, 4], [0, 1], [5, 2], [6, 7]]);
    let encoder = EncoderHuffmanTree::from_merges(&merges).unwrap();
    assert_eq!(
        encoder.nodes(),
        EncoderHuffmanTree::from_probabilities::<u32>(&weights).nodes()
    );
    assert_eq!(encoder.nodes(), &vec![12, 13, 15, 10, 11, 14, 16, 17, 0]);
    let rebuilt = DecoderHuffmanTree::from_merges(merges.clone()).unwrap();
    assert_eq!(rebuilt.nodes(), &merges);
    for symbol in 0..5 {
        let bits = encoder.encode_symbol(symbol).unwrap();
        assert_eq!(rebuilt.decode_symbol(&bits), Ok((symbol, bits.len())));
    }

    // one symbol, no merge
    let encoder = EncoderHuffmanTree::from_merges(&[]).unwrap();
    assert_eq!(encoder.nodes(), &vec![0]);
    assert_eq!(encoder.encode_symbol(0), Ok(vec![]));
    let decoder = DecoderHuffmanTree::from_merges(vec![]).unwrap();
    assert_eq!(decoder.num_symbols(), 1);
    assert_eq!(decoder.decode_symbol(&[]), Ok((0, 0)));

    // a merge of a node that is not there yet
    assert!(EncoderHuffmanTree::from_merges(&[[0, 2]]).is_none());
    assert!(EncoderHuffmanTree::from_merges(&[[0, 1], [3, 2]]).is_some());
    assert!(EncoderHuffmanTree::from_merges(&[[0, 1], [4, 2]]).is_none());
    assert!(DecoderHuffmanTree::from_merges(vec![[2, 1]]).is_none());
    assert!(DecoderHuffmanTree::from_merges(vec![[0, 1], [2, 3]]).is_some());
    assert!(DecoderHuffmanTree::from_merges(vec![[0, 1], [2, 4]]).is_none());
}

#[test]
fn huffman_errors() {
    let encoder = EncoderHuffmanTree::from_probabilities::<u8>(&[2, 2, 4, 1, 1]);
    let decoder = DecoderHuffmanTree::from_probabilities::<u8>(&[2, 2, 4, 1, 1]);
    assert_eq!(encoder.encode_symbol(5), Err(EncodingError::ImpossibleSymbol));
    assert_eq!(decoder.decode_symbol(&[]), Err(DecodingError::OutOfCompressedData));
    assert_eq!(decoder.decode_symbol(&[true, false]), Err(DecodingError::OutOfCompressedData));
    // The decoder stops at the end of the first codeword.
    assert_eq!(decoder.decode_symbol(&[true, false, true, true]), Ok((4, 3)));
}

#[test]
fn huffman_code_is_a_prefix_code_that_decodes() {
    let weights: [u16; 12] = [5, 1, 1, 7, 3, 3, 3, 20, 0, 0, 9, 2];
    let encoder = EncoderHuffmanTree::from_probabilities(&weights);
    let decoder = DecoderHuffmanTree::from_probabilities(&weights);
    let codewords = (0..weights.len())
        .map(|symbol| encoder.encode_symbol(symbol).unwrap())
        .collect::<Vec<_>>();
    for (symbol, codeword) in codewords.iter().enumerate() {
        assert_eq!(decoder.decode_symbol(codeword), Ok((symbol, codeword.len())));
        for (other, other_codeword) in codewords.iter().enumerate() {
            if other != symbol {
                assert!(!other_codeword.starts_with(codeword));
            }
        }
    }
    // A heavier symbol never has a longer codeword than a lighter one.
    for a in 0..weights.len() {
        for b in 0..weights.len() {
            if weights[a] > weights[b] {
                assert!(codewords[a].len() <= codewords[b].len());
            }
        }
    }
    let copy = encoder.clone();
    assert_eq!(copy.nodes(), encoder.nodes());
    assert_eq!(decoder.clone().nodes(), decoder.nodes());
}
