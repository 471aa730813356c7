use huffman::{
    build_huffman_from_frequencies, build_table, char_slice_to_string, char_vec_to_string,
    code_to_string, get_frequencies, CodeTable, FreqTable, HuffmanError, HuffmanTree, Node,
};

fn sample_frequencies() -> FreqTable {
    let mut frequencies = FreqTable::new();
    frequencies.insert('f', 5);
    frequencies.insert('e', 9);
    frequencies.insert('c', 12);
    frequencies.insert('b', 13);
    frequencies.insert('d', 16);
    frequencies.insert('a', 45);
    frequencies
}

#[test]
fn test_build_huffman_from_frequencies() {
    let frequencies = sample_frequencies();
    let huffman_tree = build_huffman_from_frequencies(&frequencies);

    let f_code = huffman_tree.get_code('f').unwrap();
    let e_code = huffman_tree.get_code('e').unwrap();
    let c_code = huffman_tree.get_code('c').unwrap();
    let b_code = huffman_tree.get_code('b').unwrap();
    let d_code = huffman_tree.get_code('d').unwrap();
    let a_code = huffman_tree.get_code('a').unwrap();

    assert_eq!(f_code, &[true, true, false, false]);
    assert_eq!(e_code, &[true, true, false, true]);
    assert_eq!(c_code, &[true, false, false]);
    assert_eq!(b_code, &[true, false, true]);
    assert_eq!(d_code, &[true, true, true]);
    assert_eq!(a_code, &[false]);
}

#[test]
fn test_round_trip() {
    let chars = ['a', 'a', 'b', 'c', 'd', 'd', 'd', 'e', 'e', 'd'];
    let huffman_tree = HuffmanTree::new(&chars).unwrap();
    let encoded = huffman_tree.encode(&chars).unwrap();
    let decoded = huffman_tree.decode(&encoded).unwrap();
    assert_eq!(decoded, chars.to_vec());
}

#[test]
fn test_single_symbol_round_trip() {
    let chars = ['z', 'z', 'z'];
    let huffman_tree = HuffmanTree::new(&chars).unwrap();
    let z_code = huffman_tree.get_code('z').unwrap();
    assert!(z_code.len() >= 1);
    assert_eq!(z_code, &[false]);
    let encoded = huffman_tree.encode(&chars).unwrap();
    assert_eq!(encoded, vec![false, false, false]);
    let decoded = huffman_tree.decode(&encoded).unwrap();
    assert_eq!(decoded, chars.to_vec());

    let one = ['q'];
    let single = HuffmanTree::new(&one).unwrap();
    let encoded_one = single.encode(&one).unwrap();
    assert_eq!(encoded_one, vec![false]);
    assert_eq!(single.decode(&encoded_one).unwrap(), one.to_vec());
}

#[test]
fn test_unknown_symbol() {
    let chars = ['a', 'b', 'a'];
    let huffman_tree = HuffmanTree::new(&chars).unwrap();
    let result = huffman_tree.encode(&['a', 'x', 'b']);
    assert!(matches!(result, Err(HuffmanError::UnknownSymbol)));
}

#[test]
fn test_truncated_stream() {
    let frequencies = sample_frequencies();
    let huffman_tree = build_huffman_from_frequencies(&frequencies);
    let encoded = huffman_tree.encode(&['f']).unwrap();
    assert_eq!(encoded.len(), 4);
    let truncated: Vec<bool> = encoded[..2].to_vec();
    let result = huffman_tree.decode(&truncated);
    assert!(matches!(result, Err(HuffmanError::TruncatedCode)));
}

#[test]
fn test_empty_input() {
    let empty: [char; 0] = [];
    assert!(matches!(
        HuffmanTree::new(&empty),
        Err(HuffmanError::EmptyInput)
    ));
    assert!(matches!(
        get_frequencies(&empty),
        Err(HuffmanError::EmptyInput)
    ));
}

#[test]
fn test_get_frequencies_counts() {
    let frequencies = get_frequencies(&['a', 'b', 'a', 'a', 'b']).unwrap();
    assert_eq!(frequencies.get('a'), Some(3));
    assert_eq!(frequencies.get('b'), Some(2));
    assert_eq!(frequencies.get('c'), None);
}

#[test]
fn test_prefix_free() {
    let frequencies = sample_frequencies();
    let huffman_tree = build_huffman_from_frequencies(&frequencies);
    let symbols = ['a', 'b', 'c', 'd', 'e', 'f'];
    for &x in &symbols {
        for &y in &symbols {
            if x != y {
                let cx = huffman_tree.get_code(x).unwrap();
                let cy = huffman_tree.get_code(y).unwrap();
                assert!(!cy.starts_with(cx.as_slice()), "{x} is a prefix of {y}");
            }
        }
    }
}

#[test]
fn test_optimal_weighted_length() {
    // For this distribution the optimal weighted length is
    // 45*1 + 12*3 + 13*3 + 16*3 + 5*4 + 9*4 = 224.
    let frequencies = sample_frequencies();
    let huffman_tree = build_huffman_from_frequencies(&frequencies);
    let pairs = [('f', 5), ('e', 9), ('c', 12), ('b', 13), ('d', 16), ('a', 45)];
    let mut total: usize = 0;
    for &(symbol, weight) in &pairs {
        total += huffman_tree.get_code(symbol).unwrap().len() * weight;
    }
    assert_eq!(total, 224);

    // A small distribution: {a:1, b:1, c:2} has optimal weighted length 6.
    let mut small = FreqTable::new();
    small.insert('a', 1);
    small.insert('b', 1);
    small.insert('c', 2);
    let small_tree = build_huffman_from_frequencies(&small);
    let small_total = small_tree.get_code('a').unwrap().len()
        + small_tree.get_code('b').unwrap().len()
        + small_tree.get_code('c').unwrap().len() * 2;
    assert_eq!(small_total, 6);
}

#[test]
fn test_highest_frequency_gets_shortest_code() {
    let frequencies = sample_frequencies();
    let huffman_tree = build_huffman_from_frequencies(&frequencies);
    let a_len = huffman_tree.get_code('a').unwrap().len();
    assert_eq!(a_len, 1);
    for symbol in ['b', 'c', 'd', 'e', 'f'] {
        let len = huffman_tree.get_code(symbol).unwrap().len();
        assert!(a_len < len);
        assert!((3..=4).contains(&len));
    }
}

#[test]
fn test_round_trip_sample_frequencies() {
    let frequencies = sample_frequencies();
    let huffman_tree = build_huffman_from_frequencies(&frequencies);
    let message = ['a', 'b', 'a', 'c', 'a', 'd', 'f', 'e', 'a', 'a'];
    let encoded = huffman_tree.encode(&message).unwrap();
    let decoded = huffman_tree.decode(&encoded).unwrap();
    assert_eq!(decoded, message.to_vec());
}

#[test]
fn test_build_table_two_leaves() {
    let node = Node::Internal {
        frequency: 3,
        left: Box::new(Node::Leaf { symbol: 'a', frequency: 1 }),
        right: Box::new(Node::Leaf { symbol: 'b', frequency: 2 }),
    };
    let mut table = CodeTable::new();
    build_table(&node, Vec::new(), &mut table);
    assert_eq!(table.get('a').unwrap(), &[false]);
    assert_eq!(table.get('b').unwrap(), &[true]);
    assert!(table.get('c').is_none());
}

#[test]
fn test_build_table_single_leaf_special_case() {
    let node = Node::Leaf { symbol: 's', frequency: 7 };
    let mut table = CodeTable::new();
    build_table(&node, Vec::new(), &mut table);
    assert_eq!(table.get('s').unwrap(), &[false]);
}

#[test]
fn test_code_to_string() {
    assert_eq!(code_to_string(&vec![false, true, true, false]), "0110");
    assert_eq!(code_to_string(&Vec::new()), "");
}

#[test]
fn test_char_sequences_to_string() {
    assert_eq!(char_vec_to_string(&vec!['h', 'i']), "hi");
    assert_eq!(char_slice_to_string(&['h', 'u', 'f', 'f']), "huff");
    assert_eq!(char_slice_to_string(&[]), "");
}

#[test]
fn test_get_code_absent_symbol() {
    let chars = ['a', 'b'];
    let huffman_tree = HuffmanTree::new(&chars).unwrap();
    assert!(huffman_tree.get_code('z').is_none());
}

#[test]
fn test_decode_empty_bits() {
    let chars = ['a', 'b', 'a'];
    let huffman_tree = HuffmanTree::new(&chars).unwrap();
    let decoded = huffman_tree.decode(&Vec::new()).unwrap();
    assert!(decoded.is_empty());
}
