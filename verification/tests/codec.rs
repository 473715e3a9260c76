use har::builder::{build_huffman_tree, total_fits};
use har::code::Code;
use har::decode::huffman_decode;
use har::encode::huffman_encode;
use har::error::HuffmanError;
use har::table::{construct_huffman_code, huffman};
use har::tree::Node;

fn textbook() -> [usize; 256] {
    let mut frequencies = [0; 256];
    frequencies['f' as usize] = 5;
    frequencies['e' as usize] = 9;
    frequencies['c' as usize] = 12;
    frequencies['b' as usize] = 13;
    frequencies['d' as usize] = 16;
    frequencies['a' as usize] = 45;
    frequencies
}

fn is_prefix(a: &str, b: &str) -> bool {
    b.starts_with(a)
}

#[test]
fn it_works() {
    assert_eq!(Code(0b00, 2).bit_string(), "00");
    assert_eq!(Code(0b01, 2).bit_string(), "01");
    assert_eq!(Code(0b101, 3).bit_string(), "101");

    let mut frequencies = [0; 256];
    frequencies['f' as usize] = 5;
    frequencies['e' as usize] = 9;
    frequencies['c' as usize] = 12;
    frequencies['b' as usize] = 13;
    frequencies['d' as usize] = 16;
    frequencies['a' as usize] = 45;
    let codes = huffman(&frequencies);
    assert_eq!(codes['a' as usize].bit_string(), "0");
    assert_eq!(codes['b' as usize].bit_string(), "101");
    assert_eq!(codes['c' as usize].bit_string(), "100");
    assert_eq!(codes['d' as usize].bit_string(), "111");
    assert_eq!(codes['e' as usize].bit_string(), "1101");
    assert_eq!(codes['f' as usize].bit_string(), "1100");

    assert_eq!(huffman_encode(&codes, "abc".as_bytes()), Ok((vec![0b01011000], 1)));
}

#[test]
fn textbook_lengths() {
    let codes = huffman(&textbook());
    assert_eq!(codes['a' as usize].1, 1);
    assert_eq!(codes['b' as usize].1, 3);
    assert_eq!(codes['c' as usize].1, 3);
    assert_eq!(codes['d' as usize].1, 3);
    assert_eq!(codes['e' as usize].1, 4);
    assert_eq!(codes['f' as usize].1, 4);
    assert_eq!(codes['a' as usize].0, 0);
}

#[test]
fn absent_symbols_have_no_code() {
    let frequencies = textbook();
    let codes = huffman(&frequencies);
    for s in 0..256 {
        if frequencies[s] == 0 {
            assert_eq!(codes[s].1, 0);
            assert_eq!(codes[s].0, 0);
            assert_eq!(codes[s].bit_string(), "");
        } else {
            assert!(codes[s].1 >= 1);
        }
    }
}

#[test]
fn textbook_decodes() {
    let codes = huffman(&textbook());
    assert_eq!(huffman_decode(&codes, &[0b01011000], 1), Ok("abc".as_bytes().to_vec()));
}

#[test]
fn textbook_cost_is_minimal() {
    let frequencies = textbook();
    let codes = huffman(&frequencies);
    let mut cost = 0;
    for s in 0..256 {
        cost += frequencies[s] * codes[s].1;
    }
    assert_eq!(cost, 224);
}

#[test]
fn codes_are_prefix_free() {
    let mut frequencies = [0usize; 256];
    for s in 0..256 {
        frequencies[s] = (s * 7919) % 101;
    }
    let codes = huffman(&frequencies);
    for a in 0..256 {
        for b in 0..256 {
            if a != b && frequencies[a] != 0 && frequencies[b] != 0 {
                assert!(!is_prefix(&codes[a].bit_string(), &codes[b].bit_string()));
            }
        }
    }
}

#[test]
fn round_trip() {
    let text = "it was the best of times, it was the worst of times".as_bytes();
    let mut frequencies = [0usize; 256];
    for b in text {
        frequencies[*b as usize] += 1;
    }
    let codes = huffman(&frequencies);
    let (packed, padding) = huffman_encode(&codes, text).unwrap();
    assert!(packed.len() < text.len());
    assert_eq!(huffman_decode(&codes, &packed, padding), Ok(text.to_vec()));
}

#[test]
fn round_trip_all_bytes() {
    let mut frequencies = [0usize; 256];
    let mut text = Vec::new();
    for s in 0..256usize {
        frequencies[s] = s + 1;
        for _ in 0..(s % 3 + 1) {
            text.push(s as u8);
        }
    }
    let codes = huffman(&frequencies);
    let (packed, padding) = huffman_encode(&codes, &text).unwrap();
    assert_eq!(huffman_decode(&codes, &packed, padding), Ok(text));
}

#[test]
fn padding_counts_the_missing_bits() {
    let codes = huffman(&textbook());
    let inputs: [&str; 6] = ["a", "aaaaaaaa", "b", "bbe", "ef", "abcdef"];
    for input in inputs {
        let mut bits = 0;
        for b in input.as_bytes() {
            bits += codes[*b as usize].1;
        }
        let (packed, padding) = huffman_encode(&codes, input.as_bytes()).unwrap();
        assert!(padding <= 7);
        assert_eq!(padding == 0, bits % 8 == 0);
        assert_eq!(packed.len() * 8, bits + padding);
    }
    assert_eq!(huffman_encode(&codes, "aaaaaaaa".as_bytes()), Ok((vec![0], 0)));
    assert_eq!(huffman_encode(&codes, "ef".as_bytes()), Ok((vec![0b11011100], 0)));
    assert_eq!(huffman_encode(&codes, "fed".as_bytes()), Ok((vec![0b11001101, 0b11100000], 5)));
}

#[test]
fn codes_cross_byte_boundaries() {
    let codes = huffman(&textbook());
    let (packed, padding) = huffman_encode(&codes, "eeeee".as_bytes()).unwrap();
    assert_eq!(packed, vec![0b11011101, 0b11011101, 0b11010000]);
    assert_eq!(padding, 4);
    assert_eq!(huffman_decode(&codes, &packed, padding), Ok("eeeee".as_bytes().to_vec()));
}

#[test]
fn same_table_twice() {
    let frequencies = textbook();
    let first = huffman(&frequencies);
    let second = huffman(&frequencies);
    for s in 0..256 {
        assert_eq!(first[s].1, second[s].1);
        assert_eq!(first[s].0, second[s].0);
    }
}

#[test]
fn empty_input() {
    let codes = huffman(&textbook());
    assert_eq!(huffman_encode(&codes, &[]), Ok((vec![], 0)));
    assert_eq!(huffman_decode(&codes, &[], 0), Ok(vec![]));
}

#[test]
fn unknown_symbol() {
    let codes = huffman(&textbook());
    assert_eq!(huffman_encode(&codes, "abz".as_bytes()), Err(HuffmanError::UnknownSymbol));
    assert_eq!(huffman_encode(&codes, "z".as_bytes()), Err(HuffmanError::UnknownSymbol));
}

#[test]
fn stream_that_ends_within_a_code() {
    let codes = huffman(&textbook());
    // a, then the first two bits of b
    assert_eq!(huffman_decode(&codes, &[0b01000000], 5), Err(HuffmanError::MalformedStream));
    // the filler bits are not read: with them left out the stream is a, b, c
    assert_eq!(huffman_decode(&codes, &[0b01011001], 1), Ok("abc".as_bytes().to_vec()));
    // and with them read it ends within a code
    assert_eq!(huffman_decode(&codes, &[0b01011001], 0), Err(HuffmanError::MalformedStream));
}

#[test]
fn padding_that_does_not_fit() {
    let codes = huffman(&textbook());
    assert_eq!(huffman_decode(&codes, &[0b01011000], 8), Err(HuffmanError::MalformedStream));
    assert_eq!(huffman_decode(&codes, &[], 1), Err(HuffmanError::MalformedStream));
    assert_eq!(huffman_decode(&codes, &[0], 7), Ok(vec![b'a']));
}

#[test]
fn empty_alphabet() {
    let frequencies = [0usize; 256];
    assert!(build_huffman_tree(&frequencies).is_none());
    let codes = huffman(&frequencies);
    for s in 0..256 {
        assert_eq!(codes[s].1, 0);
    }
    assert_eq!(huffman_encode(&codes, &[]), Ok((vec![], 0)));
    assert_eq!(huffman_encode(&codes, &[0]), Err(HuffmanError::UnknownSymbol));
    assert_eq!(huffman_decode(&codes, &[], 0), Ok(vec![]));
    assert_eq!(huffman_decode(&codes, &[0], 0), Err(HuffmanError::MalformedStream));
    let none = construct_huffman_code(None);
    for s in 0..256 {
        assert_eq!(none[s].1, 0);
    }
}

#[test]
fn single_symbol() {
    let mut frequencies = [0usize; 256];
    frequencies['x' as usize] = 3;
    match build_huffman_tree(&frequencies) {
        Some(Node::Leaf { symbol, frequency }) => {
            assert_eq!(symbol, b'x');
            assert_eq!(frequency, 3);
        }
        _ => panic!("a single symbol gives a single leaf"),
    }
    let codes = huffman(&frequencies);
    assert_eq!(codes['x' as usize].bit_string(), "0");
    assert_eq!(huffman_encode(&codes, "xxx".as_bytes()), Ok((vec![0], 5)));
    assert_eq!(huffman_decode(&codes, &[0], 5), Ok("xxx".as_bytes().to_vec()));
    assert_eq!(huffman_decode(&codes, &[0b00100000], 5), Err(HuffmanError::MalformedStream));
}

#[test]
fn two_symbols() {
    let mut frequencies = [0usize; 256];
    frequencies[1] = 10;
    frequencies[2] = 20;
    let root = build_huffman_tree(&frequencies).unwrap();
    assert_eq!(root.frequency(), 30);
    match root {
        Node::Internal { frequency, left, right } => {
            assert_eq!(frequency, 30);
            assert!(matches!(*left, Node::Leaf { symbol: 1, frequency: 10 }));
            assert!(matches!(*right, Node::Leaf { symbol: 2, frequency: 20 }));
        }
        _ => panic!("two symbols give an internal node"),
    }
    let codes = huffman(&frequencies);
    assert_eq!(codes[1].bit_string(), "0");
    assert_eq!(codes[2].bit_string(), "1");
}

#[test]
fn equal_weights_leave_in_order_of_arrival() {
    let mut frequencies = [0usize; 256];
    frequencies[10] = 1;
    frequencies[20] = 1;
    frequencies[30] = 1;
    frequencies[40] = 1;
    let codes = huffman(&frequencies);
    assert_eq!(codes[10].bit_string(), "00");
    assert_eq!(codes[20].bit_string(), "01");
    assert_eq!(codes[30].bit_string(), "10");
    assert_eq!(codes[40].bit_string(), "11");

    let mut frequencies = [0usize; 256];
    frequencies[1] = 1;
    frequencies[2] = 1;
    frequencies[3] = 2;
    let codes = huffman(&frequencies);
    // the leaf of 3 arrived before the node above 1 and 2, so it leaves first
    assert_eq!(codes[3].bit_string(), "0");
    assert_eq!(codes[1].bit_string(), "10");
    assert_eq!(codes[2].bit_string(), "11");
}

#[test]
fn tree_carries_combined_frequencies() {
    let root = build_huffman_tree(&textbook()).unwrap();
    assert_eq!(root.frequency(), 100);
    match root {
        Node::Internal { left, right, .. } => {
            assert!(matches!(*left, Node::Leaf { symbol: b'a', frequency: 45 }));
            assert_eq!(right.frequency(), 55);
        }
        _ => panic!("six symbols give an internal node"),
    }
}

#[test]
fn table_of_a_given_tree() {
    let tree = Node::Internal {
        frequency: 3,
        left: Box::new(Node::Leaf { symbol: 7, frequency: 1 }),
        right: Box::new(Node::Internal {
            frequency: 2,
            left: Box::new(Node::Leaf { symbol: 8, frequency: 1 }),
            right: Box::new(Node::Leaf { symbol: 9, frequency: 1 }),
        }),
    };
    let codes = construct_huffman_code(Some(tree));
    assert_eq!(codes[7].bit_string(), "0");
    assert_eq!(codes[8].bit_string(), "10");
    assert_eq!(codes[9].bit_string(), "11");
    assert_eq!(codes[0].bit_string(), "");
    let leaf = construct_huffman_code(Some(Node::Leaf { symbol: 5, frequency: 9 }));
    assert_eq!(leaf[5].0, 0);
    assert_eq!(leaf[5].1, 1);
}

#[test]
fn codes_longer_than_a_pattern() {
    // weights that double make a tree as deep as it has symbols
    let mut frequencies = [0usize; 256];
    for s in 0..20 {
        frequencies[s] = 1 << s;
    }
    let codes = huffman(&frequencies);
    assert_eq!(codes[19].1, 1);
    assert_eq!(codes[18].1, 2);
    assert_eq!(codes[1].1, 19);
    assert_eq!(codes[0].1, 19);
    assert_eq!(codes[3].1, 17);
    assert_eq!(codes[4].1, 16);
}

#[test]
fn bit_strings() {
    assert_eq!(Code(0, 0).bit_string(), "");
    assert_eq!(Code(0, 1).bit_string(), "0");
    assert_eq!(Code(1, 1).bit_string(), "1");
    assert_eq!(Code(0b0110, 4).bit_string(), "0110");
    assert_eq!(Code(0xffff, 16).bit_string(), "1111111111111111");
    assert_eq!(Code(0x8001, 16).bit_string(), "1000000000000001");
    assert_eq!(Code(1, 18).bit_string(), "000000000000000001");
}

#[test]
fn sixteen_bit_codes() {
    let mut codes = [Code(0, 0); 256];
    codes[0] = Code(0xabcd, 16);
    codes[1] = Code(0, 1);
    let (packed, padding) = huffman_encode(&codes, &[0, 1, 0]).unwrap();
    assert_eq!(packed, vec![0xab, 0xcd, 0b01010101, 0b11100110, 0b10000000]);
    assert_eq!(padding, 7);
    assert_eq!(huffman_decode(&codes, &packed, padding), Ok(vec![0, 1, 0]));
}

#[test]
fn lost_bits_break_the_prefix_property() {
    // a tree that grows to the right: the deepest codes begin with ones,
    // which a pattern of sixteen bits cannot keep
    let mut frequencies = [0usize; 256];
    frequencies[0] = 1;
    for s in 1..20 {
        frequencies[s] = 1 << (s - 1);
    }
    let codes = huffman(&frequencies);
    assert_eq!(codes[19].bit_string(), "0");
    assert_eq!(codes[18].bit_string(), "10");
    assert_eq!(codes[0].1, 19);
    assert_eq!(codes[1].1, 19);
    assert!(codes[0].bit_string().starts_with("000"));
    let mut cost = 0;
    for s in 0..20 {
        cost += frequencies[s] * codes[s].1;
    }
    let mut expected = 19 + 19;
    for s in 2..20 {
        expected += (1 << (s - 1)) * (20 - s);
    }
    assert_eq!(cost, expected);
}

#[test]
fn frequencies_that_add_up() {
    assert!(total_fits(&textbook()));
    assert!(total_fits(&[0usize; 256]));
    let mut frequencies = [0usize; 256];
    frequencies[3] = usize::MAX;
    assert!(total_fits(&frequencies));
    frequencies[200] = 1;
    assert!(!total_fits(&frequencies));
    let mut frequencies = [usize::MAX / 256; 256];
    assert!(total_fits(&frequencies));
    frequencies[0] += 255;
    assert!(total_fits(&frequencies));
    frequencies[255] += 1;
    assert!(!total_fits(&frequencies));
}

#[test]
fn heavy_table() {
    let mut frequencies = [0usize; 256];
    frequencies[0] = usize::MAX - 1;
    frequencies[1] = 1;
    let root = build_huffman_tree(&frequencies).unwrap();
    assert_eq!(root.frequency(), usize::MAX);
    let codes = huffman(&frequencies);
    assert_eq!(codes[1].bit_string(), "0");
    assert_eq!(codes[0].bit_string(), "1");
}
