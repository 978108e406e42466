use bwtzip::huffman::huffman_encode_with_tree;
use bwtzip::huffman::HuffmanTree;
use bwtzip::huffman::HuffmanTreeRepresentation;

enum Shape {
    Leaf(u16),
    Node(Box<Shape>, Box<Shape>),
}

/// Rebuilds the tree shape from the pre-order tagged sequence, used only to
/// exercise decoding.
fn parse_shape(tags: &[HuffmanTreeRepresentation], at: &mut usize) -> Shape {
    let tag = &tags[*at];
    *at += 1;
    match tag {
        HuffmanTreeRepresentation::Alphabet(x) => Shape::Leaf(*x),
        HuffmanTreeRepresentation::InternalNode => {
            let l = parse_shape(tags, at);
            let r = parse_shape(tags, at);
            Shape::Node(Box::new(l), Box::new(r))
        }
    }
}

/// Decodes `bits` by walking the tree shape.
fn decode(bits: &[bool], root: &Shape, symbols: usize) -> Vec<u16> {
    let mut out = Vec::new();
    let mut i = 0;
    for _ in 0..symbols {
        match root {
            Shape::Leaf(x) => {
                // the degenerate one-symbol code is the single bit 0
                assert!(!bits[i]);
                i += 1;
                out.push(*x);
            }
            Shape::Node(_, _) => {
                let mut cur = root;
                loop {
                    match cur {
                        Shape::Leaf(x) => {
                            out.push(*x);
                            break;
                        }
                        Shape::Node(l, r) => {
                            cur = if bits[i] { r } else { l };
                            i += 1;
                        }
                    }
                }
            }
        }
    }
    assert_eq!(i, bits.len());
    out
}

fn is_prefix(a: &[bool], b: &[bool]) -> bool {
    a.len() <= b.len() && a.iter().zip(b.iter()).all(|(x, y)| x == y)
}

#[test]
fn skewed_frequencies_give_short_code_to_common_symbol() {
    let input: Vec<u16> = vec![1, 1, 1, 2, 2, 3];
    let t = HuffmanTree::new(&input);
    assert_eq!(t.table.len(), 65536);
    assert_eq!(t.table[1].len(), 1);
    let total: usize = 3 * t.table[1].len() + 2 * t.table[2].len() + 1 * t.table[3].len();
    let bits = huffman_encode_with_tree(&input, &t);
    assert_eq!(bits.len(), total);
    // decoding by walking the pre-order tree restores the input
    let mut at = 0;
    let shape = parse_shape(&t.tree, &mut at);
    assert_eq!(at, t.tree.len());
    assert_eq!(decode(&bits, &shape, input.len()), input);
}

#[test]
fn codes_form_a_prefix_code() {
    let input: Vec<u16> = vec![9, 9, 9, 9, 700, 700, 700, 12, 12, 5, 5, 5, 5, 5, 31];
    let t = HuffmanTree::new(&input);
    let symbols = [9u16, 700, 12, 5, 31];
    for &a in symbols.iter() {
        assert!(!t.table[a as usize].is_empty());
        for &b in symbols.iter() {
            if a != b {
                assert!(!is_prefix(&t.table[a as usize], &t.table[b as usize]));
            }
        }
    }
    // unseen symbols have no code
    assert!(t.table[4].is_empty());
    assert!(t.table[65535].is_empty());
}

#[test]
fn tree_construction_is_deterministic() {
    let input: Vec<u16> = vec![9, 9, 9, 9, 700, 700, 700, 12, 12, 5, 5, 5, 5, 5, 31];
    let t1 = HuffmanTree::new(&input);
    let t2 = HuffmanTree::new(&input);
    assert_eq!(t1.tree, t2.tree);
    for x in [9usize, 700, 12, 5, 31, 0, 65535] {
        assert_eq!(t1.table[x], t2.table[x]);
    }
}

#[test]
fn huffman_round_trips() {
    let input: Vec<u16> = (0..2000u32).map(|i| (i * i % 37) as u16).collect();
    let t = HuffmanTree::new(&input);
    let bits = huffman_encode_with_tree(&input, &t);
    let mut at = 0;
    let shape = parse_shape(&t.tree, &mut at);
    assert_eq!(at, t.tree.len());
    assert_eq!(decode(&bits, &shape, input.len()), input);
}

#[test]
fn degenerate_single_symbol_alphabet() {
    let input: Vec<u16> = vec![7, 7, 7, 7];
    let t = HuffmanTree::new(&input);
    // the one symbol still gets a usable (one-bit) code
    assert_eq!(t.table[7], vec![false]);
    assert_eq!(t.tree, vec![HuffmanTreeRepresentation::Alphabet(7)]);
    let bits = huffman_encode_with_tree(&input, &t);
    assert_eq!(bits.len(), 4);
    let mut at = 0;
    let shape = parse_shape(&t.tree, &mut at);
    let decoded = decode(&bits, &shape, 4);
    assert_eq!(decoded, input);
}
