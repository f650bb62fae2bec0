use pngdec::bits::BitReader;
use pngdec::compress::huffman::{
    gen_bl_count, gen_code_values, gen_next_code, generate_fixed_deflate_tree,
    generate_fixed_deflate_distance_tree, generate_tree, Node,
};

#[test]
fn test_gen_bl_count() {
    let bl = vec![3u8, 3, 3, 3, 3, 2, 4, 4];
    let bl_count = gen_bl_count(&bl);
    assert_eq!(bl_count, vec![0u32, 0, 1, 5, 2, 0, 0, 0, 0, 0]);
}

#[test]
fn test_gen_next_code() {
    let bl_count = vec![0u32, 0, 1, 5, 2, 0, 0, 0, 0, 0];
    let next_code = gen_next_code(&bl_count);
    assert_eq!(next_code, vec![0u32, 0, 0, 2, 14, 0, 0, 0, 0, 0]);
}

#[test]
fn test_gen_code_values() {
    let bl = vec![3u8, 3, 3, 3, 3, 2, 4, 4];
    let next_code = vec![0u32, 0, 0, 2, 14, 0, 0, 0, 0];
    let code_values = gen_code_values(&bl, &next_code, 8);
    assert_eq!(code_values, vec![2u32, 3, 4, 5, 6, 0, 14, 15]);
}

#[test]
fn test_gen_deflate_fixed_code_values() {
    let mut bl: Vec<u8> = Vec::with_capacity(288);
    bl.extend(vec![8u8; 144]);
    bl.extend(vec![9u8; 112]);
    bl.extend(vec![7u8; 24]);
    bl.extend(vec![8u8; 8]);

    let bl_count = gen_bl_count(&bl);
    let next_code = gen_next_code(&bl_count);
    let code_values = gen_code_values(&bl, &next_code, 288);
    println!("{:?}", &code_values);
    assert_eq!(code_values[0], 0b000110000);
    assert_eq!(code_values[143], 0b010111111);
    assert_eq!(code_values[144], 0b110010000);
    assert_eq!(code_values[255], 0b111111111);
    assert_eq!(code_values[256], 0b000000000);
    assert_eq!(code_values[279], 0b000010111);
    assert_eq!(code_values[280], 0b011000000);
    assert_eq!(code_values[287], 0b011000111);
    let mut expected: Vec<u32> = Vec::with_capacity(288);
    for i in 0..144u32 {
        expected.push(48 + i);
    }
    for i in 0..112u32 {
        expected.push(400 + i);
    }
    for i in 0..24u32 {
        expected.push(i);
    }
    for i in 0..8u32 {
        expected.push(192 + i);
    }
    assert_eq!(code_values, expected);
}

#[test]
fn tree_read() {
    let mut t: Node<char> = Node::new();

    t.insert(0b10, 2, 'A').unwrap();
    t.insert(0b0, 1, 'B').unwrap();
    t.insert(0b110, 3, 'C').unwrap();
    t.insert(0b111, 3, 'D').unwrap();
    let v: Vec<u8> = vec![0b10010110, 0b11001110];

    let mut bit_reader = BitReader::new(&v);
    let mut ret: String = String::with_capacity(8);
    while let Ok(b) = t.read_one(&mut bit_reader) {
        ret.push(b.1);
    }
    assert_eq!(ret, "BCABADBB");
}

#[test]
fn tree_insert_conflict_is_rejected() {
    // a code that is a prefix of an existing one violates the prefix
    // property and leaves the tree unchanged
    let mut t: Node<u32> = Node::new();
    t.insert(0b10, 2, 1).unwrap();
    assert!(t.insert(0b1, 1, 2).is_err());
    assert!(t.insert(0b10, 2, 3).is_err());
}

#[test]
fn canonical_roundtrip_concrete() {
    // building from lengths and reading the coded bits back yields each
    // symbol in turn
    let lengths = vec![2u8, 1, 3, 3];
    // canonical codes: B=0, A=10, C=110, D=111 (symbols 1, 0, 2, 3)
    let tree = generate_tree(lengths).unwrap();
    // codes sent MSB-first: 0 (sym 1), 10 (sym 0), 110 (sym 2), 111 (sym 3)
    // bit stream: 0,1,0,1,1,0,1,1,1 packed LSB-first per byte
    let v: Vec<u8> = vec![0b1101_1010, 0b0000_0001];
    let mut br = BitReader::new(&v);
    let s1 = tree.read_one(&mut br).unwrap();
    let s2 = tree.read_one(&mut br).unwrap();
    let s3 = tree.read_one(&mut br).unwrap();
    let s4 = tree.read_one(&mut br).unwrap();
    assert_eq!((s1.1, s2.1, s3.1, s4.1), (1, 0, 2, 3));
    assert_eq!((s1.0, s2.0, s3.0, s4.0), (1, 2, 3, 3));
}

#[test]
fn fixed_trees_decode_known_symbols() {
    let lit = generate_fixed_deflate_tree();
    // symbol 0 has the 8-bit code 0b00110000, sent MSB-first:
    // bits 0,0,1,1,0,0,0,0 -> LSB-first byte 0b0000_1100
    let v: Vec<u8> = vec![0b0000_1100];
    let mut br = BitReader::new(&v);
    let s = lit.read_one(&mut br).unwrap();
    assert_eq!(s, (8, 0));

    let dist = generate_fixed_deflate_distance_tree();
    // distance symbol 3 is the 5-bit code 0b00011
    let v2: Vec<u8> = vec![0b0001_1000];
    let mut br2 = BitReader::new(&v2);
    let d = dist.read_one(&mut br2).unwrap();
    assert_eq!(d, (5, 3));
}

#[test]
fn oversubscribed_lengths_are_rejected() {
    // three codes of length 1 cannot form a prefix code
    assert!(generate_tree(vec![1u8, 1, 1]).is_err());
    // lengths outside the supported range are rejected as well
    assert!(generate_tree(vec![16u8]).is_err());
}
