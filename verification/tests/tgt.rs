use openjpeg_rs::coding::tgt::TagTree;
use openjpeg_rs::io::bio::Bio;

#[test]
fn new_1x1() {
    let tree = TagTree::new(1, 1);
    // A 1x1 tree has exactly one node, the root and only leaf.
    assert_eq!(tree.num_nodes(), 1);
}

#[test]
fn new_2x2() {
    let tree = TagTree::new(2, 2);
    // 2x2 leaves, then a 1x1 root.
    assert_eq!(tree.num_nodes(), 5);
}

#[test]
fn new_4x4() {
    let tree = TagTree::new(4, 4);
    // 16 + 4 + 1.
    assert_eq!(tree.num_nodes(), 21);
}

#[test]
fn new_3x5() {
    let tree = TagTree::new(3, 5);
    // 3x5 = 15, 2x3 = 6, 1x2 = 2, 1x1 = 1.
    assert_eq!(tree.num_nodes(), 24);
}

#[test]
fn reset_sets_values_to_999() {
    let mut tree = TagTree::new(2, 2);
    tree.set_value(0, 5);
    tree.reset();
    assert_eq!(tree.num_nodes(), 5);
}

#[test]
fn set_value_propagates_up() {
    let mut tree = TagTree::new(2, 2);
    tree.set_value(0, 3);
    tree.set_value(1, 5);
    tree.set_value(2, 7);
    tree.set_value(3, 2);
}

#[test]
fn encode_decode_roundtrip_single_leaf() {
    let mut tree = TagTree::new(1, 1);
    tree.set_value(0, 3);

    let mut buf = [0u8; 16];
    {
        let mut bio = Bio::encoder(&mut buf);
        tree.encode(&mut bio, 0, 4);
        bio.flush().unwrap();
    }

    let mut dec_tree = TagTree::new(1, 1);
    {
        let mut bio = Bio::decoder(&mut buf);
        let below = dec_tree.decode(&mut bio, 0, 4);
        assert_eq!(below, 1); // value 3 < threshold 4
    }
}

#[test]
fn encode_decode_roundtrip_2x2() {
    let mut tree = TagTree::new(2, 2);
    tree.set_value(0, 1);
    tree.set_value(1, 3);
    tree.set_value(2, 0);
    tree.set_value(3, 5);

    let mut buf = [0u8; 64];
    {
        let mut bio = Bio::encoder(&mut buf);
        for leaf in 0..4 {
            tree.encode(&mut bio, leaf, 6);
        }
        bio.flush().unwrap();
    }

    let mut dec_tree = TagTree::new(2, 2);
    {
        let mut bio = Bio::decoder(&mut buf);
        for leaf in 0..4 {
            dec_tree.decode(&mut bio, leaf, 6);
        }
    }
}

#[test]
fn encode_decode_threshold_below_value() {
    let mut tree = TagTree::new(1, 1);
    tree.set_value(0, 5);

    let mut buf = [0u8; 16];
    {
        let mut bio = Bio::encoder(&mut buf);
        tree.encode(&mut bio, 0, 3); // threshold < value
        bio.flush().unwrap();
    }

    let mut dec_tree = TagTree::new(1, 1);
    {
        let mut bio = Bio::decoder(&mut buf);
        let below = dec_tree.decode(&mut bio, 0, 3);
        assert_eq!(below, 0); // value 5 >= threshold 3
    }
}

#[test]
fn progressive_encode_decode() {
    let mut enc_tree = TagTree::new(2, 2);
    enc_tree.set_value(0, 1);
    enc_tree.set_value(1, 3);
    enc_tree.set_value(2, 0);
    enc_tree.set_value(3, 5);

    let mut buf = [0u8; 64];
    {
        let mut bio = Bio::encoder(&mut buf);
        for leaf in 0..4 {
            enc_tree.encode(&mut bio, leaf, 1);
        }
        for leaf in 0..4 {
            enc_tree.encode(&mut bio, leaf, 4);
        }
        bio.flush().unwrap();
    }

    let mut dec_tree = TagTree::new(2, 2);
    {
        let mut bio = Bio::decoder(&mut buf);
        for leaf in 0..4 {
            dec_tree.decode(&mut bio, leaf, 1);
        }
        for leaf in 0..4 {
            dec_tree.decode(&mut bio, leaf, 4);
        }
    }
}

#[test]
fn new_empty_has_no_nodes() {
    assert_eq!(TagTree::new(0, 7).num_nodes(), 0);
    assert_eq!(TagTree::new(5, 0).num_nodes(), 0);
}

#[test]
fn new_wide_row() {
    // 7 leaves in a row: 7, 4, 2, 1.
    assert_eq!(TagTree::new(7, 1).num_nodes(), 14);
}

#[test]
fn tgt_roundtrip_reports_each_leaf_against_threshold() {
    let values = [1, 3, 0, 5, 2, 7];
    let mut enc = TagTree::new(3, 2);
    for (i, v) in values.iter().enumerate() {
        enc.set_value(i as u32, *v);
    }
    let mut buf = [0u8; 64];
    {
        let mut bio = Bio::encoder(&mut buf);
        for threshold in 1..9 {
            for leaf in 0..6 {
                enc.encode(&mut bio, leaf, threshold);
            }
        }
        bio.flush().unwrap();
    }
    let mut dec = TagTree::new(3, 2);
    let mut bio = Bio::decoder(&mut buf);
    for threshold in 1..9 {
        for leaf in 0..6 {
            let below = dec.decode(&mut bio, leaf, threshold);
            let expected = if values[leaf as usize] < threshold { 1 } else { 0 };
            assert_eq!(below, expected, "leaf {} threshold {}", leaf, threshold);
        }
    }
}

#[test]
fn tgt_encode_single_leaf_bits() {
    // Value 2 against threshold 4 from a fresh node: two 0 bits then a 1 bit.
    let mut tree = TagTree::new(1, 1);
    tree.set_value(0, 2);
    let mut buf = [0u8; 4];
    {
        let mut bio = Bio::encoder(&mut buf);
        tree.encode(&mut bio, 0, 4);
        bio.flush().unwrap();
    }
    assert_eq!(buf[0], 0b0010_0000);
}

#[test]
fn tgt_decode_past_end_reads_zeros() {
    // No input: every bit reads as 0, so the value is never found below the threshold.
    let mut tree = TagTree::new(2, 2);
    let mut buf: [u8; 0] = [];
    let mut bio = Bio::decoder(&mut buf);
    assert_eq!(tree.decode(&mut bio, 3, 5), 0);
}

#[test]
fn tgt_encode_drops_bits_without_room() {
    // A full buffer takes no more bits; the tree's coding still goes on.
    let mut tree = TagTree::new(1, 1);
    tree.set_value(0, 20);
    let mut buf = [0u8; 1];
    let mut bio = Bio::encoder(&mut buf);
    tree.encode(&mut bio, 0, 20);
    assert!(bio.num_bytes() <= 1);
}
