//! Node-level behaviour: thin nodes and the combinator views.

use odawg::{AllNode, AnyNode, ThinNode};

const END_MASK: u32 = 1 << 26;

fn thin_mask(mask: u32) -> ThinNode {
    ThinNode::new(0, mask)
}

#[test]
fn len_eq_no_1s() {
    assert_eq!(thin_mask(0b000).len(), 0);
    assert_eq!(thin_mask(0b001).len(), 1);
    assert_eq!(thin_mask(0b100).len(), 1);
    assert_eq!(thin_mask(0b011).len(), 2);
}

#[test]
fn only_0_bits_is_empty() {
    assert!(thin_mask(0b0).is_empty());
    assert!(!thin_mask(0b001).is_empty());
    assert!(!thin_mask(0b100).is_empty());
    assert!(!thin_mask(0b011).is_empty());
}

#[test]
fn empty_intersect_is_empty() {
    let node0 = thin_mask(0b0);
    let node1 = thin_mask(0b0);
    let anode = AllNode(vec![node0, node1]);
    assert!(anode.is_empty());
}

#[test]
fn single_empty_is_empty() {
    let node0 = thin_mask(0b0);
    let node1 = thin_mask(0b1010);
    let node2 = thin_mask(0b1110);
    let anode = AllNode(vec![node0, node1, node2]);
    assert!(anode.is_empty());
}

#[test]
fn no_overlap_is_empty() {
    let node0 = thin_mask(0b0010);
    let node1 = thin_mask(0b1001);
    let anode = AllNode(vec![node0, node1]);
    assert!(anode.is_empty());
}

#[test]
fn all_overlap_not_empty() {
    let node0 = thin_mask(0b1011);
    let node1 = thin_mask(0b0110);
    let anode = AllNode(vec![node0, node1]);
    assert!(!anode.is_empty());
}

#[test]
fn unend_intersection_not_end() {
    let node0 = thin_mask(0b0);
    let node1 = thin_mask(END_MASK);
    let anode = AllNode(vec![node0, node1]);
    assert!(!anode.is_end());
}

#[test]
fn all_both_intersection_is_end() {
    let node0 = thin_mask(END_MASK);
    let node1 = thin_mask(END_MASK);
    let anode = AllNode(vec![node0, node1]);
    assert!(anode.is_end());
}

#[test]
fn empty_union_is_empty() {
    let node0 = thin_mask(0b0);
    let node1 = thin_mask(0b0);
    let anode = AnyNode(vec![Some(node0), Some(node1)]);
    assert!(anode.is_empty());
}

#[test]
fn single_empty_not_empty() {
    let node0 = thin_mask(0b0);
    let node1 = thin_mask(0b1);
    let anode = AnyNode(vec![Some(node0), Some(node1)]);
    assert!(!anode.is_empty());
}

#[test]
fn no_overlap_not_empty() {
    let node0 = thin_mask(0b0010);
    let node1 = thin_mask(0b1001);
    let anode = AnyNode(vec![Some(node0), Some(node1)]);
    assert!(!anode.is_empty());
}

#[test]
fn any_overlap_not_empty() {
    let node0 = thin_mask(0b1011);
    let node1 = thin_mask(0b0110);
    let anode = AnyNode(vec![Some(node0), Some(node1)]);
    assert!(!anode.is_empty());
}

#[test]
fn neither_union_not_end() {
    let node0 = thin_mask(0b0);
    let node1 = thin_mask(0b0);
    let anode = AnyNode(vec![Some(node0), Some(node1)]);
    assert!(!anode.is_end());
}

#[test]
fn unend_union_is_end() {
    let node0 = thin_mask(0b0);
    let node1 = thin_mask(END_MASK);
    let anode = AnyNode(vec![Some(node0), Some(node1)]);
    assert!(anode.is_end());
}

#[test]
fn any_both_intersection_is_end() {
    let node0 = thin_mask(END_MASK);
    let node1 = thin_mask(END_MASK);
    let anode = AnyNode(vec![Some(node0), Some(node1)]);
    assert!(anode.is_end());
}

#[test]
fn thin_round_trip_through_wide() {
    // a node whose children are contiguous survives widening and narrowing
    // exactly, mask and base index included
    let node = ThinNode::new(5, 0b1011 | END_MASK);
    let back = ThinNode::from_wide(&node.to_wide()).unwrap();
    assert_eq!(back.idx, node.idx);
    assert_eq!(back.mask, node.mask);
    for c in 0..26u8 {
        assert_eq!(back.get(c), node.get(c));
    }
    assert_eq!(back.is_end(), node.is_end());
}

#[test]
fn merge_words_unions_sorted_lists() {
    let a = vec![vec![0u8], vec![2, 3], vec![5]];
    let b = vec![vec![1u8], vec![2, 3], vec![4]];
    let merged = odawg::utils::merge::merge_words(&a, &b);
    assert_eq!(merged, vec![vec![0u8], vec![1], vec![2, 3], vec![4], vec![5]]);
    assert_eq!(odawg::utils::merge::word_cmp(&vec![1u8, 2], &vec![1u8, 2, 0]), -1);
    assert_eq!(odawg::utils::merge::word_cmp(&vec![1u8, 2], &vec![1u8, 2]), 0);
    assert_eq!(odawg::utils::merge::word_cmp(&vec![3u8], &vec![1u8, 2]), 1);
}

#[test]
fn non_contiguous_is_refused() {
    let mut wide = odawg::WideNode::new();
    wide.set_kid(0, 3);
    wide.set_kid(2, 5);
    assert!(ThinNode::from_wide(&wide).is_err());

    let mut gap = odawg::WideNode::new();
    gap.set_kid(0, 3);
    gap.set_kid(1, 4);
    assert!(ThinNode::from_wide(&gap).is_ok());
}
