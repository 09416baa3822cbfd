use rsdd::backing_store::bump_table::BackedRobinhoodTable;
use rsdd::backing_store::hasher::{DefaultUniqueTableHasher, UniqueTableHasher};
use rsdd::builder::cache::sdd_apply_cache::{SddApply, SddApplyCompression};
use rsdd::builder::canonicalize::{CompressionCanonicalizer, SddCanonicalizationScheme};
use rsdd::builder::decision_nnf::semantic::SemanticDecisionNNFBuilder;
use rsdd::repr::bdd::{create_semantic_hash_map, BddNode, BddPtr, WmcParams};
use rsdd::repr::sdd::{BinarySDD, SddAnd, SddOr, SddPtr};
use rsdd::repr::var_label::VarLabel;
use rsdd::repr::var_order::VarOrder;
use rsdd::repr::vtree::{VTree, VTreeManager};
use rsdd::util::finitefield::FiniteField;

const BIG_PRIME: u128 = 100000049;

#[test]
fn negate_is_one_minus_the_value() {
    let a = FiniteField::<BIG_PRIME>::new(5);
    assert_eq!(a.negate().value(), BIG_PRIME - 4);
    assert_eq!((a.value() + a.negate().value()) % BIG_PRIME, 1);
    assert_eq!(FiniteField::<BIG_PRIME>::new(0).negate().value(), 1);
    assert_eq!(FiniteField::<BIG_PRIME>::new(1).negate().value(), 0);
    assert_eq!(a.negate().negate().value(), 5);
}

#[test]
fn field_arithmetic_is_modular() {
    let a = FiniteField::<7>::new(5);
    let b = FiniteField::<7>::new(20);
    assert_eq!(b.value(), 6);
    assert_eq!(a.plus(&b).value(), 4);
    assert_eq!(a.times(&b).value(), 2);
    assert_eq!(FiniteField::<7>::zero().value(), 0);
    assert_eq!(FiniteField::<7>::one().value(), 1);
}

#[test]
fn hash_map_weights_add_up_to_one() {
    let map = create_semantic_hash_map::<BIG_PRIME>(12);
    assert_eq!(map.var_to_val.len(), 12);
    for (l, h) in map.var_to_val.iter() {
        assert!(h.value() >= 2 && h.value() < BIG_PRIME);
        assert_eq!((l.value() + h.value()) % BIG_PRIME, 1);
    }
    let fixed = WmcParams::<FiniteField<7>>::from_high_weights(&vec![3, 9]);
    assert_eq!(fixed.var_to_val[0].0.value(), 5);
    assert_eq!(fixed.var_to_val[0].1.value(), 3);
    assert_eq!(fixed.var_to_val[1].0.value(), 6);
    assert_eq!(fixed.var_to_val[1].1.value(), 2);
}

fn order(n: u64) -> VarOrder {
    VarOrder::new((0..n).map(VarLabel::new).collect())
}

#[test]
fn semantic_builder_shares_a_node_put_in_twice() {
    let mut b = SemanticDecisionNNFBuilder::<BIG_PRIME>::new(order(3));
    assert_eq!(b.num_nodes(), 0);
    let x = BddNode::new(VarLabel::new(2), BddPtr::PtrFalse, BddPtr::PtrTrue);
    let first = b.get_or_insert(x);
    let second = b.get_or_insert(x);
    assert_eq!(first, BddPtr::Reg(0));
    assert_eq!(first, second);
    assert_eq!(b.num_nodes(), 1);
    assert_eq!(b.order().num_vars(), 3);
}

#[test]
fn semantic_builder_shares_a_node_with_its_negation() {
    let mut b = SemanticDecisionNNFBuilder::<BIG_PRIME>::new(order(3));
    let x = BddNode::new(VarLabel::new(2), BddPtr::PtrFalse, BddPtr::PtrTrue);
    let not_x = BddNode::new(VarLabel::new(2), BddPtr::PtrTrue, BddPtr::PtrFalse);
    let p = b.get_or_insert(x);
    let q = b.get_or_insert(not_x);
    assert_eq!(q, p.neg());
    assert_eq!(b.num_nodes(), 1);
}

#[test]
fn semantic_builder_shares_nodes_for_the_same_function() {
    // with fixed weights: x1 and (x0 ? x1 : x1) are the same function
    let map = WmcParams::<FiniteField<BIG_PRIME>>::from_high_weights(&vec![17, 23]);
    let mut b = SemanticDecisionNNFBuilder::with_weights(order(2), map);
    let x1 = b.get_or_insert(BddNode::new(VarLabel::new(1), BddPtr::PtrFalse, BddPtr::PtrTrue));
    let same = b.get_or_insert(BddNode::new(VarLabel::new(0), x1, x1));
    assert_eq!(same, x1);
    let other = b.get_or_insert(BddNode::new(VarLabel::new(0), BddPtr::PtrFalse, x1));
    assert_eq!(other, BddPtr::Reg(1));
    assert_eq!(b.num_nodes(), 2);
    assert_eq!(b.num_logically_redundant(), 0);
}

#[test]
fn semantic_hash_is_the_weighted_count() {
    let map = WmcParams::<FiniteField<101>>::from_high_weights(&vec![3, 5]);
    let mut b = SemanticDecisionNNFBuilder::with_weights(order(2), map);
    let x1 = BddNode::new(VarLabel::new(1), BddPtr::PtrFalse, BddPtr::PtrTrue);
    // weights of x1: false 101 + 1 - 5 = 97, true 5
    assert_eq!(b.semantic_hash_of(&x1).value(), 5);
    let p = b.get_or_insert(x1);
    // x0 & x1: 3 * 5
    let and = BddNode::new(VarLabel::new(0), BddPtr::PtrFalse, p);
    assert_eq!(b.semantic_hash_of(&and).value(), 15);
    // x0 & !x1: 3 * (1 - 5) = 3 * 97 mod 101
    let and_not = BddNode::new(VarLabel::new(0), BddPtr::PtrFalse, p.neg());
    assert_eq!(b.semantic_hash_of(&and_not).value(), (3 * 97) % 101);
}

#[test]
fn count_redundant_counts_repeated_hashes() {
    let map = WmcParams::<FiniteField<101>>::from_high_weights(&vec![3, 5]);
    let mut b = SemanticDecisionNNFBuilder::with_weights(order(2), map);
    let x1 = BddNode::new(VarLabel::new(1), BddPtr::PtrFalse, BddPtr::PtrTrue);
    // two nodes for one function, put in under hashes that differ
    assert_eq!(b.insert_with_hash(x1, 1), BddPtr::Reg(0));
    assert_eq!(b.insert_with_hash(x1, 2), BddPtr::Reg(1));
    assert_eq!(b.insert_with_hash(x1, 1), BddPtr::Reg(0));
    assert_eq!(b.num_nodes(), 2);
    let fresh = WmcParams::<FiniteField<103>>::from_high_weights(&vec![7, 9]);
    assert_eq!(b.count_redundant(&fresh), 1);
    assert_eq!(b.num_logically_redundant(), 1);
    assert_eq!(b.cached_regular(2), Some(BddPtr::Reg(1)));
    assert_eq!(b.cached_negated(1), Some(BddPtr::Compl(0)));
    assert_eq!(b.cached_regular(3), None);
}

#[test]
fn table_hands_out_handles_in_the_order_of_insertion() {
    let mut t: BackedRobinhoodTable<BddNode> = BackedRobinhoodTable::new();
    let a = BddNode::new(VarLabel::new(0), BddPtr::PtrFalse, BddPtr::PtrTrue);
    let b = BddNode::new(VarLabel::new(1), BddPtr::PtrFalse, BddPtr::PtrTrue);
    assert_eq!(t.get_or_insert_by_hash(9, a, false), 0);
    assert_eq!(t.get_or_insert_by_hash(9, b, false), 1);
    assert_eq!(t.get_or_insert_by_hash(9, b, false), 1);
    assert_eq!(t.get_or_insert_by_hash(9, b, true), 0);
    assert_eq!(t.get_or_insert_by_hash(4, b, false), 2);
    assert_eq!(t.num_nodes(), 3);
    assert_eq!(t.get_by_hash(9), Some(0));
    assert_eq!(t.get_by_hash(4), Some(2));
    assert_eq!(t.get_by_hash(5), None);
    assert_eq!(*t.get(1), b);
    assert_eq!(t.hash_of(2), 4);
    assert_eq!(t.iter(), vec![0, 1, 2]);
}

#[test]
fn table_keeps_its_handles_while_it_grows() {
    let mut t: BackedRobinhoodTable<BddNode> = BackedRobinhoodTable::new();
    let hasher = DefaultUniqueTableHasher::default();
    let n = 500;
    for i in 0..n {
        let node = BddNode::new(VarLabel::new(i), BddPtr::PtrFalse, BddPtr::PtrTrue);
        assert_eq!(t.get_or_insert(node, &hasher), i as usize);
    }
    for i in 0..n {
        let node = BddNode::new(VarLabel::new(i), BddPtr::PtrFalse, BddPtr::PtrTrue);
        assert_eq!(t.get_or_insert(node, &hasher), i as usize);
        assert_eq!(*t.get(i as usize), node);
    }
    assert_eq!(t.num_nodes(), n as usize);
}

#[test]
fn table_with_colliding_hashes_finds_every_item() {
    let mut t: BackedRobinhoodTable<BddNode> = BackedRobinhoodTable::new();
    for i in 0..100u64 {
        let node = BddNode::new(VarLabel::new(i), BddPtr::PtrFalse, BddPtr::PtrTrue);
        assert_eq!(t.get_or_insert_by_hash(i % 3, node, false), i as usize);
    }
    for i in 0..100u64 {
        let node = BddNode::new(VarLabel::new(i), BddPtr::PtrFalse, BddPtr::PtrTrue);
        assert_eq!(t.get_or_insert_by_hash(i % 3, node, false), i as usize);
    }
    assert_eq!(t.get_by_hash(2), Some(2));
    assert_eq!(t.num_nodes(), 100);
}

#[test]
fn hasher_gives_equal_items_equal_hashes() {
    let hasher = DefaultUniqueTableHasher::default();
    let a = BddNode::new(VarLabel::new(3), BddPtr::Reg(1), BddPtr::PtrTrue);
    let b = BddNode::new(VarLabel::new(3), BddPtr::Reg(1), BddPtr::PtrTrue);
    let c = BddNode::new(VarLabel::new(3), BddPtr::Reg(2), BddPtr::PtrTrue);
    assert_eq!(hasher.u64hash(&a), hasher.u64hash(&b));
    assert_ne!(hasher.u64hash(&a), hasher.u64hash(&c));
}

fn manager() -> VTreeManager {
    VTreeManager::new(VTree::new_node(
        VTree::new_leaf(VarLabel::new(0)),
        VTree::new_leaf(VarLabel::new(1)),
    ))
}

#[test]
fn compression_canonicalizer_interns_nodes() {
    let mut c = CompressionCanonicalizer::new(&manager());
    assert!(c.should_compress());
    c.set_compress(false);
    assert!(!c.should_compress());
    let b = BinarySDD {
        vtree: 0,
        label: VarLabel::new(0),
        low: SddPtr::PtrFalse,
        high: SddPtr::Literal(VarLabel::new(1), true),
    };
    let p = c.bdd_get_or_insert(b);
    assert_eq!(p, SddPtr::BDD(0));
    assert_eq!(c.bdd_get_or_insert(b), p);
    let or = |sub: SddPtr| SddOr {
        index: 1,
        nodes: vec![
            SddAnd { prime: SddPtr::Literal(VarLabel::new(0), true), sub },
            SddAnd { prime: SddPtr::Literal(VarLabel::new(0), false), sub: SddPtr::PtrFalse },
        ],
    };
    let q = c.sdd_get_or_insert(or(SddPtr::PtrTrue));
    assert_eq!(q, SddPtr::Reg(0));
    assert_eq!(c.sdd_get_or_insert(or(SddPtr::PtrTrue)), q);
    assert_eq!(c.sdd_get_or_insert(or(p)), SddPtr::Reg(1));
    assert!(c.sdd_eq(q, q));
    assert!(!c.sdd_eq(q, p));
    assert_eq!(c.node_iter(), vec![SddPtr::BDD(0), SddPtr::Reg(0), SddPtr::Reg(1)]);
    assert_eq!(c.bdd_tbl().num_nodes(), 1);
    assert_eq!(c.sdd_tbl().num_nodes(), 2);
    c.on_sdd_print_dump_state(q);
}

#[test]
fn apply_cache_holds_what_was_put_in_last() {
    let mut cache = SddApplyCompression::new();
    let k1 = SddAnd { prime: SddPtr::BDD(0), sub: SddPtr::BDD(1) };
    let k2 = SddAnd { prime: SddPtr::BDD(1), sub: SddPtr::BDD(0) };
    assert_eq!(cache.get(k1), None);
    cache.insert(k1, SddPtr::Reg(4));
    cache.insert(k2, SddPtr::PtrFalse);
    assert_eq!(cache.get(k1), Some(SddPtr::Reg(4)));
    cache.insert(k1, SddPtr::Reg(5));
    assert_eq!(cache.get(k1), Some(SddPtr::Reg(5)));
    assert_eq!(cache.get(k2), Some(SddPtr::PtrFalse));
    let mut c = CompressionCanonicalizer::new(&manager());
    c.app_cache().insert(k1, SddPtr::PtrTrue);
    assert_eq!(c.app_cache().get(k1), Some(SddPtr::PtrTrue));
}

#[test]
fn bdd_edges_negate() {
    assert_eq!(BddPtr::PtrTrue.neg(), BddPtr::PtrFalse);
    assert_eq!(BddPtr::new_reg(3).neg(), BddPtr::new_compl(3));
    assert_eq!(BddPtr::Compl(3).neg(), BddPtr::Reg(3));
    assert!(BddPtr::Compl(0).is_neg());
    assert!(!BddPtr::Reg(0).is_neg());
}

#[test]
fn lookup_by_two_hashes_prefers_the_regular_hit_and_compares_the_residue() {
    let mut b = SemanticDecisionNNFBuilder::<BIG_PRIME>::new(order(3));
    let x1 = BddNode::new(VarLabel::new(1), BddPtr::PtrFalse, BddPtr::PtrTrue);
    let x2 = BddNode::new(VarLabel::new(2), BddPtr::PtrFalse, BddPtr::PtrTrue);
    let h1 = b.semantic_hash_of(&x1);
    let h2 = b.semantic_hash_of(&x2);
    assert_ne!(h1.value(), h2.value());
    // nothing is found in the empty table
    assert_eq!(b.lookup_hashed(h1, 10, 20), None);
    assert_eq!(b.get_or_insert_hashed(x1, 10, 20), BddPtr::Reg(0));
    assert_eq!(b.get_or_insert_hashed(x2, 30, 40), BddPtr::Reg(1));
    assert_eq!(b.num_nodes(), 2);
    // the regular hit
    assert_eq!(b.lookup_hashed(h1, 10, 99), Some(BddPtr::Reg(0)));
    // the negated hit: the node is recorded under the hash of the negation
    assert_eq!(b.lookup_hashed(h1.negate(), 99, 10), Some(BddPtr::Compl(0)));
    // the regular hit wins where both hashes are recorded
    assert_eq!(b.lookup_hashed(h1, 10, 30), Some(BddPtr::Reg(0)));
    assert_eq!(b.lookup_hashed(h2.negate(), 10, 30), Some(BddPtr::Compl(1)));
    // a node recorded under the hash with another semantic hash is no hit
    assert_eq!(b.lookup_hashed(h2, 10, 99), None);
    assert_eq!(b.lookup_hashed(h2, 99, 10), None);
    assert_eq!(b.lookup_hashed(h1, 98, 99), None);
    // what is found is handed back, and nothing is put in
    assert_eq!(b.get_or_insert_hashed(x1, 10, 99), BddPtr::Reg(0));
    assert_eq!(b.num_nodes(), 2);
}

#[test]
fn a_node_under_the_hash_of_another_is_put_in_beside_it() {
    let mut b = SemanticDecisionNNFBuilder::<BIG_PRIME>::new(order(3));
    let x1 = BddNode::new(VarLabel::new(1), BddPtr::PtrFalse, BddPtr::PtrTrue);
    let x2 = BddNode::new(VarLabel::new(2), BddPtr::PtrFalse, BddPtr::PtrTrue);
    assert_eq!(b.get_or_insert_hashed(x1, 10, 20), BddPtr::Reg(0));
    // the 64-bit hashes collide, the semantic hashes differ
    assert_eq!(b.get_or_insert_hashed(x2, 10, 20), BddPtr::Reg(1));
    assert_eq!(b.num_nodes(), 2);
    // the node that stands under the hash already is found again
    assert_eq!(b.get_or_insert_hashed(x2, 10, 20), BddPtr::Reg(1));
    assert_eq!(b.get_or_insert_hashed(x1, 10, 20), BddPtr::Reg(0));
    assert_eq!(b.num_nodes(), 2);
}

#[test]
fn get_or_insert_hands_back_an_edge_with_the_hash_of_the_node() {
    let mut b = SemanticDecisionNNFBuilder::<BIG_PRIME>::new(order(3));
    let x1 = BddNode::new(VarLabel::new(1), BddPtr::PtrFalse, BddPtr::PtrTrue);
    let not_x1 = BddNode::new(VarLabel::new(1), BddPtr::PtrTrue, BddPtr::PtrFalse);
    let h = b.semantic_hash_of(&x1);
    let nh = b.semantic_hash_of(&not_x1);
    assert_eq!(nh.value(), h.negate().value());
    let p = b.get_or_insert(x1);
    let q = b.get_or_insert(not_x1);
    assert_eq!(p, BddPtr::Reg(0));
    assert_eq!(q, BddPtr::Compl(0));
    assert_eq!(b.check_cached_hash_and_neg(h), Some(BddPtr::Reg(0)));
    assert_eq!(b.check_cached_hash_and_neg(nh), Some(BddPtr::Compl(0)));
    assert_eq!(b.num_nodes(), 1);
}
