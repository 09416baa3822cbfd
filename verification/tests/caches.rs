use rsdd::builder::cache::all_app::IteKey;
use rsdd::builder::cache::lru_app::BddApplyTable;
use rsdd::repr::bdd::BddPtr;
use rsdd::repr::var_label::VarLabel;
use rsdd::repr::vtree::{VTree, VTreeManager};

fn key(n: usize) -> IteKey {
    IteKey { f: BddPtr::Reg(n), g: BddPtr::PtrTrue, h: BddPtr::Compl(n) }
}

#[test]
fn lru_cache_keeps_what_was_used_last() {
    let mut cache = BddApplyTable::new(3);
    assert_eq!(cache.get(key(1)), None);
    cache.insert(key(1), BddPtr::Reg(10));
    cache.insert(key(2), BddPtr::Reg(20));
    cache.insert(key(3), BddPtr::Reg(30));
    assert_eq!(cache.len(), 3);
    // key 1 is used, so that key 2 is the one used longest ago
    assert_eq!(cache.get(key(1)), Some(BddPtr::Reg(10)));
    cache.insert(key(4), BddPtr::Reg(40));
    assert_eq!(cache.len(), 3);
    assert_eq!(cache.get(key(2)), None);
    assert_eq!(cache.get(key(1)), Some(BddPtr::Reg(10)));
    assert_eq!(cache.get(key(3)), Some(BddPtr::Reg(30)));
    assert_eq!(cache.get(key(4)), Some(BddPtr::Reg(40)));
}

#[test]
fn lru_cache_replaces_the_value_of_a_key() {
    let mut cache = BddApplyTable::new(2);
    cache.insert(key(1), BddPtr::Reg(10));
    cache.insert(key(2), BddPtr::Reg(20));
    cache.insert(key(1), BddPtr::Reg(11));
    assert_eq!(cache.len(), 2);
    assert_eq!(cache.get(key(1)), Some(BddPtr::Reg(11)));
    // key 2 was used longest ago when key 3 came
    cache.insert(key(2), BddPtr::Reg(21));
    cache.insert(key(3), BddPtr::Reg(30));
    assert_eq!(cache.get(key(1)), None);
    assert_eq!(cache.get(key(2)), Some(BddPtr::Reg(21)));
    assert_eq!(cache.get(key(3)), Some(BddPtr::Reg(30)));
}

#[test]
fn lru_cache_of_one_entry() {
    let mut cache = BddApplyTable::new(1);
    cache.insert(key(1), BddPtr::PtrTrue);
    cache.insert(key(2), BddPtr::PtrFalse);
    assert_eq!(cache.len(), 1);
    assert_eq!(cache.get(key(1)), None);
    assert_eq!(cache.get(key(2)), Some(BddPtr::PtrFalse));
}

#[test]
fn lowest_common_ancestors() {
    let v: Vec<VarLabel> = (0..4).map(VarLabel::new).collect();
    // the row: 0 root, 1 left inner, 2 and 3 its leaves, 4 right inner, 5 and 6 its leaves
    let manager = VTreeManager::new(VTree::even_split(&v, 1));
    assert_eq!(manager.lca(2, 3), 1);
    assert_eq!(manager.lca(3, 2), 1);
    assert_eq!(manager.lca(5, 6), 4);
    assert_eq!(manager.lca(2, 5), 0);
    assert_eq!(manager.lca(1, 3), 1);
    assert_eq!(manager.lca(2, 2), 2);
    assert_eq!(manager.lca(4, 1), 0);
    assert_eq!(manager.lca_below(4, 5, 6), 4);
    assert_eq!(manager.lca_below(4, 6, 6), 6);
    // linear to the right: 0 root, 1 leaf, 2 inner, 3 leaf, 4 inner, 5 and 6 leaves
    let manager = VTreeManager::new(VTree::right_linear(&v));
    assert_eq!(manager.lca(1, 6), 0);
    assert_eq!(manager.lca(3, 6), 2);
    assert_eq!(manager.lca(5, 6), 4);
}
