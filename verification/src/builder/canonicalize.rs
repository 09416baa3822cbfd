//! How a builder of sentential decision diagrams makes its nodes unique.

use crate::backing_store::bump_table::{hashed_by, items_distinct, BackedRobinhoodTable};
use crate::backing_store::hasher::{DefaultUniqueTableHasher, UniqueTableHasher};
use crate::builder::cache::sdd_apply_cache::{SddApply, SddApplyCompression};
use crate::repr::sdd::{BinarySDD, SddAnd, SddOr, SddPtr};
use crate::repr::vtree::VTreeManager;
use vstd::prelude::*;

verus! {

/// The edges to all nodes of two tables: first those to the binary nodes,
/// then those to the decision nodes, each in the order of insertion.
pub open spec fn all_edges(bdds: nat, sdds: nat) -> Seq<SddPtr> {
    Seq::new(bdds, |i: int| SddPtr::BDD(i as usize)) + Seq::new(
        sdds,
        |i: int| SddPtr::Reg(i as usize),
    )
}

/// The edge leads to a node of tables with so many binary nodes and so
/// many decision nodes, or it is a literal or a constant.
pub open spec fn leads_into(p: SddPtr, bdds: nat, sdds: nat) -> bool {
    match p {
        SddPtr::BDD(n) => n < bdds,
        SddPtr::Reg(n) => n < sdds,
        SddPtr::Compl(n) => n < sdds,
        _ => true,
    }
}

/// A scheme for making nodes unique: two tables that intern the nodes, a
/// cache for conjunctions, and a test for the equality of edges.
pub trait SddCanonicalizationScheme: Sized {
    type ApplyCacheMethod: SddApply;

    type BddHasher: UniqueTableHasher<BinarySDD>;

    type SddOrHasher: UniqueTableHasher<SddOr>;

    /// The invariant of the scheme.
    spec fn wf(&self) -> bool;

    /// Whether decision nodes are to be compressed.
    spec fn compresses(&self) -> bool;

    /// The binary nodes, in the order of insertion.
    spec fn bdds(&self) -> Seq<BinarySDD>;

    /// The decision nodes, in the order of insertion.
    spec fn sdds(&self) -> Seq<(usize, Seq<SddAnd>)>;

    fn new(vtree: &VTreeManager) -> (r: Self)
        ensures
            r.wf(),
            r.bdds().len() == 0,
            r.sdds().len() == 0,
    ;

    fn set_compress(&mut self, b: bool)
        requires
            old(self).wf(),
        ensures
            final(self).wf(),
            final(self).compresses() == b,
            final(self).bdds() == old(self).bdds(),
            final(self).sdds() == old(self).sdds(),
    ;

    fn should_compress(&self) -> (r: bool)
        ensures
            r == self.compresses(),
    ;

    /// Whether two edges lead to the same function, as far as the scheme
    /// can tell.
    fn sdd_eq(&self, a: SddPtr, b: SddPtr) -> (r: bool)
        requires
            self.wf(),
        ensures
            a == b ==> r,
    ;

    fn app_cache(&mut self) -> (r: &mut Self::ApplyCacheMethod)
        requires
            old(self).wf(),
    ;

    fn bdd_tbl(&self) -> (r: &BackedRobinhoodTable<BinarySDD>)
        requires
            self.wf(),
        ensures
            r.wf(),
            r.items() == self.bdds(),
    ;

    fn sdd_tbl(&self) -> (r: &BackedRobinhoodTable<SddOr>)
        requires
            self.wf(),
        ensures
            r.wf(),
            r.items() == self.sdds(),
    ;

    /// The edges to all nodes.
    fn node_iter(&self) -> (r: Vec<SddPtr>)
        requires
            self.wf(),
        ensures
            r@ == all_edges(self.bdds().len(), self.sdds().len()),
    ;

    /// An edge for the function of `item`, into the tables: to the binary
    /// node `item`, or to a node that the scheme takes for the same.
    fn bdd_get_or_insert(&mut self, item: BinarySDD) -> (r: SddPtr)
        requires
            old(self).wf(),
        ensures
            final(self).wf(),
            final(self).compresses() == old(self).compresses(),
            final(self).sdds() == old(self).sdds(),
            final(self).bdds() == old(self).bdds() || final(self).bdds() == old(self).bdds().push(
                item,
            ),
            leads_into(r, final(self).bdds().len(), final(self).sdds().len()),
    ;

    /// An edge for the function of `item`, into the tables: to the decision
    /// node `item`, or to a node that the scheme takes for the same.
    fn sdd_get_or_insert(&mut self, item: SddOr) -> (r: SddPtr)
        requires
            old(self).wf(),
        ensures
            final(self).wf(),
            final(self).compresses() == old(self).compresses(),
            final(self).bdds() == old(self).bdds(),
            final(self).sdds() == old(self).sdds() || final(self).sdds() == old(self).sdds().push(
                item@,
            ),
            leads_into(r, final(self).bdds().len(), final(self).sdds().len()),
    ;

    // debugging util
    fn on_sdd_print_dump_state(&self, ptr: SddPtr);
}

/// The scheme that compares what nodes are made of: two nodes are the same
/// if they hold the same edges. Each node stands in its table once.
pub struct CompressionCanonicalizer {
    use_compression: bool,
    app_cache: SddApplyCompression,
    bdd_tbl: BackedRobinhoodTable<BinarySDD>,
    sdd_tbl: BackedRobinhoodTable<SddOr>,
    hasher: DefaultUniqueTableHasher,
}

impl SddCanonicalizationScheme for CompressionCanonicalizer {
    type ApplyCacheMethod = SddApplyCompression;

    type BddHasher = DefaultUniqueTableHasher;

    type SddOrHasher = DefaultUniqueTableHasher;

    closed spec fn wf(&self) -> bool {
        &&& self.bdd_tbl.wf()
        &&& self.sdd_tbl.wf()
        &&& hashed_by::<BinarySDD, DefaultUniqueTableHasher>(self.bdd_tbl@, &self.hasher)
        &&& hashed_by::<SddOr, DefaultUniqueTableHasher>(self.sdd_tbl@, &self.hasher)
        &&& items_distinct(self.bdd_tbl@)
        &&& items_distinct(self.sdd_tbl@)
    }

    closed spec fn compresses(&self) -> bool {
        self.use_compression
    }

    closed spec fn bdds(&self) -> Seq<BinarySDD> {
        self.bdd_tbl.items()
    }

    closed spec fn sdds(&self) -> Seq<(usize, Seq<SddAnd>)> {
        self.sdd_tbl.items()
    }

    fn new(_vtree: &VTreeManager) -> (r: Self)
        ensures
            r.compresses(),
            r.cache() == Map::<SddAnd, SddPtr>::empty(),
    {
        CompressionCanonicalizer {
            use_compression: true,
            app_cache: SddApplyCompression::new(),
            bdd_tbl: BackedRobinhoodTable::new(),
            sdd_tbl: BackedRobinhoodTable::new(),
            hasher: DefaultUniqueTableHasher {  },
        }
    }

    fn sdd_eq(&self, a: SddPtr, b: SddPtr) -> (r: bool)
        ensures
            r == (a == b),
    {
        a == b
    }

    fn set_compress(&mut self, b: bool) {
        self.use_compression = b
    }

    fn should_compress(&self) -> (r: bool) {
        self.use_compression
    }

    fn app_cache(&mut self) -> (r: &mut Self::ApplyCacheMethod) {
        &mut self.app_cache
    }

    fn bdd_tbl(&self) -> (r: &BackedRobinhoodTable<BinarySDD>) {
        &self.bdd_tbl
    }

    fn sdd_tbl(&self) -> (r: &BackedRobinhoodTable<SddOr>) {
        &self.sdd_tbl
    }

    fn node_iter(&self) -> (r: Vec<SddPtr>) {
        let bdds = self.bdd_tbl.iter();
        let sdds = self.sdd_tbl.iter();
        let mut r: Vec<SddPtr> = Vec::new();
        let mut i: usize = 0;
        while i < bdds.len()
            invariant
                i <= bdds@.len(),
                forall|j: int| 0 <= j < bdds@.len() ==> #[trigger] bdds@[j] == j,
                r@ == Seq::new(i as nat, |j: int| SddPtr::BDD(j as usize)),
            decreases bdds.len() - i,
        {
            r.push(SddPtr::bdd(bdds[i]));
            assert(r@ =~= Seq::new((i + 1) as nat, |j: int| SddPtr::BDD(j as usize)));
            i += 1;
        }
        let ghost first = r@;
        let mut k: usize = 0;
        while k < sdds.len()
            invariant
                k <= sdds@.len(),
                forall|j: int| 0 <= j < sdds@.len() ==> #[trigger] sdds@[j] == j,
                r@ == first + Seq::new(k as nat, |j: int| SddPtr::Reg(j as usize)),
            decreases sdds.len() - k,
        {
            r.push(SddPtr::Reg(sdds[k]));
            assert(r@ =~= first + Seq::new((k + 1) as nat, |j: int| SddPtr::Reg(j as usize)));
            k += 1;
        }
        r
    }

    fn bdd_get_or_insert(&mut self, item: BinarySDD) -> (r: SddPtr)
        ensures
            r matches SddPtr::BDD(n) && n < final(self).bdds().len() && final(self).bdds()[n as int]
                == item,
            final(self).cache() == old(self).cache(),
            old(self).bdds().contains(item) ==> final(self).bdds() == old(self).bdds(),
            !old(self).bdds().contains(item) ==> final(self).bdds() == old(self).bdds().push(item),
    {
        let ghost before = self.bdd_tbl@;
        let n = self.bdd_tbl.get_or_insert(item, &self.hasher);
        proof {
            let items = old(self).bdd_tbl.items();
            if n < before.len() {
                assert(self.bdd_tbl.items() =~= items);
                assert(items[n as int] == item);
            } else {
                assert(self.bdd_tbl.items() =~= items.push(item));
                if items.contains(item) {
                    let i = choose|i: int| 0 <= i < items.len() && items[i] == item;
                    assert(before[i].0 == item);
                }
            }
        }
        SddPtr::BDD(n)
    }

    fn sdd_get_or_insert(&mut self, item: SddOr) -> (r: SddPtr)
        ensures
            r matches SddPtr::Reg(n) && n < final(self).sdds().len() && final(self).sdds()[n as int]
                == item@,
            final(self).cache() == old(self).cache(),
            old(self).sdds().contains(item@) ==> final(self).sdds() == old(self).sdds(),
            !old(self).sdds().contains(item@) ==> final(self).sdds() == old(self).sdds().push(
                item@,
            ),
    {
        let ghost before = self.sdd_tbl@;
        let ghost v = item@;
        let n = self.sdd_tbl.get_or_insert(item, &self.hasher);
        proof {
            let items = old(self).sdd_tbl.items();
            if n < before.len() {
                assert(self.sdd_tbl.items() =~= items);
                assert(items[n as int] == v);
            } else {
                assert(self.sdd_tbl.items() =~= items.push(v));
                if items.contains(v) {
                    let i = choose|i: int| 0 <= i < items.len() && items[i] == v;
                    assert(before[i].0 == v);
                }
            }
        }
        SddPtr::or(n)
    }

    fn on_sdd_print_dump_state(&self, _ptr: SddPtr) {
    }
}

impl CompressionCanonicalizer {
    /// What the cache of conjunctions holds.
    pub closed spec fn cache(&self) -> Map<SddAnd, SddPtr> {
        self.app_cache@
    }

    /// The edge that the cache holds for the conjunction of the two edges
    /// of the key, if it holds one.
    pub fn cache_get(&self, key: SddAnd) -> (r: Option<SddPtr>)
        ensures
            r == (if self.cache().contains_key(key) {
                Some(self.cache()[key])
            } else {
                None
            }),
    {
        self.app_cache.get(key)
    }

    /// Records an edge for the conjunction of the two edges of the key.
    pub fn cache_put(&mut self, key: SddAnd, ptr: SddPtr)
        requires
            old(self).wf(),
        ensures
            final(self).wf(),
            final(self).compresses() == old(self).compresses(),
            final(self).bdds() == old(self).bdds(),
            final(self).sdds() == old(self).sdds(),
            final(self).cache() == old(self).cache().insert(key, ptr),
    {
        self.app_cache.insert(key, ptr);
    }

    /// Every node is interned once: no table holds a node twice.
    pub proof fn lemma_interned_once(&self)
        requires
            self.wf(),
        ensures
            forall|i: int, j: int|
                0 <= i < j < self.bdds().len() ==> #[trigger] self.bdds()[i] != #[trigger] self.bdds()[j],
            forall|i: int, j: int|
                0 <= i < j < self.sdds().len() ==> #[trigger] self.sdds()[i] != #[trigger] self.sdds()[j],
    {
        assert forall|i: int, j: int| 0 <= i < j < self.bdds().len() implies #[trigger] self.bdds()[i]
            != #[trigger] self.bdds()[j] by {
            assert(self.bdd_tbl@[i].0 != self.bdd_tbl@[j].0);
        }
        assert forall|i: int, j: int| 0 <= i < j < self.sdds().len() implies #[trigger] self.sdds()[i]
            != #[trigger] self.sdds()[j] by {
            assert(self.sdd_tbl@[i].0 != self.sdd_tbl@[j].0);
        }
    }
}

} // verus!
