//! The store: every caller's tree, found by the caller's identity.

use vstd::prelude::*;
use crate::model::TodoTreeView;
use crate::tree::TodoTree;

verus! {

/// The identity of a caller: an opaque string of bytes, handed in by the
/// boundary that authenticated the caller. Two callers are the same where
/// their bytes are the same.
#[derive(Debug, PartialEq, Eq)]
pub struct Caller {
    bytes: Vec<u8>,
}

impl View for Caller {
    type V = Seq<u8>;

    closed spec fn view(&self) -> Seq<u8> {
        self.bytes@
    }
}

impl Caller {
    /// The caller with these bytes.
    pub fn new(bytes: Vec<u8>) -> (caller: Caller)
        ensures
            caller@ == bytes@,
    {
        Caller { bytes }
    }

    /// The bytes of this identity.
    pub fn as_bytes(&self) -> (bytes: &Vec<u8>)
        ensures
            bytes@ == self@,
    {
        &self.bytes
    }

    /// Whether two identities are the same caller.
    pub fn same(&self, other: &Caller) -> (same: bool)
        ensures
            same == (self@ == other@),
    {
        if self.bytes.len() != other.bytes.len() {
            return false;
        }
        let mut i: usize = 0;
        while i < self.bytes.len()
            invariant
                i <= self.bytes@.len(),
                self.bytes@.len() == other.bytes@.len(),
                self.bytes@.take(i as int) == other.bytes@.take(i as int),
            decreases self.bytes@.len() - i,
        {
            if self.bytes[i] != other.bytes[i] {
                return false;
            }
            i += 1;
            assert(self.bytes@.take(i as int) =~= self.bytes@.take(i - 1).push(
                self.bytes@[i - 1],
            ));
            assert(other.bytes@.take(i as int) =~= other.bytes@.take(i - 1).push(
                other.bytes@[i - 1],
            ));
        }
        assert(self.bytes@.take(self.bytes@.len() as int) =~= self.bytes@);
        assert(other.bytes@.take(other.bytes@.len() as int) =~= other.bytes@);
        true
    }
}

impl Clone for Caller {
    /// A copy of this identity, with the same bytes.
    fn clone(&self) -> (copy: Caller)
        ensures
            copy@ == self@,
    {
        let mut bytes: Vec<u8> = Vec::new();
        let mut i: usize = 0;
        while i < self.bytes.len()
            invariant
                i <= self.bytes@.len(),
                bytes@ == self.bytes@.take(i as int),
            decreases self.bytes@.len() - i,
        {
            bytes.push(self.bytes[i]);
            i += 1;
            assert(bytes@ =~= self.bytes@.take(i as int));
        }
        assert(self.bytes@.take(self.bytes@.len() as int) =~= self.bytes@);
        Caller { bytes }
    }
}

/// One caller with its tree.
struct Account {
    caller: Caller,
    tree: TodoTree,
}

/// The trees of all callers. A caller that has never added an item has no
/// tree here.
pub struct TodoTreeStore {
    accounts: Vec<Account>,
}

impl View for TodoTreeStore {
    type V = Map<Seq<u8>, TodoTreeView>;

    closed spec fn view(&self) -> Map<Seq<u8>, TodoTreeView> {
        Map::new(
            |caller: Seq<u8>| exists|i: int| self.is_slot(caller, i),
            |caller: Seq<u8>| self.accounts@[self.slot(caller)].tree@,
        )
    }
}

/// The tree that a store view holds for a caller: an absent entry stands for
/// the empty tree.
pub open spec fn tree_of(store: Map<Seq<u8>, TodoTreeView>, caller: Seq<u8>) -> TodoTreeView {
    if store.contains_key(caller) {
        store[caller]
    } else {
        TodoTreeView::empty()
    }
}

impl TodoTreeStore {
    /// Whether the account at position `i` belongs to `caller`.
    spec fn is_slot(&self, caller: Seq<u8>, i: int) -> bool {
        0 <= i < self.accounts@.len() && self.accounts@[i].caller@ == caller
    }

    /// A position at which `caller`'s account stands, where it has one.
    spec fn slot(&self, caller: Seq<u8>) -> int {
        choose|i: int| self.is_slot(caller, i)
    }

    /// No caller has two accounts, and every tree is well formed.
    pub closed spec fn wf(&self) -> bool {
        &&& self.callers_differ()
        &&& forall|i: int|
            0 <= i < self.accounts@.len() ==> (#[trigger] self.accounts@[i]).tree.wf()
    }

    /// Every tree of a well-formed store has a valid view.
    pub proof fn lemma_wf_valid(&self, caller: Seq<u8>)
        requires
            self.wf(),
        ensures
            tree_of(self@, caller).valid(),
    {
        if self@.contains_key(caller) {
            let i = self.slot(caller);
            assert(self.is_slot(caller, i));
            self.accounts@[i].tree.lemma_wf_valid();
        }
    }

    /// The store with no trees.
    pub fn new() -> (store: TodoTreeStore)
        ensures
            store.wf(),
            store@ == Map::<Seq<u8>, TodoTreeView>::empty(),
    {
        let store = TodoTreeStore { accounts: Vec::new() };
        assert(store@ =~= Map::<Seq<u8>, TodoTreeView>::empty());
        store
    }

    /// The position of `caller`'s account, if it has one.
    fn find(&self, caller: &Caller) -> (found: Option<usize>)
        requires
            self.wf(),
        ensures
            match found {
                Some(i) => self.is_slot(caller@, i as int) && self.slot(caller@) == i,
                None => !self@.contains_key(caller@),
            },
    {
        let mut i: usize = 0;
        while i < self.accounts.len()
            invariant
                i <= self.accounts@.len(),
                self.wf(),
                forall|k: int| 0 <= k < i ==> !self.is_slot(caller@, k),
            decreases self.accounts@.len() - i,
        {
            if self.accounts[i].caller.same(caller) {
                proof {
                    assert(self.is_slot(caller@, i as int));
                    let j = self.slot(caller@);
                    assert(self.is_slot(caller@, j));
                    if j < i {
                        assert(self.accounts@[j].caller@ != self.accounts@[i as int].caller@);
                    } else if i < j {
                        assert(self.accounts@[i as int].caller@ != self.accounts@[j].caller@);
                    }
                }
                return Some(i);
            }
            i += 1;
        }
        proof {
            if self@.contains_key(caller@) {
                let j = self.slot(caller@);
                assert(self.is_slot(caller@, j));
            }
        }
        None
    }

    /// No caller has two accounts.
    spec fn callers_differ(&self) -> bool {
        forall|i: int, j: int|
            0 <= i < j < self.accounts@.len() ==> self.accounts@[i].caller@
                != self.accounts@[j].caller@
    }

    /// A store that differs from `self` in the tree at position `i` only
    /// holds that tree for the caller at `i`, and what `self` holds for the
    /// others.
    proof fn lemma_tree_replaced(&self, after: &TodoTreeStore, i: int)
        requires
            self.callers_differ(),
            0 <= i < self.accounts@.len(),
            after.accounts@.len() == self.accounts@.len(),
            forall|k: int|
                0 <= k < self.accounts@.len() ==> (#[trigger] after.accounts@[k]).caller@
                    == self.accounts@[k].caller@,
            forall|k: int|
                0 <= k < self.accounts@.len() && k != i ==> (#[trigger] after.accounts@[k]).tree
                    == self.accounts@[k].tree,
        ensures
            after.callers_differ(),
            after@ == self@.insert(self.accounts@[i].caller@, after.accounts@[i].tree@),
    {
        let owner = self.accounts@[i].caller@;
        let target = self@.insert(owner, after.accounts@[i].tree@);
        assert forall|caller: Seq<u8>, k: int| self.is_slot(caller, k) <==> after.is_slot(
            caller,
            k,
        ) by {
            if 0 <= k < self.accounts@.len() {
                assert(after.accounts@[k].caller@ == self.accounts@[k].caller@);
            }
        }
        assert forall|caller: Seq<u8>| after@.contains_key(caller) <==> target.contains_key(
            caller,
        ) by {
            if after@.contains_key(caller) {
                let k = choose|k: int| after.is_slot(caller, k);
                assert(self.is_slot(caller, k));
            }
            if self@.contains_key(caller) {
                let k = choose|k: int| self.is_slot(caller, k);
                assert(after.is_slot(caller, k));
            }
            if caller == owner {
                assert(after.is_slot(caller, i));
            }
        }
        assert forall|caller: Seq<u8>| after@.contains_key(caller) implies after@[caller]
            == target[caller] by {
            let k = after.slot(caller);
            assert(after.is_slot(caller, k));
            assert(self.is_slot(caller, k));
            if caller == owner {
                if k < i {
                    assert(self.accounts@[k].caller@ != self.accounts@[i].caller@);
                } else if i < k {
                    assert(self.accounts@[i].caller@ != self.accounts@[k].caller@);
                }
            } else {
                let m = self.slot(caller);
                assert(self.is_slot(caller, m));
                if k < m {
                    assert(self.accounts@[k].caller@ != self.accounts@[m].caller@);
                } else if m < k {
                    assert(self.accounts@[m].caller@ != self.accounts@[k].caller@);
                }
                assert(after.accounts@[k].tree == self.accounts@[k].tree);
            }
        }
        assert(after@ =~= target);
        assert forall|a: int, b: int| 0 <= a < b < after.accounts@.len() implies after.accounts@[a]
            .caller@ != after.accounts@[b].caller@ by {
            assert(self.accounts@[a].caller@ != self.accounts@[b].caller@);
        }
    }

    /// The position of `caller`'s account, which is made, with an empty
    /// tree, where `caller` has none yet.
    fn slot_for(&mut self, caller: &Caller) -> (i: usize)
        requires
            old(self).wf(),
        ensures
            final(self).wf(),
            final(self).is_slot(caller@, i as int),
            final(self).accounts@[i as int].tree@ == tree_of(old(self)@, caller@),
            final(self)@ == old(self)@.insert(caller@, tree_of(old(self)@, caller@)),
    {
        match self.find(caller) {
            Some(i) => {
                assert(self@ =~= self@.insert(caller@, tree_of(self@, caller@)));
                i
            },
            None => {
                let ghost before = *self;
                let account = Account { caller: caller.clone(), tree: TodoTree::new() };
                self.accounts.push(account);
                let i = self.accounts.len() - 1;
                proof {
                    let target = before@.insert(caller@, TodoTreeView::empty());
                    assert(self.is_slot(caller@, i as int));
                    assert forall|a: int, b: int|
                        0 <= a < b < self.accounts@.len() implies self.accounts@[a].caller@
                        != self.accounts@[b].caller@ by {
                        if b == i {
                            assert(!before.is_slot(caller@, a));
                        } else {
                            assert(before.accounts@[a].caller@ != before.accounts@[b].caller@);
                        }
                    }
                    assert forall|other: Seq<u8>|
                        self@.contains_key(other) <==> target.contains_key(other) by {
                        if self@.contains_key(other) {
                            let k = choose|k: int| self.is_slot(other, k);
                            if k < i {
                                assert(before.is_slot(other, k));
                            }
                        }
                        if before@.contains_key(other) {
                            let k = choose|k: int| before.is_slot(other, k);
                            assert(self.is_slot(other, k));
                        }
                    }
                    assert forall|other: Seq<u8>| self@.contains_key(other) implies self@[other]
                        == target[other] by {
                        let k = self.slot(other);
                        assert(self.is_slot(other, k));
                        if other == caller@ {
                            if k < i {
                                assert(before.is_slot(other, k));
                            }
                        } else {
                            assert(before.is_slot(other, k));
                            let m = before.slot(other);
                            assert(before.is_slot(other, m));
                            if k < m {
                                assert(before.accounts@[k].caller@ != before.accounts@[m].caller@);
                            } else if m < k {
                                assert(before.accounts@[m].caller@ != before.accounts@[k].caller@);
                            }
                        }
                    }
                    assert(self@ =~= target);
                }
                i
            },
        }
    }

    /// The tree of `caller`, to be changed in place. A caller without a tree
    /// gets an empty one first.
    pub fn get_or_create(&mut self, caller: &Caller) -> (tree: &mut TodoTree)
        requires
            old(self).wf(),
        ensures
            tree.wf(),
            tree@ == tree_of(old(self)@, caller@),
            final(tree).wf() ==> final(self).wf(),
            final(self)@ == old(self)@.insert(caller@, final(tree)@),
    {
        let i = self.slot_for(caller);
        let ghost mid = *self;
        let ghost end = *final(self);
        let tree = &mut self.accounts[i].tree;
        proof {
            mid.lemma_tree_replaced(&end, i as int);
            assert(end@ =~= old(self)@.insert(caller@, final(tree)@));
        }
        tree
    }

    /// The tree of `caller`, to be changed in place, if it has one. No tree
    /// is made for a caller without one.
    pub fn get_mut(&mut self, caller: &Caller) -> (tree: Option<&mut TodoTree>)
        requires
            old(self).wf(),
        ensures
            match tree {
                Some(tree) => {
                    &&& old(self)@.contains_key(caller@)
                    &&& tree.wf()
                    &&& tree@ == old(self)@[caller@]
                    &&& final(tree).wf() ==> final(self).wf()
                    &&& final(self)@ == old(self)@.insert(caller@, final(tree)@)
                },
                None => {
                    &&& !old(self)@.contains_key(caller@)
                    &&& final(self).wf()
                    &&& final(self)@ == old(self)@
                },
            },
    {
        match self.find(caller) {
            Some(i) => {
                let ghost mid = *self;
                let ghost end = *final(self);
                let tree = &mut self.accounts[i].tree;
                proof {
                    mid.lemma_tree_replaced(&end, i as int);
                    assert(end@ =~= old(self)@.insert(caller@, final(tree)@));
                }
                Some(tree)
            },
            None => None,
        }
    }

    /// The tree of `caller`, if it has one.
    pub fn get(&self, caller: &Caller) -> (tree: Option<&TodoTree>)
        requires
            self.wf(),
        ensures
            match tree {
                Some(tree) => self@.contains_key(caller@) && tree@ == self@[caller@] && tree.wf(),
                None => !self@.contains_key(caller@),
            },
    {
        match self.find(caller) {
            Some(i) => Some(&self.accounts[i].tree),
            None => None,
        }
    }
}

} // verus!
