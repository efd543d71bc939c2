//! A node of the operation tree: the operations of a subtree in the order
//! of the document, and what the index knows of them.

use crate::query::{
    counts_after_insert, lemma_tally_empty, lemma_visible_count_remove, tally, visible_count,
    Index,
};
use crate::types::{ElemId, Op, OpId, OpModel};
use vstd::prelude::*;

verus! {

/// The ids of a list of operations.
pub open spec fn ids_of(ops: Seq<OpModel>) -> Set<OpId> {
    Set::new(|id: OpId| exists|i: int| 0 <= i < ops.len() && ops[i].id == id)
}

/// No element has more visible operations than there are operations.
pub proof fn lemma_visible_count_bound(ops: Seq<OpModel>, e: ElemId)
    ensures
        visible_count(ops, e) <= ops.len(),
    decreases ops.len(),
{
    if ops.len() > 0 {
        lemma_visible_count_bound(ops.drop_last(), e);
    }
}

/// The place before `i`.
pub open spec fn place_before(i: usize) -> usize {
    (i - 1) as usize
}

/// A node of the operation tree.
#[derive(Debug)]
pub struct OpTreeNode {
    elements: Vec<Op>,
    index: Index,
}

impl OpTreeNode {
    /// The operations of the node, in the order of the document.
    pub closed spec fn ops(&self) -> Seq<OpModel> {
        Seq::new(self.elements@.len(), |i: int| self.elements@[i]@)
    }

    /// The operation at `i`.
    pub closed spec fn op_at(&self, i: usize) -> Op {
        self.elements@[i as int]
    }

    /// The number of operations.
    pub closed spec fn spec_len(&self) -> usize {
        self.elements@.len() as usize
    }

    /// What `op_at` and `spec_len` are to `ops`.
    pub proof fn lemma_op_at(&self)
        ensures
            self.spec_len() == self.ops().len(),
            forall|i: usize| i < self.spec_len() ==> (#[trigger] self.op_at(i))@ == self.ops()[i as int],
    {
        assert(self.elements.len() == self.elements@.len());
    }

    /// The key of the operation at `i`.
    pub proof fn lemma_key_at(&self, i: usize)
        requires
            i < self.spec_len(),
        ensures
            self.op_at(i).key == self.ops()[i as int].key,
            self.op_at(i)@ == self.ops()[i as int],
    {
        assert(self.elements.len() == self.elements@.len());
    }

    /// The index holds what counting the operations anew gives.
    pub closed spec fn wf(&self) -> bool {
        &&& self.index.wf()
        &&& self.index.counts() == tally(self.ops())
        &&& self.index.op_ids() == ids_of(self.ops())
        &&& forall|i: int| 0 <= i < self.ops().len() ==> (#[trigger] self.ops()[i]).id.0 < u64::MAX
    }

    /// A node without operations.
    pub fn new() -> (node: Self)
        ensures
            node.wf(),
            node.ops() == Seq::<OpModel>::empty(),
    {
        let node = OpTreeNode { elements: Vec::new(), index: Index::new() };
        proof {
            assert(node.ops() =~= Seq::<OpModel>::empty());
            lemma_tally_empty();
            assert(ids_of(node.ops()) =~= Set::<OpId>::empty());
        }
        node
    }

    /// The number of operations.
    pub fn len(&self) -> (n: usize)
        ensures
            n == self.ops().len(),
            n == self.spec_len(),
    {
        self.elements.len()
    }

    /// The operation at `index`, if there is one.
    pub fn get(&self, index: usize) -> (r: Option<&Op>)
        ensures
            match r {
                Some(op) => index < self.ops().len() && op@ == self.ops()[index as int] && *op
                    == self.op_at(index),
                None => index >= self.ops().len(),
            },
    {
        if index < self.elements.len() {
            Some(&self.elements[index])
        } else {
            None
        }
    }

    /// What the index knows of the operations of the node.
    pub fn index(&self) -> (index: &Index)
        requires
            self.wf(),
        ensures
            index.wf(),
            index.counts() == tally(self.ops()),
            index.op_ids() == ids_of(self.ops()),
    {
        &self.index
    }

    /// Puts `op` at `index`, before the operation that stands there.
    pub fn insert(&mut self, index: usize, op: Op)
        requires
            old(self).wf(),
            index <= old(self).ops().len(),
            old(self).ops().len() < usize::MAX,
            op.id.0 < u64::MAX,
        ensures
            final(self).wf(),
            final(self).ops() == old(self).ops().insert(index as int, op@),
    {
        let ghost before = self.ops();
        let ghost after = before.insert(index as int, op@);
        proof {
            assert(self.elements.len() == self.elements@.len());
            if op@.elemid() is Some {
                lemma_visible_count_bound(before, op@.elemid()->0);
            }
            assert(after.remove(index as int) =~= before);
            assert(after[index as int] == op@);
            assert forall|e: ElemId| #[trigger]
                tally(after).contains_key(e) == counts_after_insert(
                    tally(before),
                    op@,
                ).contains_key(e) && (tally(after).contains_key(e) ==> tally(after)[e]
                == counts_after_insert(tally(before), op@)[e]) by {
                lemma_visible_count_remove(after, index as int, e);
            }
            assert(tally(after) =~= counts_after_insert(tally(before), op@));
            assert forall|id: OpId| ids_of(after).contains(id) <==> ids_of(before).insert(
                op.id,
            ).contains(id) by {
                if ids_of(after).contains(id) {
                    let i = choose|i: int| 0 <= i < after.len() && after[i].id == id;
                    if i < index {
                        assert(before[i].id == id);
                    } else if i > index {
                        assert(before[i - 1].id == id);
                    }
                }
                if ids_of(before).contains(id) {
                    let i = choose|i: int| 0 <= i < before.len() && before[i].id == id;
                    if i < index {
                        assert(after[i].id == id);
                    } else {
                        assert(after[i + 1].id == id);
                    }
                }
                if id == op.id {
                    assert(after[index as int].id == id);
                }
            }
            assert(ids_of(after) =~= ids_of(before).insert(op.id));
        }
        self.index.insert(&op);
        self.elements.insert(index, op);
        proof {
            assert(self.ops() =~= after);
        }
    }
}

impl Default for OpTreeNode {
    fn default() -> (node: Self)
        ensures
            node.wf(),
            node.ops() == Seq::<OpModel>::empty(),
    {
        OpTreeNode::new()
    }
}

} // verus!
