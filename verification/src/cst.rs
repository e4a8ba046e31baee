use vstd::prelude::*;

pub use crate::ast::{CstNode, CstNodeKind, NodeId, SyntaxTree};

verus! {

/// A read-only visitor over the indexed concrete syntax tree.
pub trait Visitor: Sized {
    /// What the visitor holds after it visits `node`; by default, itself
    /// unchanged, for a visitor whose visit keeps no state.
    open spec fn visited(&self, node: CstNode) -> Self {
        *self
    }

    /// Visit one node; what this makes of the visitor is `visited`.
    fn visit_node(&mut self, node: &CstNode)
        ensures
            *final(self) == old(self).visited(*node),
    ;

    /// Visit every node of the tree in index order: the visitor goes through
    /// one state per node, each what visiting that node makes of the one
    /// before.
    fn visit_tree(&mut self, tree: &SyntaxTree)
        ensures
            exists|states: Seq<Self>|
                {
                    &&& states.len() == tree.nodes@.len() + 1
                    &&& states[0] == *old(self)
                    &&& states[tree.nodes@.len() as int] == *final(self)
                    &&& forall|i: int|
                        0 <= i < tree.nodes@.len() ==> states[i + 1] == states[i].visited(
                            #[trigger] tree.nodes@[i],
                        )
                },
    {
        let ghost mut states: Seq<Self> = seq![*self];
        let mut index: usize = 0;
        while index < tree.nodes.len()
            invariant
                index <= tree.nodes@.len(),
                states.len() == index + 1,
                states[0] == *old(self),
                states[index as int] == *self,
                forall|i: int|
                    0 <= i < index ==> states[i + 1] == states[i].visited(#[trigger] tree.nodes@[i]),
            decreases tree.nodes@.len() - index,
        {
            self.visit_node(&tree.nodes[index]);
            proof {
                states = states.push(*self);
            }
            index = index + 1;
        }
    }
}

} // verus!
