//! The worklist that drives a recursive application of one operation over a
//! directory subtree: an explicit stack of pending paths in place of
//! language-level recursion, so that depth never threatens the call stack.
//! The traversal is depth-first and pre-order: a path is taken off the stack
//! and processed before its children are queued, and a directory's children
//! go on top of the stack, first child uppermost, so each child's whole
//! subtree is visited before the next sibling. The caller enumerates a
//! directory's children and hands them in; which paths are directories, and
//! what they contain, only the filesystem knows.

use vstd::prelude::*;

verus! {

/// The pending paths of a traversal, most urgent last.
pub struct Worklist {
    stack: Vec<String>,
}

impl View for Worklist {
    type V = Seq<Seq<char>>;

    closed spec fn view(&self) -> Seq<Seq<char>> {
        self.stack.deep_view()
    }
}

impl Worklist {
    /// A traversal about to visit one root path.
    pub fn new(root: String) -> (r: Worklist)
        ensures
            r@ == seq![root@],
    {
        let mut stack: Vec<String> = Vec::new();
        stack.push(root);
        let r = Worklist { stack };
        proof {
            assert(r@ =~= seq![root@]);
        }
        r
    }

    /// True when no path is pending.
    pub fn is_done(&self) -> (r: bool)
        ensures
            r == (self@.len() == 0),
    {
        self.stack.is_empty()
    }

    /// Takes the path to visit next: the most recently queued one, so a
    /// directory's subtree is finished before its next sibling.
    pub fn pop(&mut self) -> (r: Option<String>)
        ensures
            old(self)@.len() == 0 ==> r is None && final(self)@ == old(self)@,
            old(self)@.len() > 0 ==> (r matches Some(p) && p@ == old(self)@.last()
                && final(self)@ == old(self)@.drop_last()),
    {
        let ghost pre = self@;
        let r = self.stack.pop();
        proof {
            if pre.len() > 0 {
                assert(self@ =~= pre.drop_last());
            } else {
                assert(self@ =~= pre);
            }
        }
        r
    }

    /// Queues the children of the path just visited, in their given order,
    /// first child on top of the stack: the parent was already processed, so
    /// the traversal is pre-order.
    pub fn push_children(&mut self, children: Vec<String>)
        ensures
            final(self)@ == old(self)@ + children.deep_view().reverse(),
    {
        let ghost base = self@;
        let ghost all = children.deep_view();
        let mut rest = children;
        proof {
            assert(rest.deep_view() =~= all.take(all.len() as int));
            assert(all.skip(all.len() as int).reverse() =~= Seq::<Seq<char>>::empty());
            assert(base + all.skip(all.len() as int).reverse() =~= base);
        }
        while rest.len() > 0
            invariant
                rest@.len() <= all.len(),
                rest.deep_view() == all.take(rest@.len() as int),
                self@ == base + all.skip(rest@.len() as int).reverse(),
            decreases rest@.len(),
        {
            let ghost m = rest@.len() as int;
            let ghost pre = self@;
            let c = match rest.pop() {
                Some(c) => c,
                None => {
                    proof {
                        assert(false);
                    }
                    return ;
                },
            };
            proof {
                assert(c@ == all.take(m)[m - 1]);
                assert(rest.deep_view() =~= all.take(m - 1));
            }
            self.stack.push(c);
            proof {
                assert(all.skip(m - 1).reverse() =~= all.skip(m).reverse().push(all[m - 1]));
                assert(self@ =~= pre.push(all[m - 1]));
                assert(self@ =~= base + all.skip(m - 1).reverse());
            }
        }
        proof {
            assert(all.skip(0) =~= all);
            assert(self@ == base + all.reverse());
        }
    }
}

} // verus!
