//! A list of items that wait for work, in which no item waits twice.

use crate::fx::{set_insert, set_new, set_remove};
use fxhash::FxHashSet;
use vstd::prelude::*;

verus! {

/// The items that wait, each once; the one that was added last is handed
/// out first.
pub struct WorkList {
    data: Vec<usize>,
    set: FxHashSet<usize>,
}

impl View for WorkList {
    type V = Seq<usize>;

    /// The items that wait, the one that is handed out last first.
    closed spec fn view(&self) -> Seq<usize> {
        self.data@
    }
}

impl WorkList {
    /// No item waits twice.
    pub closed spec fn wf(self) -> bool {
        &&& self.data@.no_duplicates()
        &&& forall|x: usize| self.set@.contains(x) <==> self.data@.contains(x)
    }

    /// A list in which nothing waits.
    pub fn new() -> (r: Self)
        ensures
            r.wf(),
            r@ == Seq::<usize>::empty(),
    {
        WorkList { data: Vec::new(), set: set_new() }
    }

    /// Lets `value` wait, unless it waits already.
    pub fn add(&mut self, value: usize)
        requires
            old(self).wf(),
        ensures
            final(self).wf(),
            final(self)@ == if old(self)@.contains(value) {
                old(self)@
            } else {
                old(self)@.push(value)
            },
    {
        let ghost before = self.data@;
        if set_insert(&mut self.set, value) {
            self.data.push(value);
            proof {
                assert forall|x: usize| self.set@.contains(x) <==> self.data@.contains(x) by {
                    if self.data@.contains(x) {
                        let i = choose|i: int| 0 <= i < self.data@.len() && self.data@[i] == x;
                        if i < before.len() {
                            assert(before[i] == x);
                        }
                    }
                    if before.contains(x) {
                        let i = choose|i: int| 0 <= i < before.len() && before[i] == x;
                        assert(self.data@[i] == x);
                    }
                    if x == value {
                        assert(self.data@[before.len() as int] == x);
                    }
                }
            }
        } else {
            proof {
                assert(self.set@ =~= old(self).set@);
            }
        }
    }

    /// Hands out the item that was added last, if any waits.
    pub fn next(&mut self) -> (r: Option<usize>)
        requires
            old(self).wf(),
        ensures
            final(self).wf(),
            old(self)@.len() == 0 ==> r is None && final(self)@ == old(self)@,
            old(self)@.len() > 0 ==> r == Some(old(self)@.last()) && final(self)@ == old(
                self
            )@.drop_last(),
    {
        let ghost before = self.data@;
        match self.data.pop() {
            None => None,
            Some(v) => {
                set_remove(&mut self.set, v);
                proof {
                    assert(self.data@ =~= before.drop_last());
                    assert forall|x: usize| self.set@.contains(x) <==> self.data@.contains(x) by {
                        if self.data@.contains(x) {
                            let i = choose|i: int| 0 <= i < self.data@.len() && self.data@[i] == x;
                            assert(before[i] == x);
                        }
                        if before.contains(x) && x != v {
                            let i = choose|i: int| 0 <= i < before.len() && before[i] == x;
                            assert(self.data@[i] == x);
                        }
                    }
                }
                Some(v)
            },
        }
    }

    /// Lets each of `items` wait that does not wait already, in their order.
    pub fn extend(&mut self, items: &[usize])
        requires
            old(self).wf(),
        ensures
            final(self).wf(),
            final(self)@ == with_all(old(self)@, items@),
    {
        let mut i: usize = 0;
        proof {
            assert(items@.take(0) =~= Seq::<usize>::empty());
        }
        while i < items.len()
            invariant
                i <= items.len(),
                self.wf(),
                self@ == with_all(old(self)@, items@.take(i as int)),
            decreases items.len() - i,
        {
            self.add(items[i]);
            proof {
                assert(items@.take(i + 1).drop_last() =~= items@.take(i as int));
            }
            i += 1;
        }
        proof {
            assert(items@.take(items.len() as int) =~= items@);
        }
    }
}

/// The items of `waiting` and behind them, in their order, those of `items`
/// that are then not among them yet.
pub open spec fn with_all(waiting: Seq<usize>, items: Seq<usize>) -> Seq<usize>
    decreases items.len(),
{
    if items.len() == 0 {
        waiting
    } else {
        let before = with_all(waiting, items.drop_last());
        if before.contains(items.last()) {
            before
        } else {
            before.push(items.last())
        }
    }
}

} // verus!
