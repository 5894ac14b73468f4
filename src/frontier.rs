//! The search frontier: a binary min-heap of (node, cost) entries, cheapest
//! at the root.
use vstd::multiset::Multiset;
use vstd::prelude::*;

use crate::ch::NodeId;

verus! {

/// A frontier entry: `node` was reached at `cost`.
#[derive(PartialEq, Eq, Debug, Clone, Copy)]
pub struct NodeCost {
    pub node: NodeId,
    pub cost: usize,
}

pub open spec fn parent(i: int) -> int {
    (i - 1) / 2
}

/// Every entry costs no less than its parent.
pub open spec fn heap_ordered(s: Seq<NodeCost>) -> bool {
    forall|i: int| 0 < i < s.len() ==> s[parent(i)].cost <= #[trigger] s[i].cost
}

/// A min-heap of frontier entries.
pub struct Frontier {
    items: Vec<NodeCost>,
}

impl View for Frontier {
    type V = Multiset<NodeCost>;

    closed spec fn view(&self) -> Multiset<NodeCost> {
        self.items@.to_multiset()
    }
}

proof fn lemma_root_least(s: Seq<NodeCost>, i: int)
    requires
        heap_ordered(s),
        0 <= i < s.len(),
    ensures
        s[0].cost <= s[i].cost,
    decreases i,
{
    if i > 0 {
        lemma_root_least(s, parent(i));
    }
}

proof fn lemma_swap_keeps_multiset(s: Seq<NodeCost>, i: int, j: int)
    requires
        0 <= i < s.len(),
        0 <= j < s.len(),
    ensures
        s.update(i, s[j]).update(j, s[i]).to_multiset() == s.to_multiset(),
{
    broadcast use vstd::seq_lib::group_to_multiset_ensures;
    broadcast use vstd::multiset::group_multiset_axioms;

    let s1 = s.update(i, s[j]);
    vstd::seq_lib::to_multiset_update(s, i, s[j]);
    vstd::seq_lib::to_multiset_update(s1, j, s[i]);
    if i == j {
        assert(s.update(i, s[j]).update(j, s[i]) =~= s);
    } else {
        assert(s1[j] == s[j]);
        assert(s1.update(j, s[i]).to_multiset() =~= s.to_multiset());
    }
}

impl Frontier {
    pub closed spec fn wf(&self) -> bool {
        heap_ordered(self.items@)
    }

    /// An empty frontier.
    pub fn new() -> (r: Frontier)
        ensures
            r.wf(),
            r@ == Multiset::<NodeCost>::empty(),
    {
        let r = Frontier { items: Vec::new() };
        proof {
            broadcast use vstd::seq_lib::group_to_multiset_ensures;

            assert(r.items@.to_multiset().len() == 0);
            assert(r@ =~= Multiset::<NodeCost>::empty());
        }
        r
    }

    /// The number of entries.
    pub fn len(&self) -> (r: usize)
        ensures
            r == self@.len(),
    {
        proof {
            vstd::seq_lib::to_multiset_len(self.items@);
        }
        self.items.len()
    }

    fn swap(&mut self, i: usize, j: usize)
        requires
            i < old(self).items.len(),
            j < old(self).items.len(),
        ensures
            final(self).items@ == old(self).items@.update(i as int, old(self).items@[j as int]).update(
                j as int,
                old(self).items@[i as int],
            ),
            final(self)@ == old(self)@,
    {
        proof {
            lemma_swap_keeps_multiset(self.items@, i as int, j as int);
        }
        let a = self.items[i];
        let b = self.items[j];
        self.items.set(i, b);
        self.items.set(j, a);
    }

    /// Adds an entry.
    pub fn push(&mut self, e: NodeCost)
        requires
            old(self).wf(),
        ensures
            final(self).wf(),
            final(self)@ == old(self)@.insert(e),
    {
        proof {
            vstd::seq_lib::to_multiset_build(self.items@, e);
        }
        self.items.push(e);
        let mut i: usize = self.items.len() - 1;
        while i > 0
            invariant
                0 <= i < self.items.len(),
                self@ == old(self)@.insert(e),
                forall|j: int|
                    0 < j < self.items.len() && j != i ==> self.items@[parent(j)].cost
                        <= #[trigger] self.items@[j].cost,
                i > 0 ==> forall|c: int|
                    0 < c < self.items.len() && parent(c) == i ==> self.items@[parent(i as int)].cost
                        <= #[trigger] self.items@[c].cost,
            ensures
                self@ == old(self)@.insert(e),
                heap_ordered(self.items@),
            decreases i,
        {
            let p = (i - 1) / 2;
            if self.items[p].cost <= self.items[i].cost {
                proof {
                    assert forall|j: int| 0 < j < self.items.len() implies self.items@[parent(j)].cost
                        <= #[trigger] self.items@[j].cost by {
                        if j == i {
                            assert(parent(j) == p);
                        }
                    }
                }
                break;
            }
            let ghost s0 = self.items@;
            self.swap(p, i);
            proof {
                let s1 = self.items@;
                assert forall|j: int| 0 < j < s1.len() && j != p implies s1[parent(j)].cost
                    <= #[trigger] s1[j].cost by {
                    if j == i {
                    } else if parent(j) == i {
                        assert(s0[parent(i as int)].cost <= s0[j].cost);
                    } else if parent(j) == p {
                        assert(s0[p as int].cost <= s0[j].cost);
                    } else if j == p {
                    } else {
                        assert(s0[parent(j)].cost <= s0[j].cost);
                    }
                }
                if p > 0 {
                    assert forall|c: int| 0 < c < s1.len() && parent(c) == p implies s1[parent(
                        p as int,
                    )].cost <= #[trigger] s1[c].cost by {
                        assert(s0[parent(p as int)].cost <= s0[p as int].cost);
                        if c != i {
                            assert(s0[p as int].cost <= s0[c].cost);
                        }
                    }
                }
            }
            i = p;
        }
    }

    /// A cheapest entry, if there is one.
    pub fn peek_min(&self) -> (r: Option<NodeCost>)
        requires
            self.wf(),
        ensures
            r.is_none() <==> self@.len() == 0,
            r.is_some() ==> self@.count(r.unwrap()) > 0 && forall|x: NodeCost|
                #[trigger] self@.count(x) > 0 ==> r.unwrap().cost <= x.cost,
    {
        broadcast use vstd::seq_lib::group_to_multiset_ensures;

        proof {
            vstd::seq_lib::to_multiset_len(self.items@);
        }
        if self.items.len() == 0 {
            None
        } else {
            proof {
                assert(self.items@.contains(self.items@[0]));
                assert forall|x: NodeCost| #[trigger] self@.count(x) > 0 implies self.items@[0].cost
                    <= x.cost by {
                    assert(self.items@.contains(x));
                    let k = choose|k: int| 0 <= k < self.items.len() && self.items@[k] == x;
                    lemma_root_least(self.items@, k);
                }
            }
            Some(self.items[0])
        }
    }

    /// Takes a cheapest entry off, if there is one.
    #[verifier::rlimit(40)]
    pub fn pop_min(&mut self) -> (r: Option<NodeCost>)
        requires
            old(self).wf(),
        ensures
            final(self).wf(),
            r.is_none() <==> old(self)@.len() == 0,
            r.is_none() ==> final(self)@ == old(self)@,
            r.is_some() ==> old(self)@.count(r.unwrap()) > 0 && final(self)@ == old(self)@.remove(
                r.unwrap(),
            ) && forall|x: NodeCost| #[trigger] old(self)@.count(x) > 0 ==> r.unwrap().cost <= x.cost,
    {
        broadcast use vstd::seq_lib::group_to_multiset_ensures;

        let ghost s_old = self.items@;
        proof {
            vstd::seq_lib::to_multiset_len(self.items@);
        }
        if self.items.len() == 0 {
            return None;
        }
        let root = self.items[0];
        proof {
            assert(s_old.contains(root));
            assert forall|x: NodeCost| #[trigger] old(self)@.count(x) > 0 implies root.cost <= x.cost by {
                assert(s_old.contains(x));
                let k = choose|k: int| 0 <= k < s_old.len() && s_old[k] == x;
                lemma_root_least(s_old, k);
            }
        }
        let last = self.items.len() - 1;
        self.swap(0, last);
        let ghost s1 = self.items@;
        let ghost m1 = self@;
        let e = self.items.pop().unwrap();
        proof {
            assert(s1 =~= self.items@.push(e));
            vstd::seq_lib::to_multiset_build(self.items@, e);
            assert(self@ =~= m1.remove(e));
            assert(e == root);
        }
        let n = self.items.len();
        let mut i: usize = 0;
        while i < n / 2
            invariant
                n == self.items.len(),
                0 <= i,
                i < n || n == 0,
                self@ == old(self)@.remove(e),
                forall|j: int|
                    0 < j < n && parent(j) != i ==> self.items@[parent(j)].cost
                        <= #[trigger] self.items@[j].cost,
                i > 0 ==> forall|c: int|
                    0 < c < n && parent(c) == i ==> self.items@[parent(i as int)].cost
                        <= #[trigger] self.items@[c].cost,
            ensures
                self@ == old(self)@.remove(e),
                heap_ordered(self.items@),
            decreases n - i,
        {
            let l = 2 * i + 1;
            let r = l + 1;
            let mut m = l;
            if r < n && self.items[r].cost < self.items[l].cost {
                m = r;
            }
            proof {
                assert(parent(l as int) == i);
                assert(parent(r as int) == i);
                assert forall|j: int| 0 < j < n && parent(j) == i implies j == l || j == r by {
                }
            }
            if self.items[i].cost <= self.items[m].cost {
                proof {
                    assert forall|j: int| 0 < j < n implies self.items@[parent(j)].cost
                        <= #[trigger] self.items@[j].cost by {
                        if parent(j) == i {
                            assert(j == l || j == r);
                        }
                    }
                }
                break;
            }
            let ghost s0 = self.items@;
            self.swap(i, m);
            proof {
                let s2 = self.items@;
                assert forall|j: int| 0 < j < n && parent(j) != m implies s2[parent(j)].cost
                    <= #[trigger] s2[j].cost by {
                    if j == m {
                    } else if parent(j) == i {
                        assert(j == l || j == r);
                        assert(s0[m as int].cost <= s0[j].cost);
                    } else if j == i {
                        assert(s0[parent(i as int)].cost <= s0[m as int].cost);
                    } else {
                        assert(s0[parent(j)].cost <= s0[j].cost);
                    }
                }
                assert forall|c: int| 0 < c < n && parent(c) == m implies s2[parent(m as int)].cost
                    <= #[trigger] s2[c].cost by {
                    assert(s0[m as int].cost <= s0[c].cost);
                }
            }
            i = m;
        }
        Some(e)
    }
}

} // verus!
