//! The representation of integer variables within the solver: per-variable
//! initial domain, order (bound) literal encodings, and direct (equality)
//! literal encodings, either eagerly or lazily created.

use vstd::prelude::*;

use crate::domain::{
    lemma_count_below_le_card, lemma_count_le_rank_ub, lemma_count_step, lemma_rank_unique,
    IntSetVal,
};
use crate::meaning::LitMeaning;
use crate::trail::{Trail, TrailedInt};
use crate::view::{is_lit, BoolView, BoolViewInner};

verus! {

#[derive(Clone, Copy, Debug, PartialEq, Eq, Hash, Structural)]
/// A contiguous range of oracle variables.
pub struct VarRange {
    /// The first variable of the range.
    pub start: i32,
    /// The number of variables in the range.
    pub len: usize,
}

impl VarRange {
    /// Whether the range consists of usable positive variables.
    pub open spec fn wf(self) -> bool {
        0 < self.start && self.start + self.len <= i32::MAX
    }

    /// Whether the variable `v` lies in the range.
    pub open spec fn contains_var(self, v: int) -> bool {
        self.start <= v < self.start + self.len
    }

    /// The variable at the given offset in the range.
    pub fn index(&self, offset: usize) -> (r: i32)
        requires
            self.wf(),
            offset < self.len,
        ensures
            r == self.start + offset,
            is_lit(r as int),
    {
        self.start + (offset as i32)
    }

    /// The offset of the variable `v` in the range, if it lies in the range.
    pub fn find(&self, v: i32) -> (r: Option<usize>)
        requires
            self.wf(),
        ensures
            r is Some <==> self.contains_var(v as int),
            r is Some ==> r->Some_0 == v - self.start,
    {
        if self.start <= v && ((v - self.start) as usize) < self.len {
            Some((v - self.start) as usize)
        } else {
            None
        }
    }
}

#[derive(Debug, Clone, Copy, PartialEq, Eq, Hash, Structural)]
/// When the literals of an encoding are created.
pub enum EncodingType {
    /// The literals are created before solving starts.
    Eager,
    /// Each literal is created the first time it is mentioned.
    Lazy,
}

#[derive(Clone, Copy, Debug, PartialEq, Eq, Structural)]
/// A node in the sorted doubly linked list of lazily created order literals.
pub struct OrderNode {
    /// The value for which `var` represents the condition `x < val`.
    pub val: i64,
    /// The variable representing `x < val`.
    pub var: i32,
    /// Whether there is a node with a smaller value.
    pub has_prev: bool,
    /// The index of the node with the next smaller value.
    pub prev: u32,
    /// Whether there is a node with a larger value.
    pub has_next: bool,
    /// The index of the node with the next larger value.
    pub next: u32,
}

#[derive(Clone)]
/// The storage for lazily created order literals of an integer variable: a
/// node pool forming a doubly linked list that is kept sorted by value.
pub struct LazyOrderStorage {
    /// The index of the node with the minimum value.
    pub min_index: u32,
    /// The index of the node with the maximum value.
    pub max_index: u32,
    /// A trailed integer holding the index of the node that currently
    /// represents the lower bound, or `-1`.
    pub lb_index: TrailedInt,
    /// A trailed integer holding the index of the node that currently
    /// represents the upper bound, or `-1`.
    pub ub_index: TrailedInt,
    /// The node pool.
    pub storage: Vec<OrderNode>,
    /// The indices of the nodes in ascending order of value.
    pub ord: Ghost<Seq<int>>,
}

impl LazyOrderStorage {
    /// The number of nodes.
    pub open spec fn size(self) -> int {
        self.storage@.len() as int
    }

    /// The node at position `k` in value order.
    pub open spec fn node_at(self, k: int) -> OrderNode {
        self.storage@[self.ord@[k]]
    }

    /// Whether the node pool forms a doubly linked list sorted by value.
    pub open spec fn wf(self) -> bool {
        &&& self.ord@.len() == self.storage@.len()
        &&& self.storage@.len() <= u32::MAX
        &&& (forall|k: int| 0 <= k < self.size() ==> 0 <= #[trigger] self.ord@[k] < self.size())
        &&& (forall|k1: int, k2: int|
            0 <= k1 < k2 < self.size() ==> #[trigger] self.node_at(k1).val < #[trigger] self.node_at(
                k2,
            ).val)
        &&& (forall|k: int|
            0 <= k < self.size() ==> (#[trigger] self.node_at(k).has_next <==> k + 1 < self.size()))
        &&& (forall|k: int|
            0 <= k < self.size() - 1 ==> #[trigger] self.node_at(k).next == self.ord@[k + 1])
        &&& (forall|k: int| 0 <= k < self.size() ==> (#[trigger] self.node_at(k).has_prev <==> k > 0))
        &&& (forall|k: int|
            0 < k < self.size() ==> #[trigger] self.node_at(k).prev == self.ord@[k - 1])
        &&& (forall|k: int| 0 <= k < self.size() ==> is_lit(#[trigger] self.node_at(k).var as int))
        &&& (self.size() > 0 ==> self.min_index == self.ord@[0])
        &&& (self.size() > 0 ==> self.max_index == self.ord@[self.size() - 1])
    }

    /// Whether some node carries the value `v`.
    pub open spec fn has_val(self, v: int) -> bool {
        exists|k: int| 0 <= k < self.size() && #[trigger] self.node_at(k).val == v
    }

    /// The variable of the node carrying the value `v`.
    pub open spec fn var_of(self, v: int) -> int {
        let k = choose|k: int| 0 <= k < self.size() && #[trigger] self.node_at(k).val == v;
        self.node_at(k).var as int
    }

    /// An empty storage.
    pub fn new(lb_index: TrailedInt, ub_index: TrailedInt) -> (r: LazyOrderStorage)
        ensures
            r.wf(),
            r.size() == 0,
            r.lb_index == lb_index,
            r.ub_index == ub_index,
            forall|v: int| !r.has_val(v),
    {
        let ghost ord: Seq<int> = Seq::empty();
        LazyOrderStorage {
            min_index: 0,
            max_index: 0,
            lb_index,
            ub_index,
            storage: Vec::new(),
            ord: Ghost(ord),
        }
    }

    /// Whether the storage holds no node.
    pub fn is_empty(&self) -> (r: bool)
        ensures
            r <==> self.size() == 0,
    {
        self.storage.len() == 0
    }

    /// Find the variable representing `x < val`, if a node for `val` exists.
    pub fn find(&self, val: i64) -> (r: Option<i32>)
        requires
            self.wf(),
        ensures
            r is Some <==> self.has_val(val as int),
            r is Some ==> r->Some_0 == self.var_of(val as int) && is_lit(r->Some_0 as int),
    {
        if self.storage.len() == 0 {
            return None;
        }
        let mut idx = self.min_index;
        let ghost k: int = 0;
        loop
            invariant
                self.wf(),
                self.size() > 0,
                0 <= k < self.size(),
                idx == self.ord@[k],
                forall|j: int| 0 <= j < k ==> #[trigger] self.node_at(j).val != val,
            decreases self.size() - k,
        {
            let node = self.storage[idx as usize];
            if node.val == val {
                proof {
                    assert(self.node_at(k).val == val);
                }
                return Some(node.var);
            }
            if node.val > val || !node.has_next {
                proof {
                    assert forall|j: int| 0 <= j < self.size() implies #[trigger] self.node_at(
                        j,
                    ).val != val by {
                        if j > k {
                            assert(self.node_at(k).val < self.node_at(j).val);
                        }
                    }
                }
                return None;
            }
            idx = node.next;
            proof {
                k = k + 1;
            }
        }
    }

    /// Insert a node for the value `val` with the fresh variable `var`,
    /// keeping the list sorted; returns the variables of the neighbouring
    /// nodes with the next smaller and next larger values, if they exist.
    #[verifier::rlimit(100)]
    #[verifier::spinoff_prover]
    pub fn insert(&mut self, val: i64, var: i32) -> (r: (Option<i32>, Option<i32>))
        requires
            old(self).wf(),
            !old(self).has_val(val as int),
            is_lit(var as int),
            old(self).size() < u32::MAX,
        ensures
            final(self).wf(),
            final(self).size() == old(self).size() + 1,
            forall|i: int|
                0 <= i < old(self).storage@.len() ==> (#[trigger] final(self).storage@[i]).val
                    == old(self).storage@[i].val && final(self).storage@[i].var == old(
                    self,
                ).storage@[i].var,
            final(self).has_val(val as int),
            final(self).var_of(val as int) == var,
            forall|v: int| old(self).has_val(v) ==> final(self).has_val(v),
            forall|v: int|
                #[trigger] final(self).has_val(v) ==> old(self).has_val(v) || v == val,
            forall|v: int|
                old(self).has_val(v) ==> final(self).var_of(v) == old(self).var_of(v),
            final(self).lb_index == old(self).lb_index,
            final(self).ub_index == old(self).ub_index,
            ({
                let (pv, nv) = r;
                &&& (pv is Some <==> exists|v: int| old(self).has_val(v) && v < val)
                &&& (pv is Some ==> exists|v: int|
                    old(self).has_val(v) && v < val && pv->Some_0 == old(self).var_of(v)
                        && (forall|u: int| old(self).has_val(u) && u < val ==> u <= v))
                &&& (nv is Some <==> exists|v: int| old(self).has_val(v) && v > val)
                &&& (nv is Some ==> exists|v: int|
                    old(self).has_val(v) && v > val && nv->Some_0 == old(self).var_of(v)
                        && (forall|u: int| old(self).has_val(u) && u > val ==> u >= v))
            }),
    {
        let ghost pre = *self;
        // Find the position of the first node with a value above `val`.
        let mut below: Option<u32> = None;
        let mut above: Option<u32> = None;
        let ghost mut kpos: int = 0;
        if self.storage.len() > 0 {
            let mut idx = self.min_index;
            let ghost mut k: int = 0;
            loop
                invariant_except_break
                    self.wf(),
                    self.size() > 0,
                    !self.has_val(val as int),
                    0 <= k < self.size(),
                    idx == self.ord@[k],
                    forall|j: int| 0 <= j < k ==> #[trigger] self.node_at(j).val < val,
                    below == if k == 0 {
                        None::<u32>
                    } else {
                        Some(self.ord@[k - 1] as u32)
                    },
                    above is None,
                ensures
                    self.wf(),
                    self.size() > 0,
                    !self.has_val(val as int),
                    0 <= kpos <= self.size(),
                    forall|j: int| 0 <= j < kpos ==> #[trigger] self.node_at(j).val < val,
                    forall|j: int| kpos <= j < self.size() ==> #[trigger] self.node_at(j).val > val,
                    below == if kpos == 0 {
                        None::<u32>
                    } else {
                        Some(self.ord@[kpos - 1] as u32)
                    },
                    above == if kpos == self.size() {
                        None::<u32>
                    } else {
                        Some(self.ord@[kpos] as u32)
                    },
                decreases self.size() - k,
            {
                let node = self.storage[idx as usize];
                if node.val > val {
                    above = Some(idx);
                    proof {
                        kpos = k;
                        assert forall|j: int| kpos <= j < self.size() implies #[trigger] self
                            .node_at(j).val > val by {
                            if j > k {
                                assert(self.node_at(k).val < self.node_at(j).val);
                            }
                        }
                    }
                    break ;
                }
                proof {
                    assert(self.node_at(k).val != val);
                }
                if !node.has_next {
                    below = Some(idx);
                    proof {
                        kpos = k + 1;
                    }
                    break ;
                }
                below = Some(idx);
                idx = node.next;
                proof {
                    k = k + 1;
                }
            }
        }
        // Create the node and splice it into the list.
        let new_idx = self.storage.len() as u32;
        let node = OrderNode {
            val,
            var,
            has_prev: below.is_some(),
            prev: match below {
                Some(i) => i,
                None => 0,
            },
            has_next: above.is_some(),
            next: match above {
                Some(i) => i,
                None => 0,
            },
        };
        self.storage.push(node);
        match below {
            Some(i) => {
                let mut n = self.storage[i as usize];
                n.has_next = true;
                n.next = new_idx;
                self.storage.set(i as usize, n);
            },
            None => {
                self.min_index = new_idx;
            },
        }
        match above {
            Some(i) => {
                let mut n = self.storage[i as usize];
                n.has_prev = true;
                n.prev = new_idx;
                self.storage.set(i as usize, n);
            },
            None => {
                self.max_index = new_idx;
            },
        }
        proof {
            self.ord@ = pre.ord@.insert(kpos, new_idx as int);
        }
        let prev_var = match below {
            Some(i) => Some(self.storage[i as usize].var),
            None => None,
        };
        let next_var = match above {
            Some(i) => Some(self.storage[i as usize].var),
            None => None,
        };
        proof {
            lemma_insert_wf(pre, *self, kpos, new_idx as int, val as int, var as int);
            if kpos > 0 {
                let w = pre.node_at(kpos - 1).val as int;
                assert(pre.has_val(w) && w < val && prev_var == Some(
                    pre.node_at(kpos - 1).var,
                ) && pre.var_of(w) == pre.node_at(kpos - 1).var && (forall|u: int|
                    pre.has_val(u) && u < val ==> u <= w));
            } else {
                assert forall|v: int| pre.has_val(v) implies v > val by {
                    let k = choose|k: int|
                        0 <= k < pre.size() && #[trigger] pre.node_at(k).val == v;
                }
            }
            if kpos < pre.size() {
                let w = pre.node_at(kpos).val as int;
                assert(pre.has_val(w) && w > val && next_var == Some(pre.node_at(kpos).var)
                    && pre.var_of(w) == pre.node_at(kpos).var && (forall|u: int|
                    pre.has_val(u) && u > val ==> u >= w));
            } else {
                assert forall|v: int| pre.has_val(v) implies v < val by {
                    let k = choose|k: int|
                        0 <= k < pre.size() && #[trigger] pre.node_at(k).val == v;
                }
            }
        }
        (prev_var, next_var)
    }
}

/// After splicing a fresh node into the linked list at position `kpos` of
/// the value order, the storage is again a well-formed sorted list and its
/// value set has grown by exactly the new value.
#[verifier::rlimit(100)]
#[verifier::spinoff_prover]
proof fn lemma_insert_wf(
    pre: LazyOrderStorage,
    post: LazyOrderStorage,
    kpos: int,
    new_idx: int,
    val: int,
    var: int,
)
    requires
        pre.wf(),
        !pre.has_val(val),
        is_lit(var),
        i64::MIN <= val <= i64::MAX,
        i32::MIN <= var <= i32::MAX,
        pre.size() < u32::MAX,
        new_idx == pre.size(),
        0 <= kpos <= pre.size(),
        forall|j: int| 0 <= j < kpos ==> #[trigger] pre.node_at(j).val < val,
        forall|j: int| kpos <= j < pre.size() ==> #[trigger] pre.node_at(j).val > val,
        post.ord@ == pre.ord@.insert(kpos, new_idx),
        post.storage@.len() == pre.size() + 1,
        post.storage@[new_idx] == (OrderNode {
            val: val as i64,
            var: var as i32,
            has_prev: kpos > 0,
            prev: if kpos > 0 {
                pre.ord@[kpos - 1] as u32
            } else {
                0
            },
            has_next: kpos < pre.size(),
            next: if kpos < pre.size() {
                pre.ord@[kpos] as u32
            } else {
                0
            },
        }),
        kpos > 0 ==> post.storage@[pre.ord@[kpos - 1]] == (OrderNode {
            has_next: true,
            next: new_idx as u32,
            ..pre.storage@[pre.ord@[kpos - 1]]
        }),
        kpos < pre.size() ==> post.storage@[pre.ord@[kpos]] == (OrderNode {
            has_prev: true,
            prev: new_idx as u32,
            ..pre.storage@[pre.ord@[kpos]]
        }),
        forall|i: int|
            0 <= i < pre.size() && i != (if kpos > 0 {
                pre.ord@[kpos - 1]
            } else {
                -1
            }) && i != (if kpos < pre.size() {
                pre.ord@[kpos]
            } else {
                -1
            }) ==> #[trigger] post.storage@[i] == pre.storage@[i],
        post.min_index == if kpos == 0 {
            new_idx as u32
        } else {
            pre.min_index
        },
        post.max_index == if kpos == pre.size() {
            new_idx as u32
        } else {
            pre.max_index
        },
    ensures
        post.wf(),
        post.has_val(val),
        post.var_of(val) == var,
        forall|v: int| pre.has_val(v) ==> post.has_val(v),
        forall|v: int| #[trigger] post.has_val(v) ==> pre.has_val(v) || v == val,
        forall|v: int| pre.has_val(v) ==> post.var_of(v) == pre.var_of(v),
{
    let n = pre.size();
    assert(post.ord@.len() == n + 1) by {
        assert(pre.ord@.insert(kpos, new_idx).len() == n + 1);
    }
    assert forall|j: int| 0 <= j <= n implies #[trigger] post.ord@[j] == (if j < kpos {
        pre.ord@[j]
    } else if j == kpos {
        new_idx
    } else {
        pre.ord@[j - 1]
    }) by {
        assert(post.ord@ == pre.ord@.subrange(0, kpos).push(new_idx) + pre.ord@.subrange(
            kpos,
            n as int,
        ));
        if j < kpos {
            assert(post.ord@[j] == pre.ord@.subrange(0, kpos).push(new_idx)[j]);
        } else if j == kpos {
            assert(post.ord@[j] == pre.ord@.subrange(0, kpos).push(new_idx)[kpos]);
        } else {
            assert(post.ord@[j] == pre.ord@.subrange(kpos, n as int)[j - kpos - 1]);
        }
    }
    assert forall|k1: int, k2: int| 0 <= k1 < k2 < n implies pre.ord@[k1] != pre.ord@[k2] by {
        assert(pre.node_at(k1).val < pre.node_at(k2).val);
    }
    assert forall|k: int| 0 <= k <= n implies (#[trigger] post.node_at(k)).val == (if k < kpos {
        pre.node_at(k).val
    } else if k == kpos {
        val as i64
    } else {
        pre.node_at(k - 1).val
    }) && post.node_at(k).var == (if k < kpos {
        pre.node_at(k).var
    } else if k == kpos {
        var as i32
    } else {
        pre.node_at(k - 1).var
    }) by {
        if k < kpos {
            assert(0 <= pre.ord@[k] < n);
            if kpos < n && pre.ord@[k] == pre.ord@[kpos] {
                assert(false);
            }
            if k < kpos - 1 && pre.ord@[k] == pre.ord@[kpos - 1] {
                assert(false);
            }
        } else if k > kpos {
            assert(0 <= pre.ord@[k - 1] < n);
            if kpos > 0 && pre.ord@[k - 1] == pre.ord@[kpos - 1] {
                assert(false);
            }
            if k - 1 > kpos && kpos < n && pre.ord@[k - 1] == pre.ord@[kpos] {
                assert(false);
            }
        }
    }
    assert forall|k: int| 0 <= k <= n implies (#[trigger] post.node_at(k)).has_next == (k < n) && (
    k < n ==> post.node_at(k).next == post.ord@[k + 1]) && post.node_at(k).has_prev == (k > 0) && (
    k > 0 ==> post.node_at(k).prev == post.ord@[k - 1]) by {
        if k < kpos {
            assert(0 <= pre.ord@[k] < n);
            if kpos < n && pre.ord@[k] == pre.ord@[kpos] {
                assert(false);
            }
            if k < kpos - 1 && pre.ord@[k] == pre.ord@[kpos - 1] {
                assert(false);
            }
        } else if k > kpos {
            assert(0 <= pre.ord@[k - 1] < n);
            if kpos > 0 && pre.ord@[k - 1] == pre.ord@[kpos - 1] {
                assert(false);
            }
            if k - 1 > kpos && kpos < n && pre.ord@[k - 1] == pre.ord@[kpos] {
                assert(false);
            }
        }
    }
    assert(post.wf()) by {
        assert forall|k1: int, k2: int| 0 <= k1 < k2 <= n implies #[trigger] post.node_at(
            k1,
        ).val < #[trigger] post.node_at(k2).val by {
            if k1 < kpos && k2 < kpos {
                assert(pre.node_at(k1).val < pre.node_at(k2).val);
            } else if k1 < kpos && k2 == kpos {
                assert(pre.node_at(k1).val < val);
            } else if k1 < kpos && k2 > kpos {
                assert(pre.node_at(k1).val < pre.node_at(k2 - 1).val);
            } else if k1 == kpos {
                assert(pre.node_at(k2 - 1).val > val);
            } else {
                assert(pre.node_at(k1 - 1).val < pre.node_at(k2 - 1).val);
            }
        }
        assert forall|k: int| 0 <= k <= n implies 0 <= #[trigger] post.ord@[k] < n + 1 by {}
    }
    assert(post.node_at(kpos).val == val);
    assert(post.has_val(val));
    assert(post.var_of(val) == var) by {
        let k2 = choose|k2: int| 0 <= k2 < post.size() && #[trigger] post.node_at(k2).val == val;
        if k2 < kpos {
            assert(pre.node_at(k2).val == val);
            assert(pre.has_val(val));
        } else if k2 > kpos {
            assert(pre.node_at(k2 - 1).val == val);
            assert(pre.has_val(val));
        }
    }
    assert forall|v: int| pre.has_val(v) implies post.has_val(v) && post.var_of(v)
        == pre.var_of(v) by {
        let k = choose|k: int| 0 <= k < pre.size() && #[trigger] pre.node_at(k).val == v;
        if k < kpos {
            assert(post.node_at(k).val == v);
        } else {
            assert(post.node_at(k + 1).val == v);
        }
        assert(post.has_val(v));
        let k2 = choose|k2: int| 0 <= k2 < post.size() && #[trigger] post.node_at(k2).val == v;
        let ke = choose|ke: int| 0 <= ke < pre.size() && #[trigger] pre.node_at(ke).val == v;
        assert(pre.node_at(ke).val == v);
        if k2 < kpos {
            assert(pre.node_at(k2).val == v);
            if ke < k2 {
                assert(pre.node_at(ke).val < pre.node_at(k2).val);
            }
            if k2 < ke {
                assert(pre.node_at(k2).val < pre.node_at(ke).val);
            }
            assert(pre.node_at(k2).var == pre.node_at(ke).var);
        } else if k2 == kpos {
            assert(v == val);
            assert(false);
        } else {
            assert(pre.node_at(k2 - 1).val == v);
            if ke < k2 - 1 {
                assert(pre.node_at(ke).val < pre.node_at(k2 - 1).val);
            }
            if k2 - 1 < ke {
                assert(pre.node_at(k2 - 1).val < pre.node_at(ke).val);
            }
            assert(pre.node_at(k2 - 1).var == pre.node_at(ke).var);
        }
    }
    assert forall|v: int| #[trigger] post.has_val(v) implies pre.has_val(v) || v == val by {
        let k = choose|k: int| 0 <= k < post.size() && #[trigger] post.node_at(k).val == v;
        if k < kpos {
            assert(pre.node_at(k).val == v);
        } else if k > kpos {
            assert(pre.node_at(k - 1).val == v);
        }
    }
}

#[derive(Clone, Copy, Debug, PartialEq, Eq, Structural)]
/// A counter handing out fresh oracle variables in ascending order. The
/// oracle is asked to create its variables in the same order, so the two
/// numberings agree.
pub struct VarFactory {
    /// The next variable to be handed out.
    pub next_var: i32,
}

impl VarFactory {
    /// Whether the factory can still hand out variables.
    pub open spec fn wf(self) -> bool {
        0 < self.next_var
    }

    /// A factory whose first variable is `1`.
    pub fn new() -> (r: VarFactory)
        ensures
            r.wf(),
            r.next_var == 1,
    {
        VarFactory { next_var: 1 }
    }

    /// Hand out the next variable.
    pub fn new_var(&mut self) -> (r: i32)
        requires
            old(self).wf(),
            old(self).next_var < i32::MAX,
        ensures
            final(self).wf(),
            r == old(self).next_var,
            final(self).next_var == old(self).next_var + 1,
            is_lit(r as int),
    {
        let v = self.next_var;
        self.next_var = self.next_var + 1;
        v
    }

    /// Hand out a contiguous range of `len` variables.
    pub fn new_var_range(&mut self, len: usize) -> (r: VarRange)
        requires
            old(self).wf(),
            old(self).next_var + len <= i32::MAX,
        ensures
            final(self).wf(),
            r.start == old(self).next_var,
            r.len == len,
            r.wf(),
            final(self).next_var == old(self).next_var + len,
    {
        let start = self.next_var;
        self.next_var = self.next_var + (len as i32);
        VarRange { start, len }
    }
}

#[derive(Clone)]
/// The storage used for the variables of the inequality (order) conditions
/// of an integer variable.
pub enum OrderStorage {
    /// Variables for all inequality conditions are eagerly created and
    /// stored in order.
    Eager {
        /// A trailed integer holding the current lower bound of the
        /// variable.
        lower_bound: TrailedInt,
        /// The contiguous range of variables representing the inequality
        /// conditions.
        storage: VarRange,
    },
    /// Variables for inequality conditions are created lazily and stored in
    /// a sorted linked node pool.
    Lazy(LazyOrderStorage),
}

#[derive(Clone)]
/// The storage used for the variables of the equality (direct) conditions
/// of an integer variable.
pub enum DirectStorage {
    /// Variables for all equality conditions on the inner domain values are
    /// eagerly created and stored in order.
    Eager(VarRange),
    /// Variables for equality conditions are created lazily and stored as
    /// pairs of value and variable.
    Lazy(Vec<(i64, i32)>),
}

#[derive(Clone)]
/// The representation of an integer variable within the solver.
pub struct IntVar {
    /// The direct (equality) encoding of the variable.
    pub direct_encoding: DirectStorage,
    /// The set of values the variable could take at creation.
    pub domain: IntSetVal,
    /// The order (bound) encoding of the variable.
    pub order_encoding: OrderStorage,
    /// A trailed integer holding the current upper bound of the variable.
    ///
    /// The lower bound is tracked within the order encoding.
    pub upper_bound: TrailedInt,
}

/// Whether the association list holds an entry for the value `i`.
pub open spec fn assoc_has(m: Seq<(i64, i32)>, i: int) -> bool {
    exists|j: int| 0 <= j < m.len() && (#[trigger] m[j]).0 == i
}

/// The variable associated with the value `i` in the association list.
pub open spec fn assoc_get(m: Seq<(i64, i32)>, i: int) -> int {
    let j = choose|j: int| 0 <= j < m.len() && (#[trigger] m[j]).0 == i;
    m[j].1 as int
}

/// Find the variable associated with the value `i`, if present.
pub fn assoc_find(m: &Vec<(i64, i32)>, i: i64) -> (r: Option<i32>)
    ensures
        r is Some <==> assoc_has(m@, i as int),
        r is Some ==> r->Some_0 == assoc_get(m@, i as int) || exists|j: int|
            0 <= j < m@.len() && (#[trigger] m@[j]).0 == i && m@[j].1 == r->Some_0,
{
    let n = m.len();
    let mut k: usize = 0;
    while k < n
        invariant
            n == m@.len(),
            0 <= k <= n,
            forall|j: int| 0 <= j < k ==> (#[trigger] m@[j]).0 != i,
        decreases n - k,
    {
        let (v, l) = m[k];
        if v == i {
            return Some(l);
        }
        k = k + 1;
    }
    None
}

/// The clause `c` is an implication between two order literals of the
/// storage whose thresholds are ordered: the defining clause shape of a
/// lazily created order literal.
pub open spec fn chain_clause_ok(st: LazyOrderStorage, c: Seq<i32>) -> bool {
    exists|l1: int, l2: int, w1: int, w2: int|
        #![auto]
        c =~= seq![(-l1) as i32, l2 as i32] && is_lit(l1) && is_lit(l2) && w1 < w2 && st.has_val(
            w1,
        ) && st.var_of(w1) == l1 && st.has_val(w2) && st.var_of(w2) == l2
}

/// The three clauses defining a lazily created equality literal `e` for
/// the value `i`, in terms of the order literals `l1` (for `< i`) and `l2`
/// (for `<` the next domain value): `e` implies at least `i`, `e` implies
/// below the next value, and outside that window `e` is false.
pub open spec fn eq_clauses_ok(x: IntVar, i: int, c1: Seq<i32>, c2: Seq<i32>, c3: Seq<i32>) -> bool {
    exists|e: int, l1: int, l2: int|
        #![auto]
        is_lit(e) && is_lit(l1) && is_lit(l2) && x.direct_lit_is(i, e) && x.order_lit_is(i, l1)
            && x.order_lit_is(x.domain.count_next_spec(i), l2) && c1 =~= seq![
    (-e) as i32,
    (-l1) as i32,
] && c2 =~= seq![(-e) as i32, l2 as i32] && c3 =~= seq![e as i32, l1 as i32, (-l2) as i32]
}

/// Apply a negation flag to a Boolean view.
pub open spec fn apply_neg(neg: bool, bv: BoolView) -> BoolView {
    if neg {
        match bv.0 {
            BoolViewInner::Lit(l) => BoolView(BoolViewInner::Lit((-(l as int)) as i32)),
            BoolViewInner::Const(b) => BoolView(BoolViewInner::Const(!b)),
        }
    } else {
        bv
    }
}

/// The normalization of a requested literal meaning against the initial
/// domain bounds: equality with a bound becomes an order condition, and
/// `NotEq` / `GreaterEq` are replaced by their negated duals. The flag
/// records whether the resulting literal must be negated.
pub open spec fn normalize_spec(m: LitMeaning, lb: int, ub: int) -> (LitMeaning, bool) {
    match m {
        LitMeaning::Eq(i) => if i == lb {
            (LitMeaning::Less((lb + 1) as i64), false)
        } else if i == ub {
            (LitMeaning::Less(ub as i64), true)
        } else {
            (m, false)
        },
        LitMeaning::NotEq(i) => if i == lb {
            (LitMeaning::Less((lb + 1) as i64), true)
        } else if i == ub {
            (LitMeaning::Less(ub as i64), false)
        } else {
            (LitMeaning::Eq(i), true)
        },
        LitMeaning::GreaterEq(i) => (LitMeaning::Less(i), true),
        LitMeaning::Less(i) => (m, false),
    }
}

impl IntVar {
    /// The smallest value of the initial domain.
    pub open spec fn dlb(self) -> int {
        self.domain.lb_spec()
    }

    /// The largest value of the initial domain.
    pub open spec fn dub(self) -> int {
        self.domain.ub_spec()
    }

    /// Whether the variable representation is well formed: the domain has
    /// at least two values, eager storages have exactly one variable per
    /// encodable condition, and a lazy order list stores only inner domain
    /// values.
    pub open spec fn wf(self) -> bool {
        &&& self.domain.wf()
        &&& self.domain.ranges@.len() > 0
        &&& 2 <= self.domain.card_spec() <= usize::MAX
        &&& self.dlb() < self.dub()
        &&& match self.order_encoding {
            OrderStorage::Eager { lower_bound, .. } => lower_bound.idx != self.upper_bound.idx,
            OrderStorage::Lazy(st) => st.lb_index.idx != self.upper_bound.idx
                && st.ub_index.idx != self.upper_bound.idx && st.lb_index.idx != st.ub_index.idx,
        }
        &&& match self.order_encoding {
            OrderStorage::Eager { storage, .. } => storage.wf() && storage.len
                == self.domain.card_spec() - 1,
            OrderStorage::Lazy(st) => {
                &&& st.wf()
                &&& forall|k: int|
                    0 <= k < st.size() ==> self.domain.contains_spec(
                        (#[trigger] st.node_at(k)).val as int,
                    ) && self.dlb() < st.node_at(k).val
            },
        }
        &&& match self.direct_encoding {
            DirectStorage::Eager(vr) => vr.wf() && vr.len == self.domain.card_spec() - 2
                && self.order_encoding is Eager,
            DirectStorage::Lazy(map) => (forall|j: int|
                0 <= j < map@.len() ==> self.domain.contains_spec((#[trigger] map@[j]).0 as int)
                    && self.dlb() < map@[j].0 < self.dub() && is_lit(map@[j].1 as int)) && (
            forall|j1: int, j2: int|
                0 <= j1 < j2 < map@.len() ==> (#[trigger] map@[j1]).0 != (#[trigger] map@[j2]).0)
                && (forall|j: int|
                0 <= j < map@.len() ==> match self.order_encoding {
                    OrderStorage::Lazy(st) => st.has_val((#[trigger] map@[j]).0 as int)
                        && st.has_val(self.domain.count_next_spec(map@[j].0 as int)),
                    OrderStorage::Eager { .. } => true,
                }),
        }
    }

    /// The positive literal that represents the condition `x < w`, for a
    /// canonical threshold `w` (an inner domain value above the smallest).
    pub open spec fn order_lit_is(self, w: int, l: int) -> bool {
        match self.order_encoding {
            OrderStorage::Eager { storage, .. } => l == storage.start + self.domain.count_below(w)
                - 1,
            OrderStorage::Lazy(st) => st.has_val(w) && l == st.var_of(w),
        }
    }

    /// The canonical threshold for a requested order condition `< i`: the
    /// smallest domain value `w` with the same set of domain values below
    /// it, so that `x < i` and `x < w` agree on the domain.
    pub open spec fn resolved(self, i: int) -> int {
        choose|w: int|
            self.domain.contains_spec(w) && self.domain.count_below(w)
                == self.domain.count_below(i) && i <= w
    }

    /// Look up the Boolean view for the given meaning, without creating any
    /// literal.
    ///
    /// Conditions that are trivially decided by the initial domain come
    /// back as constants. With eager encodings the literal is computed by
    /// offset arithmetic; with lazy encodings `None` is returned when the
    /// literal has not been created.
    pub fn get_bool_lit(&self, m: LitMeaning) -> (r: Option<BoolView>)
        requires
            self.wf(),
        ensures
            ({
                let (m2, neg) = normalize_spec(m, self.dlb(), self.dub());
                match m2 {
                    LitMeaning::Less(i) => {
                        &&& (i <= self.dlb() ==> r == Some(
                            apply_neg(neg, BoolView(BoolViewInner::Const(false))),
                        ))
                        &&& (i > self.dub() ==> r == Some(
                            apply_neg(neg, BoolView(BoolViewInner::Const(true))),
                        ))
                        &&& (self.dlb() < i <= self.dub() ==> match r {
                            Some(bv) => exists|l: int|
                                #![auto]
                                is_lit(l) && self.order_lit_is(self.resolved(i as int), l) && bv
                                    == apply_neg(neg, BoolView(BoolViewInner::Lit(l as i32))),
                            None => self.order_encoding is Lazy && !self.order_has_resolved(
                                i as int,
                            ),
                        })
                    },
                    LitMeaning::Eq(i) => {
                        &&& (!self.domain.contains_spec(i as int) ==> r == Some(
                            apply_neg(neg, BoolView(BoolViewInner::Const(false))),
                        ))
                        &&& (self.domain.contains_spec(i as int) && self.dlb() < i < self.dub()
                            ==> match r {
                            Some(bv) => exists|l: int|
                                #![auto]
                                is_lit(l) && self.direct_lit_is(i as int, l) && bv == apply_neg(
                                    neg,
                                    BoolView(BoolViewInner::Lit(l as i32)),
                                ),
                            None => self.direct_encoding is Lazy && !self.direct_has(i as int),
                        })
                    },
                    _ => true,
                }
            }),
    {
        let lb = self.domain.lower_bound();
        let ub = self.domain.upper_bound();
        let (m2, neg) = self.normalize_lit_meaning(m, lb, ub);
        let bv: Option<BoolView> = match m2 {
            LitMeaning::Less(i) => {
                if i <= lb {
                    Some(BoolView(BoolViewInner::Const(false)))
                } else if i > ub {
                    Some(BoolView(BoolViewInner::Const(true)))
                } else {
                    match self.order_lit_lookup(i) {
                        Some(v) => Some(BoolView(BoolViewInner::Lit(v))),
                        None => None,
                    }
                }
            },
            LitMeaning::Eq(i) => {
                if !self.domain.contains(i) {
                    Some(BoolView(BoolViewInner::Const(false)))
                } else {
                    proof {
                        crate::domain::lemma_contains_in_bounds(&self.domain, i as int);
                    }
                    match self.direct_lit_lookup(i) {
                        Some(v) => Some(BoolView(BoolViewInner::Lit(v))),
                        None => None,
                    }
                }
            },
            _ => None,
        };
        match bv {
            Some(b) => if neg {
                Some(b.negate())
            } else {
                Some(b)
            },
            None => None,
        }
    }

    /// Look up the positive order literal for the condition `x < i`, if it
    /// has been created.
    fn order_lit_lookup(&self, i: i64) -> (r: Option<i32>)
        requires
            self.wf(),
            self.dlb() < i <= self.dub(),
        ensures
            match r {
                Some(l) => is_lit(l as int) && self.order_lit_is(self.resolved(i as int), l as int),
                None => self.order_encoding is Lazy && !self.order_has_resolved(i as int),
            },
    {
        let (w, offset) = self.domain.resolve_val(i);
        proof {
            lemma_resolved_is(self, i as int, w as int);
        }
        match &self.order_encoding {
            OrderStorage::Eager { storage, .. } => {
                proof {
                    lemma_count_le_rank_ub(&self.domain, i as int);
                }
                Some(storage.index(offset))
            },
            OrderStorage::Lazy(st) => st.find(w),
        }
    }

    /// Look up the positive direct literal for the condition `x = i` on an
    /// inner domain value, if it has been created.
    fn direct_lit_lookup(&self, i: i64) -> (r: Option<i32>)
        requires
            self.wf(),
            self.domain.contains_spec(i as int),
            self.dlb() < i < self.dub(),
        ensures
            match r {
                Some(l) => is_lit(l as int) && self.direct_lit_is(i as int, l as int),
                None => self.direct_encoding is Lazy && !self.direct_has(i as int),
            },
    {
        match &self.direct_encoding {
            DirectStorage::Eager(vars) => {
                let (w, offset) = self.domain.resolve_val(i);
                proof {
                    assert(w == i) by {
                        lemma_rank_unique_self(self, i as int, w as int);
                    }
                    lemma_count_step(&self.domain, i as int);
                    lemma_count_le_rank_ub(&self.domain, i as int + 1);
                    lemma_count_below_le_card(&self.domain, i as int);
                }
                Some(vars.index(offset))
            },
            DirectStorage::Lazy(map) => assoc_find(map, i),
        }
    }

    /// Whether a lazy order storage holds the literal for the canonical
    /// threshold of the condition `< i`.
    pub open spec fn order_has_resolved(self, i: int) -> bool {
        match self.order_encoding {
            OrderStorage::Eager { .. } => true,
            OrderStorage::Lazy(st) => st.has_val(self.resolved(i)),
        }
    }

    /// Whether the direct encoding holds a literal for the condition `= i`.
    pub open spec fn direct_has(self, i: int) -> bool {
        match self.direct_encoding {
            DirectStorage::Eager(_) => true,
            DirectStorage::Lazy(map) => assoc_has(map@, i),
        }
    }

    /// The positive literal that represents the condition `x = i` for an
    /// inner domain value `i`.
    pub open spec fn direct_lit_is(self, i: int, l: int) -> bool {
        match self.direct_encoding {
            DirectStorage::Eager(vr) => l == vr.start + self.domain.count_below(i) - 1,
            DirectStorage::Lazy(map) => exists|j: int|
                0 <= j < map@.len() && (#[trigger] map@[j]).0 == i && map@[j].1 == l,

        }
    }

    /// Normalize a meaning for lookup, also returning whether the result
    /// stands for the negation of the request.
    fn normalize_lit_meaning(&self, m: LitMeaning, lb: i64, ub: i64) -> (r: (LitMeaning, bool))
        requires
            self.wf(),
            lb == self.dlb(),
            ub == self.dub(),
        ensures
            r == normalize_spec(m, lb as int, ub as int),
    {
        match m {
            LitMeaning::Eq(i) => {
                if i == lb {
                    (LitMeaning::Less(lb + 1), false)
                } else if i == ub {
                    (LitMeaning::Less(ub), true)
                } else {
                    (LitMeaning::Eq(i), false)
                }
            },
            LitMeaning::NotEq(i) => {
                if i == lb {
                    (LitMeaning::Less(lb + 1), true)
                } else if i == ub {
                    (LitMeaning::Less(ub), false)
                } else {
                    (LitMeaning::Eq(i), true)
                }
            },
            LitMeaning::GreaterEq(i) => (LitMeaning::Less(i), true),
            LitMeaning::Less(i) => (LitMeaning::Less(i), false),
        }
    }
}

impl IntVar {
    /// The domain value with exactly `rank` domain values below it.
    pub open spec fn nth_val(self, rank: int) -> int {
        choose|w: int| self.domain.contains_spec(w) && self.domain.count_below(w) == rank
    }

    /// Whether the trailed cells used by this variable exist in the trail,
    /// and the lazy cursors are valid node indices (or `-1`).
    pub open spec fn trail_wf(self, trail: Trail) -> bool {
        &&& self.upper_bound.idx < trail.int_value@.len()
        &&& match self.order_encoding {
            OrderStorage::Eager { lower_bound, .. } => lower_bound.idx < trail.int_value@.len(),
            OrderStorage::Lazy(st) => {
                &&& st.lb_index.idx < trail.int_value@.len()
                &&& st.ub_index.idx < trail.int_value@.len()
                &&& -1 <= trail.int_value@[st.lb_index.idx as int] < st.size()
                &&& -1 <= trail.int_value@[st.ub_index.idx as int] < st.size()
            },
        }
    }

    /// The current lower bound of the variable under the given trail.
    pub open spec fn lb_of(self, trail: Trail) -> int {
        match self.order_encoding {
            OrderStorage::Eager { lower_bound, .. } => trail.int_value@[lower_bound.idx as int] as int,
            OrderStorage::Lazy(st) => {
                let c = trail.int_value@[st.lb_index.idx as int];
                if c >= 0 {
                    st.storage@[c as int].val as int
                } else {
                    self.dlb()
                }
            },
        }
    }

    /// The current upper bound of the variable under the given trail.
    pub open spec fn ub_of(self, trail: Trail) -> int {
        trail.int_value@[self.upper_bound.idx as int] as int
    }

    /// Returns the lower bound of the current state of the variable.
    pub fn get_lower_bound(&self, trail: &Trail) -> (r: i64)
        requires
            self.wf(),
            self.trail_wf(*trail),
            trail.wf(),
        ensures
            r == self.lb_of(*trail),
    {
        match &self.order_encoding {
            OrderStorage::Eager { lower_bound, .. } => trail.get_trailed_int(*lower_bound),
            OrderStorage::Lazy(st) => {
                let low = trail.get_trailed_int(st.lb_index);
                if low >= 0 {
                    st.storage[low as usize].val
                } else {
                    self.domain.lower_bound()
                }
            },
        }
    }

    /// Returns the upper bound of the current state of the variable.
    pub fn get_upper_bound(&self, trail: &Trail) -> (r: i64)
        requires
            self.wf(),
            self.trail_wf(*trail),
            trail.wf(),
        ensures
            r == self.ub_of(*trail),
    {
        trail.get_trailed_int(self.upper_bound)
    }

    /// Returns the lower and upper bounds of the current state of the
    /// variable.
    pub fn get_bounds(&self, trail: &Trail) -> (r: (i64, i64))
        requires
            self.wf(),
            self.trail_wf(*trail),
            trail.wf(),
        ensures
            r.0 == self.lb_of(*trail),
            r.1 == self.ub_of(*trail),
    {
        (self.get_lower_bound(trail), self.get_upper_bound(trail))
    }

    /// The largest domain value that is at most `val`: the tightened upper
    /// bound recorded when a literal `x < val + 1` becomes true.
    pub fn tighten_upper_bound(&self, val: i64) -> (r: i64)
        requires
            self.wf(),
            self.dlb() <= val,
        ensures
            self.domain.contains_spec(r as int),
            r <= val,
            forall|x: int| self.domain.contains_spec(x) && x <= val ==> x <= r,
            r == self.domain.largest_le_spec(val as int),
    {
        self.domain.largest_le(val)
    }

    /// Record a newly propagated lower bound, returning the previous lower
    /// bound.
    ///
    /// The literal witnessing the bound must already have been created, so
    /// for a lazy order encoding a node for `val` exists (unless `val` is
    /// the initial bound, in which case nothing changes).
    pub fn notify_lower_bound(&self, trail: &mut Trail, val: i64) -> (r: i64)
        requires
            self.wf(),
            self.trail_wf(*old(trail)),
            old(trail).wf(),
            old(trail).redo_wf(),
            old(trail).pos == old(trail).trail@.len(),
            match self.order_encoding {
                OrderStorage::Eager { .. } => true,
                OrderStorage::Lazy(st) => (val == self.dlb() && self.lb_of(*old(trail))
                    == self.dlb()) || st.has_val(val as int),
            },
        ensures
            final(trail).wf(),
            final(trail).redo_wf(),
            final(trail).pos == final(trail).trail@.len(),
            final(trail).int_value@.len() == old(trail).int_value@.len(),
            final(trail).sat_store@ == old(trail).sat_store@,
            final(trail).prev_len@ == old(trail).prev_len@,
            forall|l: int|
                0 <= l < old(trail).prev_len@.len() ==> #[trigger] final(trail).level_values(l)
                    == old(trail).level_values(l),
            self.trail_wf(*final(trail)),
            r == self.lb_of(*old(trail)),
            self.lb_of(*final(trail)) == val,
            self.ub_of(*final(trail)) == self.ub_of(*old(trail)),
            forall|c: int|
                0 <= c < old(trail).int_value@.len() && c != self.cursor_cell_lb() && c
                    != self.bound_cell_lb() ==> #[trigger] final(trail).int_value@[c] == old(
                    trail,
                ).int_value@[c],
    {
        match &self.order_encoding {
            OrderStorage::Eager { lower_bound, .. } => trail.set_trailed_int(*lower_bound, val),
            OrderStorage::Lazy(st) => {
                let prev = self.get_lower_bound(trail);
                if val == self.domain.lower_bound() {
                    return prev;
                }
                proof {
                    assert(st.has_val(val as int));
                }
                let idx = st.find_idx(val);
                let _ = trail.set_trailed_int(st.lb_index, idx as i64);
                prev
            },
        }
    }

    /// The trail cell holding the lazy lower bound cursor, or `-1` when the
    /// encoding is eager.
    pub open spec fn cursor_cell_lb(self) -> int {
        match self.order_encoding {
            OrderStorage::Eager { .. } => -1,
            OrderStorage::Lazy(st) => st.lb_index.idx as int,
        }
    }

    /// The trail cell holding the lazy upper bound cursor, or `-1` when the
    /// encoding is eager.
    pub open spec fn cursor_cell_ub(self) -> int {
        match self.order_encoding {
            OrderStorage::Eager { .. } => -1,
            OrderStorage::Lazy(st) => st.ub_index.idx as int,
        }
    }

    /// The trail cell holding the eager lower bound, or `-1` when the
    /// encoding is lazy.
    pub open spec fn bound_cell_lb(self) -> int {
        match self.order_encoding {
            OrderStorage::Eager { lower_bound, .. } => lower_bound.idx as int,
            OrderStorage::Lazy(_) => -1,
        }
    }

    /// Record a newly propagated upper bound, returning the previous upper
    /// bound.
    ///
    /// The literal witnessing the bound must already have been created, so
    /// for a lazy order encoding a node for the value right above `val`
    /// exists whenever the bound actually changes.
    pub fn notify_upper_bound(&self, trail: &mut Trail, val: i64) -> (r: i64)
        requires
            self.wf(),
            self.trail_wf(*old(trail)),
            old(trail).wf(),
            old(trail).redo_wf(),
            old(trail).pos == old(trail).trail@.len(),
            self.domain.contains_spec(val as int),
            match self.order_encoding {
                OrderStorage::Eager { .. } => true,
                OrderStorage::Lazy(st) => val == self.dub() || (val < self.dub() && st.has_val(
                    self.domain.count_next_spec(val as int),
                )),
            },
        ensures
            final(trail).wf(),
            final(trail).redo_wf(),
            final(trail).pos == final(trail).trail@.len(),
            final(trail).int_value@.len() == old(trail).int_value@.len(),
            final(trail).sat_store@ == old(trail).sat_store@,
            final(trail).prev_len@ == old(trail).prev_len@,
            forall|l: int|
                0 <= l < old(trail).prev_len@.len() ==> #[trigger] final(trail).level_values(l)
                    == old(trail).level_values(l),
            self.trail_wf(*final(trail)),
            r == self.ub_of(*old(trail)),
            self.ub_of(*final(trail)) == val,
            self.lb_of(*final(trail)) == self.lb_of(*old(trail)),
            forall|c: int|
                0 <= c < old(trail).int_value@.len() && c != self.upper_bound.idx && c
                    != self.cursor_cell_ub() ==> #[trigger] final(trail).int_value@[c] == old(
                    trail,
                ).int_value@[c],
    {
        let prev_ub = trail.set_trailed_int(self.upper_bound, val);
        if prev_ub == val {
            return prev_ub;
        }
        match &self.order_encoding {
            OrderStorage::Eager { .. } => prev_ub,
            OrderStorage::Lazy(st) => {
                if val < self.domain.upper_bound() {
                    let next = self.domain.next_value(val);
                    proof {
                        let w = self.domain.count_next_spec(val as int);
                        assert(self.domain.contains_spec(w) && w > val && forall|x: int|
                            self.domain.contains_spec(x) && x > val ==> w <= x) by {
                            assert(self.domain.contains_spec(next as int) && next > val && forall|
                                x: int,
                            |
                                self.domain.contains_spec(x) && x > val ==> next <= x);
                        }
                        assert(w == next);
                    }
                    let idx = st.find_idx(next);
                    let _ = trail.set_trailed_int(st.ub_index, idx as i64);
                }
                prev_ub
            },
        }
    }
}

impl LazyOrderStorage {
    /// The index of the node carrying the value `val`.
    pub fn find_idx(&self, val: i64) -> (r: u32)
        requires
            self.wf(),
            self.has_val(val as int),
        ensures
            0 <= r < self.size(),
            self.storage@[r as int].val == val,
    {
        let mut idx = self.min_index;
        let ghost mut k: int = 0;
        loop
            invariant
                self.wf(),
                self.has_val(val as int),
                self.size() > 0,
                0 <= k < self.size(),
                idx == self.ord@[k],
                forall|j: int| 0 <= j < k ==> #[trigger] self.node_at(j).val != val,
            decreases self.size() - k,
        {
            let node = self.storage[idx as usize];
            if node.val == val {
                return idx;
            }
            proof {
                assert(self.node_at(k).val != val);
                if !node.has_next || node.val > val {
                    assert forall|j: int| 0 <= j < self.size() implies #[trigger] self.node_at(
                        j,
                    ).val != val by {
                        if j > k {
                            assert(self.node_at(k).val < self.node_at(j).val);
                        }
                    }
                    assert(false);
                }
            }
            idx = node.next;
            proof {
                k = k + 1;
            }
        }
    }
}

impl IntSetVal {
    /// The smallest set value strictly above `v` (as a specification).
    pub open spec fn count_next_spec(self, v: int) -> int {
        choose|w: int|
            self.contains_spec(w) && w > v && forall|x: int|
                self.contains_spec(x) && x > v ==> w <= x
    }
}

impl IntVar {
    /// The meaning that an eagerly created literal decodes to: an order
    /// literal decodes to `Less` (negated: `GreaterEq`) of the domain value
    /// at its offset, a direct literal to `Eq` (negated: `NotEq`).
    pub open spec fn lit_meaning_spec(self, lit: int) -> LitMeaning {
        let var = if lit >= 0 {
            lit
        } else {
            -lit
        };
        match self.order_encoding {
            OrderStorage::Eager { storage, .. } => if storage.contains_var(var) {
                let w = self.nth_val(var - storage.start + 1);
                if lit >= 0 {
                    LitMeaning::Less(w as i64)
                } else {
                    LitMeaning::GreaterEq(w as i64)
                }
            } else {
                match self.direct_encoding {
                    DirectStorage::Eager(vars) => {
                        let v = self.nth_val(var - vars.start + 1);
                        if lit >= 0 {
                            LitMeaning::Eq(v as i64)
                        } else {
                            LitMeaning::NotEq(v as i64)
                        }
                    },
                    DirectStorage::Lazy(_) => LitMeaning::Eq(0),
                }
            },
            OrderStorage::Lazy(_) => LitMeaning::Eq(0),
        }
    }

    /// Returns the meaning of a literal in the context of this variable.
    ///
    /// This method can only be used with literals that were eagerly created
    /// for this variable; lazy literals record their meaning in the
    /// Boolean-to-integer map instead.
    pub fn lit_meaning(&self, lit: i32) -> (r: LitMeaning)
        requires
            self.wf(),
            is_lit(lit as int),
            self.order_encoding is Eager,
            ({
                let var = if lit >= 0 {
                    lit as int
                } else {
                    -(lit as int)
                };
                match self.order_encoding {
                    OrderStorage::Eager { storage, .. } => storage.contains_var(var) || match self
                        .direct_encoding {
                        DirectStorage::Eager(vars) => vars.contains_var(var),
                        DirectStorage::Lazy(_) => false,
                    },
                    OrderStorage::Lazy(_) => false,
                }
            }),
        ensures
            r == self.lit_meaning_spec(lit as int),
            match r {
                LitMeaning::Less(w) => self.domain.contains_spec(w as int) && self.dlb() < w
                    <= self.dub(),
                LitMeaning::GreaterEq(w) => self.domain.contains_spec(w as int) && self.dlb() < w
                    <= self.dub(),
                LitMeaning::Eq(v) => self.domain.contains_spec(v as int) && self.dlb() < v
                    < self.dub(),
                LitMeaning::NotEq(v) => self.domain.contains_spec(v as int) && self.dlb() < v
                    < self.dub(),
            },
    {
        let var: i32 = if lit >= 0 {
            lit
        } else {
            -lit
        };
        match &self.order_encoding {
            OrderStorage::Eager { storage, .. } => {
                match storage.find(var) {
                    Some(offset) => {
                        proof {
                            lemma_count_below_le_card(&self.domain, self.dub() + 1);
                        }
                        let w = self.domain.value_at_rank(offset + 1);
                        proof {
                            lemma_nth_val_is(self, offset as int + 1, w as int);
                            crate::domain::lemma_contains_in_bounds(&self.domain, w as int);
                            if w == self.dlb() {
                                crate::domain::lemma_count_at_set_value(
                                    &self.domain,
                                    0,
                                    self.dlb(),
                                );
                            }
                        }
                        if lit >= 0 {
                            LitMeaning::Less(w)
                        } else {
                            LitMeaning::GreaterEq(w)
                        }
                    },
                    None => {
                        match &self.direct_encoding {
                            DirectStorage::Eager(vars) => {
                                let offset = match vars.find(var) {
                                    Some(o) => o,
                                    None => 0,
                                };
                                let v = self.domain.value_at_rank(offset + 1);
                                proof {
                                    lemma_nth_val_is(self, offset as int + 1, v as int);
                                    crate::domain::lemma_contains_in_bounds(&self.domain, v as int);
                                    if v == self.dlb() {
                                        crate::domain::lemma_count_at_set_value(
                                            &self.domain,
                                            0,
                                            self.dlb(),
                                        );
                                    }
                                    if v == self.dub() {
                                        crate::domain::lemma_count_step(&self.domain, v as int);
                                    }
                                }
                                if lit >= 0 {
                                    LitMeaning::Eq(v)
                                } else {
                                    LitMeaning::NotEq(v)
                                }
                            },
                            DirectStorage::Lazy(_) => LitMeaning::Eq(0),
                        }
                    },
                }
            },
            OrderStorage::Lazy(_) => LitMeaning::Eq(0),
        }
    }
}

/// A domain value with a given number of domain values below it is the
/// unique such value [`IntVar::nth_val`].
proof fn lemma_nth_val_is(iv: &IntVar, rank: int, w: int)
    requires
        iv.wf(),
        iv.domain.contains_spec(w),
        iv.domain.count_below(w) == rank,
    ensures
        iv.nth_val(rank) == w,
{
    let w2 = iv.nth_val(rank);
    assert(iv.domain.contains_spec(w2) && iv.domain.count_below(w2) == rank) by {
        assert(iv.domain.contains_spec(w) && iv.domain.count_below(w) == rank);
    }
    lemma_rank_unique(&iv.domain, w, w2);
}

/// The round trip between the eager encodings: decoding the order literal
/// that encodes the condition `x < w` gives back `Less(w)`, and decoding
/// the direct literal that encodes `x = v` gives back `Eq(v)`; their
/// negations decode to the negated meanings.
pub proof fn lemma_lit_meaning_round_trip(iv: &IntVar, w: int, l: int)
    requires
        iv.wf(),
        iv.order_encoding is Eager,
        iv.domain.contains_spec(w),
        iv.dlb() < w <= iv.dub(),
        iv.order_lit_is(w, l),
    ensures
        iv.lit_meaning_spec(l) == LitMeaning::Less(w as i64),
        iv.lit_meaning_spec(-l) == LitMeaning::GreaterEq(w as i64),
{
    match iv.order_encoding {
        OrderStorage::Eager { storage, .. } => {
            lemma_count_below_le_card(&iv.domain, w);
            lemma_count_le_rank_ub(&iv.domain, w);
            assert(storage.contains_var(l));
            lemma_nth_val_is(iv, l - storage.start + 1, w);
        },
        OrderStorage::Lazy(_) => {},
    }
}

/// The counterpart of [`lemma_lit_meaning_round_trip`] for direct literals.
pub proof fn lemma_direct_meaning_round_trip(iv: &IntVar, v: int, l: int)
    requires
        iv.wf(),
        iv.order_encoding is Eager,
        iv.direct_encoding is Eager,
        iv.domain.contains_spec(v),
        iv.dlb() < v < iv.dub(),
        iv.direct_lit_is(v, l),
        l > 0,
    ensures
        ({
            let vr = iv.direct_range();
            vr.contains_var(l) ==> !iv.order_range().contains_var(l) ==> iv.lit_meaning_spec(l)
                == LitMeaning::Eq(v as i64) && iv.lit_meaning_spec(-l) == LitMeaning::NotEq(
                v as i64,
            )
        }),
{
    match iv.direct_encoding {
        DirectStorage::Eager(vars) => {
            lemma_count_below_le_card(&iv.domain, v);
            lemma_count_step(&iv.domain, v);
            lemma_count_le_rank_ub(&iv.domain, v + 1);
            if vars.contains_var(l) && !iv.order_range().contains_var(l) {
                lemma_nth_val_is(iv, l - vars.start + 1, v);
            }
        },
        DirectStorage::Lazy(_) => {},
    }
}

impl IntVar {
    /// The eager order variable range (meaningful only for eager order
    /// encodings).
    pub open spec fn order_range(self) -> VarRange {
        match self.order_encoding {
            OrderStorage::Eager { storage, .. } => storage,
            OrderStorage::Lazy(_) => VarRange { start: 1, len: 0 },
        }
    }

    /// The eager direct variable range (meaningful only for eager direct
    /// encodings).
    pub open spec fn direct_range(self) -> VarRange {
        match self.direct_encoding {
            DirectStorage::Eager(vars) => vars,
            DirectStorage::Lazy(_) => VarRange { start: 1, len: 0 },
        }
    }
}

impl IntVar {
    /// Whether `other` extends `self` only by newly created lazy literals:
    /// the domain, the trailed cells, the eager storages and every already
    /// created lazy literal are unchanged.
    pub open spec fn extends(self, other: IntVar) -> bool {
        &&& other.domain == self.domain
        &&& other.upper_bound == self.upper_bound
        &&& match (self.order_encoding, other.order_encoding) {
            (OrderStorage::Eager { lower_bound: l1, storage: s1 }, OrderStorage::Eager {
                lower_bound: l2,
                storage: s2,
            }) => l1 == l2 && s1 == s2,
            (OrderStorage::Lazy(st1), OrderStorage::Lazy(st2)) => {
                &&& st2.lb_index == st1.lb_index
                &&& st2.ub_index == st1.ub_index
                &&& st2.storage@.len() >= st1.storage@.len()
                &&& (forall|i: int|
                    0 <= i < st1.storage@.len() ==> (#[trigger] st2.storage@[i]).val
                        == st1.storage@[i].val && st2.storage@[i].var == st1.storage@[i].var)
                &&& forall|v: int| st1.has_val(v) ==> st2.has_val(v) && st2.var_of(v) == st1.var_of(v)
            },
            _ => false,
        }
        &&& match (self.direct_encoding, other.direct_encoding) {
            (DirectStorage::Eager(v1), DirectStorage::Eager(v2)) => v1 == v2,
            (DirectStorage::Lazy(m1), DirectStorage::Lazy(m2)) => forall|v: int|
                assoc_has(m1@, v) ==> assoc_has(m2@, v) && assoc_get(m2@, v) == assoc_get(m1@, v),
            _ => false,
        }
    }

    /// Access the positive order literal for the condition `x < i` (with
    /// `i` already within the open interval of the domain bounds), creating
    /// it if it does not exist yet. Newly created literals are drawn from
    /// `factory`; their defining implication clauses are appended to
    /// `clauses` and their meanings to `regs`.
    #[verifier::rlimit(100)]
    #[verifier::spinoff_prover]
    fn order_lit_create(
        &mut self,
        i: i64,
        factory: &mut VarFactory,
        clauses: &mut Vec<Vec<i32>>,
        regs: &mut Vec<(i32, LitMeaning)>,
    ) -> (r: i32)
        requires
            old(self).wf(),
            old(self).dlb() < i <= old(self).dub(),
            old(factory).wf(),
            old(factory).next_var < i32::MAX,
            match old(self).order_encoding {
                OrderStorage::Eager { .. } => true,
                OrderStorage::Lazy(st) => st.size() < old(factory).next_var,
            },
        ensures
            final(self).wf(),
            old(self).extends(*final(self)),
            match final(self).order_encoding {
                OrderStorage::Eager { .. } => true,
                OrderStorage::Lazy(st) => st.size() < final(factory).next_var,
            },
            final(factory).wf(),
            old(factory).next_var <= final(factory).next_var <= old(factory).next_var + 1,
            is_lit(r as int),
            final(self).order_lit_is(final(self).resolved(i as int), r as int),
            final(self).resolved(i as int) == old(self).resolved(i as int),
            old(self).order_has_resolved(i as int) ==> *final(self) == *old(self)
                && *final(factory) == *old(factory) && final(clauses)@ == old(clauses)@
                && final(regs)@ == old(regs)@,
            final(clauses)@.len() >= old(clauses)@.len(),
            final(clauses)@.len() <= old(clauses)@.len() + 2,
            forall|j: int|
                old(clauses)@.len() <= j < final(clauses)@.len()
                    ==> match final(self).order_encoding {
                    OrderStorage::Lazy(st) => chain_clause_ok(st, (#[trigger] final(clauses)@[j])@),
                    OrderStorage::Eager { .. } => false,
                },
            forall|j: int|
                0 <= j < old(clauses)@.len() ==> #[trigger] final(clauses)@[j] == old(clauses)@[j],
            final(self).direct_encoding == old(self).direct_encoding,
            final(regs)@.len() >= old(regs)@.len(),
            forall|j: int|
                0 <= j < old(regs)@.len() ==> #[trigger] final(regs)@[j] == old(regs)@[j],
            forall|j: int|
                old(regs)@.len() <= j < final(regs)@.len() ==> (match (#[trigger] final(regs)@[j]).1 {
                    LitMeaning::Less(w) => final(self).order_lit_is(w as int, final(regs)@[j].0 as int)
                        && final(self).domain.contains_spec(w as int) && final(self).dlb() < w
                        <= final(self).dub(),
                    _ => false,
                }) && is_lit(final(regs)@[j].0 as int),
    {
        let (w, offset) = self.domain.resolve_val(i);
        proof {
            lemma_resolved_is(self, i as int, w as int);
            lemma_count_le_rank_ub(&self.domain, i as int);
        }
        match &mut self.order_encoding {
            OrderStorage::Eager { storage, .. } => storage.index(offset),
            OrderStorage::Lazy(st) => {
                match st.find(w) {
                    Some(v) => v,
                    None => {
                        let var = factory.new_var();
                        let ghost st_pre = *st;
                        let (prev, next) = st.insert(w, var);
                        match prev {
                            Some(p) => {
                                let np = -p;
                                clauses.push(vec![np, var]);
                                proof {
                                    let c = clauses@.last()@;
                                    assert(c =~= seq![(-(p as int)) as i32, var]);
                                    let wp = choose|wp: int|
                                        st_pre.has_val(wp) && wp < w && p as int == st_pre.var_of(
                                            wp,
                                        ) && (forall|u: int|
                                            st_pre.has_val(u) && u < w ==> u <= wp);
                                    assert(st.has_val(wp) && st.var_of(wp) == p);
                                    assert(st.has_val(w as int) && st.var_of(w as int) == var);
                                    assert(is_lit(p as int)) by {
                                        let k = choose|k: int|
                                            0 <= k < st.size() && #[trigger] st.node_at(k).val
                                                == wp;
                                        assert(is_lit(st.node_at(k).var as int));
                                    }
                                    assert(chain_clause_ok(*st, c)) by {
                                        assert(c =~= seq![(-(p as int)) as i32, var as i32]
                                            && is_lit(p as int) && is_lit(var as int) && wp < w
                                            && st.has_val(wp) && st.var_of(wp) == p as int
                                            && st.has_val(w as int) && st.var_of(w as int)
                                            == var as int);
                                    }
                                }
                            },
                            None => (),
                        }
                        let nv = -var;
                        match next {
                            Some(nx) => {
                                clauses.push(vec![nv, nx]);
                                proof {
                                    let c = clauses@.last()@;
                                    assert(c =~= seq![(-(var as int)) as i32, nx]);
                                    let wn = choose|wn: int|
                                        st_pre.has_val(wn) && wn > w && nx as int == st_pre.var_of(
                                            wn,
                                        ) && (forall|u: int|
                                            st_pre.has_val(u) && u > w ==> u >= wn);
                                    assert(st.has_val(wn) && st.var_of(wn) == nx);
                                    assert(st.has_val(w as int) && st.var_of(w as int) == var);
                                    assert(is_lit(nx as int)) by {
                                        let k = choose|k: int|
                                            0 <= k < st.size() && #[trigger] st.node_at(k).val
                                                == wn;
                                        assert(is_lit(st.node_at(k).var as int));
                                    }
                                    assert(chain_clause_ok(*st, c)) by {
                                        assert(c =~= seq![(-(var as int)) as i32, nx as i32]
                                            && is_lit(var as int) && is_lit(nx as int) && w < wn
                                            && st.has_val(w as int) && st.var_of(w as int)
                                            == var as int && st.has_val(wn) && st.var_of(wn)
                                            == nx as int);
                                    }
                                }
                            },
                            None => (),
                        }
                        regs.push((var, LitMeaning::Less(w)));
                        proof {
                            assert forall|k: int| 0 <= k < st.size() implies self
                                .domain.contains_spec((#[trigger] st.node_at(k)).val as int)
                                && self.dlb() < st.node_at(k).val by {
                                assert(st.has_val(st.node_at(k).val as int));
                            }
                        }
                        var
                    },
                }
            },
        }
    }
}

impl IntVar {
    /// Access the Boolean view with the given meaning, creating the literal
    /// if it is not yet available. This is the hot path of the lazy
    /// encoding.
    ///
    /// Newly created literals draw their variables from `factory`; their
    /// defining clauses are appended to `clauses`, and the returned
    /// registrations pair each created variable with its meaning so that it
    /// can be entered into the Boolean-to-integer map.
    #[verifier::rlimit(100)]
    #[verifier::spinoff_prover]
    pub fn bool_lit(
        &mut self,
        m: LitMeaning,
        factory: &mut VarFactory,
        clauses: &mut Vec<Vec<i32>>,
    ) -> (r: (BoolView, Vec<(i32, LitMeaning)>))
        requires
            old(self).wf(),
            old(factory).wf(),
            old(factory).next_var <= i32::MAX - 4,
            match old(self).order_encoding {
                OrderStorage::Eager { .. } => true,
                OrderStorage::Lazy(st) => st.size() < old(factory).next_var,
            },
        ensures
            final(self).wf(),
            old(self).extends(*final(self)),
            final(factory).wf(),
            old(factory).next_var <= final(factory).next_var <= old(factory).next_var + 4,
            match final(self).order_encoding {
                OrderStorage::Eager { .. } => true,
                OrderStorage::Lazy(st) => st.size() < final(factory).next_var,
            },
            final(clauses)@.len() >= old(clauses)@.len(),
            forall|j: int|
                0 <= j < old(clauses)@.len() ==> #[trigger] final(clauses)@[j] == old(clauses)@[j],
            r.0.wf(),
            forall|j: int|
                0 <= j < r.1@.len() ==> match (#[trigger] r.1@[j]).1 {
                    LitMeaning::Less(w) => final(self).order_lit_is(w as int, r.1@[j].0 as int)
                        && final(self).domain.contains_spec(w as int) && final(self).dlb() < w
                        <= final(self).dub(),
                    LitMeaning::Eq(v) => final(self).direct_lit_is(v as int, r.1@[j].0 as int)
                        && final(self).domain.contains_spec(v as int) && final(self).dlb() < v
                        < final(self).dub(),
                    _ => false,
                } && is_lit(r.1@[j].0 as int),
            ({
                let (m2, neg) = normalize_spec(m, old(self).dlb(), old(self).dub());
                match m2 {
                    LitMeaning::Less(i) => final(factory).next_var <= old(factory).next_var + 1
                        && (forall|j: int|
                        0 <= j < r.1@.len() ==> (#[trigger] r.1@[j]).1 is Less) && ((i <= old(
                        self,
                    ).dlb() || i > old(self).dub() || old(self).order_has_resolved(i as int))
                        ==> *final(self) == *old(self) && *final(factory) == *old(factory)
                        && final(clauses)@ == old(clauses)@),
                    LitMeaning::Eq(i) => (!old(self).domain.contains_spec(i as int) || old(
                        self,
                    ).direct_has(i as int)) ==> *final(self) == *old(self) && *final(factory)
                        == *old(factory) && final(clauses)@ == old(clauses)@,
                    _ => true,
                }
            }),
            ({
                let (m2, neg) = normalize_spec(m, old(self).dlb(), old(self).dub());
                match m2 {
                    LitMeaning::Less(i) => {
                        &&& (i <= old(self).dlb() ==> r.0 == apply_neg(
                            neg,
                            BoolView(BoolViewInner::Const(false)),
                        ))
                        &&& (i > old(self).dub() ==> r.0 == apply_neg(
                            neg,
                            BoolView(BoolViewInner::Const(true)),
                        ))
                        &&& (old(self).dlb() < i <= old(self).dub() ==> exists|l: int|
                            #![auto]
                            is_lit(l) && final(self).order_lit_is(final(self).resolved(i as int), l)
                                && r.0 == apply_neg(neg, BoolView(BoolViewInner::Lit(l as i32))))
                    },
                    LitMeaning::Eq(i) => {
                        &&& (!old(self).domain.contains_spec(i as int) ==> r.0 == apply_neg(
                            neg,
                            BoolView(BoolViewInner::Const(false)),
                        ))
                        &&& (old(self).domain.contains_spec(i as int) && old(self).dlb() < i < old(
                            self,
                        ).dub() ==> exists|l: int|
                            #![auto]
                            is_lit(l) && final(self).direct_lit_is(i as int, l) && r.0 == apply_neg(
                                neg,
                                BoolView(BoolViewInner::Lit(l as i32)),
                            ))
                    },
                    _ => true,
                }
            }),
    {
        let lb = self.domain.lower_bound();
        let ub = self.domain.upper_bound();
        let (m2, neg) = self.normalize_lit_meaning(m, lb, ub);
        let mut regs: Vec<(i32, LitMeaning)> = Vec::new();
        let bv: BoolView = match m2 {
            LitMeaning::Less(i) => {
                if i <= lb {
                    BoolView(BoolViewInner::Const(false))
                } else if i > ub {
                    BoolView(BoolViewInner::Const(true))
                } else {
                    let v = self.order_lit_create(i, factory, clauses, &mut regs);
                    BoolView(BoolViewInner::Lit(v))
                }
            },
            LitMeaning::Eq(i) => {
                if !self.domain.contains(i) {
                    BoolView(BoolViewInner::Const(false))
                } else {
                    proof {
                        crate::domain::lemma_contains_in_bounds(&self.domain, i as int);
                    }
                    let l = self.direct_lit_create(i, factory, clauses, &mut regs);
                    BoolView(BoolViewInner::Lit(l))
                }
            },
            _ => BoolView(BoolViewInner::Const(false)),
        };
        let out = if neg {
            bv.negate()
        } else {
            bv
        };
        (out, regs)
    }

    /// Access the positive direct literal for the condition `x = i` on an
    /// inner domain value, creating it (together with the two order
    /// literals that bracket it) if it does not exist yet.
    #[verifier::rlimit(100)]
    #[verifier::spinoff_prover]
    fn direct_lit_create(
        &mut self,
        i: i64,
        factory: &mut VarFactory,
        clauses: &mut Vec<Vec<i32>>,
        regs: &mut Vec<(i32, LitMeaning)>,
    ) -> (r: i32)
        requires
            old(self).wf(),
            old(self).domain.contains_spec(i as int),
            old(self).dlb() < i < old(self).dub(),
            old(factory).wf(),
            old(factory).next_var <= i32::MAX - 4,
            match old(self).order_encoding {
                OrderStorage::Eager { .. } => true,
                OrderStorage::Lazy(st) => st.size() < old(factory).next_var,
            },
        ensures
            final(self).wf(),
            old(self).extends(*final(self)),
            final(factory).wf(),
            old(factory).next_var <= final(factory).next_var <= old(factory).next_var + 3,
            match final(self).order_encoding {
                OrderStorage::Eager { .. } => true,
                OrderStorage::Lazy(st) => st.size() < final(factory).next_var,
            },
            final(clauses)@.len() >= old(clauses)@.len(),
            forall|j: int|
                0 <= j < old(clauses)@.len() ==> #[trigger] final(clauses)@[j] == old(clauses)@[j],
            is_lit(r as int),
            final(self).direct_lit_is(i as int, r as int),
            old(self).direct_has(i as int) ==> *final(self) == *old(self)
                && *final(factory) == *old(factory) && final(clauses)@ == old(clauses)@
                && final(regs)@ == old(regs)@,
            !old(self).direct_has(i as int) ==> final(clauses)@.len() >= 3 && eq_clauses_ok(
                *final(self),
                i as int,
                final(clauses)@[final(clauses)@.len() - 3]@,
                final(clauses)@[final(clauses)@.len() - 2]@,
                final(clauses)@[final(clauses)@.len() - 1]@,
            ),
            match final(self).order_encoding {
                OrderStorage::Eager { .. } => true,
                OrderStorage::Lazy(st) => st.has_val(i as int) && st.has_val(
                    final(self).domain.count_next_spec(i as int),
                ),
            },
            final(regs)@.len() >= old(regs)@.len(),
            forall|j: int|
                0 <= j < old(regs)@.len() ==> #[trigger] final(regs)@[j] == old(regs)@[j],
            forall|j: int|
                old(regs)@.len() <= j < final(regs)@.len() ==> (match (#[trigger] final(regs)@[j]).1 {
                    LitMeaning::Less(w) => final(self).order_lit_is(w as int, final(regs)@[j].0 as int)
                        && final(self).domain.contains_spec(w as int) && final(self).dlb() < w
                        <= final(self).dub(),
                    LitMeaning::Eq(v) => final(self).direct_lit_is(v as int, final(regs)@[j].0 as int)
                        && final(self).domain.contains_spec(v as int) && final(self).dlb() < v
                        < final(self).dub(),
                    _ => false,
                }) && is_lit(final(regs)@[j].0 as int),
    {
        match &self.direct_encoding {
            DirectStorage::Eager(_) => {
                let r = match self.direct_lit_lookup(i) {
                    Some(l) => l,
                    None => 1,
                };
                r
            },
            DirectStorage::Lazy(_) => {
                let found = match &self.direct_encoding {
                    DirectStorage::Lazy(map) => assoc_find(map, i),
                    DirectStorage::Eager(_) => None,
                };
                match found {
                    Some(l) => l,
                    None => {
                        let lv = self.order_lit_create(i, factory, clauses, regs);
                        proof {
                            lemma_resolved_is(self, i as int, i as int);
                        }
                        let nextv = self.domain.next_value(i);
                        proof {
                            crate::domain::lemma_contains_in_bounds(&self.domain, nextv as int);
                            let w = self.domain.count_next_spec(i as int);
                            assert(self.domain.contains_spec(w) && w > i && forall|x: int|
                                self.domain.contains_spec(x) && x > i ==> w <= x) by {
                                assert(self.domain.contains_spec(nextv as int) && nextv > i
                                    && forall|x: int|
                                    self.domain.contains_spec(x) && x > i ==> nextv <= x);
                            }
                            assert(w == nextv);
                        }
                        let ghost g1 = *self;
                        let lv2 = self.order_lit_create(nextv, factory, clauses, regs);
                        proof {
                            lemma_resolved_is(self, nextv as int, nextv as int);
                            match (&g1.order_encoding, &self.order_encoding) {
                                (OrderStorage::Lazy(st1), OrderStorage::Lazy(st2)) => {
                                    assert(st1.has_val(i as int));
                                    assert(st2.has_val(i as int));
                                    assert(st2.has_val(nextv as int));
                                },
                                _ => {},
                            }
                        }
                        let e = factory.new_var();
                        let ne = -e;
                        let nlv = -lv;
                        let nlv2 = -lv2;
                        clauses.push(vec![ne, nlv]);
                        clauses.push(vec![ne, lv2]);
                        clauses.push(vec![e, lv, nlv2]);
                        let ghost pre_map = *self;
                        match &mut self.direct_encoding {
                            DirectStorage::Lazy(map) => {
                                map.push((i, e));
                            },
                            DirectStorage::Eager(_) => (),
                        }
                        proof {
                            lemma_assoc_push(pre_map, *self, i as int, e as int);
                        }
                        regs.push((e, LitMeaning::Eq(i)));
                        proof {
                            let n = clauses@.len() as int;
                            assert(clauses@[n - 3]@ =~= seq![
                                (-(e as int)) as i32,
                                (-(lv as int)) as i32,
                            ]);
                            assert(clauses@[n - 2]@ =~= seq![(-(e as int)) as i32, lv2 as i32]);
                            assert(clauses@[n - 1]@ =~= seq![
                                e as i32,
                                lv as i32,
                                (-(lv2 as int)) as i32,
                            ]);
                            assert(self.order_lit_is(i as int, lv as int));
                            assert(self.order_lit_is(
                                self.domain.count_next_spec(i as int),
                                lv2 as int,
                            ));
                            assert(self.direct_lit_is(i as int, e as int));
                            assert(eq_clauses_ok(
                                *self,
                                i as int,
                                clauses@[n - 3]@,
                                clauses@[n - 2]@,
                                clauses@[n - 1]@,
                            ));
                        }
                        e
                    },
                }
            },
        }
    }
}

/// Pushing a fresh entry onto the lazy direct storage keeps the variable
/// representation well formed and preserves all earlier entries.
proof fn lemma_assoc_push(pre: IntVar, post: IntVar, i: int, e: int)
    requires
        pre.wf(),
        pre.direct_encoding is Lazy,
        post.domain == pre.domain,
        post.order_encoding == pre.order_encoding,
        post.upper_bound == pre.upper_bound,
        !pre.direct_has(i),
        pre.domain.contains_spec(i),
        pre.dlb() < i < pre.dub(),
        is_lit(e),
        i64::MIN <= i <= i64::MAX,
        i32::MIN <= e <= i32::MAX,
        match pre.order_encoding {
            OrderStorage::Lazy(st) => st.has_val(i) && st.has_val(
                pre.domain.count_next_spec(i),
            ),
            OrderStorage::Eager { .. } => true,
        },
        match (pre.direct_encoding, post.direct_encoding) {
            (DirectStorage::Lazy(m1), DirectStorage::Lazy(m2)) => m2@ == m1@.push(
                (i as i64, e as i32),
            ),
            _ => false,
        },
    ensures
        post.wf(),
        pre.extends(post),
        post.direct_lit_is(i, e),
        post.direct_has(i),
{
    match (pre.direct_encoding, post.direct_encoding) {
        (DirectStorage::Lazy(m1), DirectStorage::Lazy(m2)) => {
            assert(m2@[m1@.len() as int] == (i as i64, e as i32));
            assert forall|j: int| 0 <= j < m2@.len() implies pre.domain.contains_spec(
                (#[trigger] m2@[j]).0 as int,
            ) && pre.dlb() < m2@[j].0 < pre.dub() && is_lit(m2@[j].1 as int) by {
                if j < m1@.len() {
                    assert(m2@[j] == m1@[j]);
                }
            }
            assert forall|j1: int, j2: int| 0 <= j1 < j2 < m2@.len() implies (#[trigger] m2@[j1]).0
                != (#[trigger] m2@[j2]).0 by {
                if j2 < m1@.len() {
                    assert(m2@[j1] == m1@[j1] && m2@[j2] == m1@[j2]);
                } else {
                    assert(m2@[j1] == m1@[j1]);
                    if m1@[j1].0 == i {
                        assert(assoc_has(m1@, i));
                    }
                }
            }
            assert forall|v: int| assoc_has(m1@, v) implies assoc_has(m2@, v) && assoc_get(m2@, v)
                == assoc_get(m1@, v) by {
                let j = choose|j: int| 0 <= j < m1@.len() && (#[trigger] m1@[j]).0 == v;
                assert(m2@[j] == m1@[j]);
                assert(assoc_has(m2@, v));
                let j2 = choose|j2: int| 0 <= j2 < m2@.len() && (#[trigger] m2@[j2]).0 == v;
                let j1 = choose|j1: int| 0 <= j1 < m1@.len() && (#[trigger] m1@[j1]).0 == v;
                if j2 < m1@.len() {
                    assert(m2@[j2] == m1@[j2]);
                    if m1@[j2].0 == m1@[j1].0 && j1 != j2 {
                        assert(false);
                    }
                } else {
                    assert(v == i);
                    assert(false);
                }
            }
            assert(assoc_has(m2@, i)) by {
                assert(m2@[m1@.len() as int].0 == i);
            }
            let j2 = choose|j2: int| 0 <= j2 < m2@.len() && (#[trigger] m2@[j2]).0 == i;
            if j2 < m1@.len() {
                assert(m2@[j2] == m1@[j2]);
                assert(assoc_has(m1@, i));
                assert(false);
            }
        },
        _ => {},
    }
}

#[derive(Clone)]
/// The result of creating an integer variable: very small domains are
/// represented without allocating a variable.
pub enum NewIntVar {
    /// The domain has a single value: the variable is that constant.
    Const(i64),
    /// The domain has two values: the variable is a fresh Boolean literal
    /// seen through the linear transformation mapping `0` and `1` to the
    /// two values.
    BoolLike(i32, crate::transform::LinearTransform),
    /// A full integer variable.
    Var(IntVar),
}

/// Two adjacent order literals on the same variable are semantically
/// ordered: the threshold of the literal at the next offset is strictly
/// larger, so for every value the condition `x < w1` implies the condition
/// `x < w2`, and the implication clause emitted between adjacent eager
/// order literals is sound.
pub proof fn lemma_adjacent_order_implication(iv: &IntVar, w1: int, w2: int)
    requires
        iv.wf(),
        iv.domain.contains_spec(w1),
        iv.domain.contains_spec(w2),
        iv.domain.count_below(w1) + 1 == iv.domain.count_below(w2),
    ensures
        w1 < w2,
{
    if w2 <= w1 {
        if w2 < w1 {
            crate::domain::lemma_rank_strict_mono(&iv.domain, w2, w1);
        }
    }
}

impl IntVar {
    /// Create a new integer variable with the given domain. The
    /// `order_encoding` and `direct_encoding` parameters determine whether
    /// the literals reasoning about the variable are created eagerly or
    /// lazily.
    ///
    /// A domain with one value yields a constant; a domain with two values
    /// yields a Boolean view and allocates no variable. Otherwise the
    /// requested eager variable ranges are drawn from `factory`, the
    /// trailed bound cells are created, and the defining clauses linking
    /// adjacent eager literals are appended to `clauses`.
    #[verifier::rlimit(100)]
    #[verifier::spinoff_prover]
    pub fn new_in(
        domain: IntSetVal,
        order_encoding: EncodingType,
        direct_encoding: EncodingType,
        factory: &mut VarFactory,
        trail: &mut Trail,
        clauses: &mut Vec<Vec<i32>>,
    ) -> (r: NewIntVar)
        requires
            domain.wf(),
            domain.ranges@.len() > 0,
            domain.card_spec() <= usize::MAX,
            old(factory).wf(),
            old(factory).next_var + 2 * domain.card_spec() <= i32::MAX,
            old(trail).wf(),
            old(trail).redo_wf(),
            old(trail).pos == old(trail).trail@.len(),
            direct_encoding is Eager ==> order_encoding is Eager,
            domain.card_spec() == 2 ==> domain.ub_spec() - domain.lb_spec() <= i64::MAX,
        ensures
            final(factory).wf(),
            old(factory).next_var <= final(factory).next_var,
            final(trail).wf(),
            final(trail).redo_wf(),
            final(trail).pos == final(trail).trail@.len(),
            final(trail).trail@ == old(trail).trail@,
            final(trail).prev_len@ == old(trail).prev_len@,
            final(trail).sat_store@ == old(trail).sat_store@,
            final(trail).int_value@.len() >= old(trail).int_value@.len(),
            forall|c: int|
                0 <= c < old(trail).int_value@.len() ==> #[trigger] final(trail).int_value@[c]
                    == old(trail).int_value@[c],
            domain.card_spec() < 3 ==> final(trail).int_value@ == old(trail).int_value@,
            domain.card_spec() < 3 ==> final(trail).hist@ == old(trail).hist@,
            forall|l: int|
                0 <= l < old(trail).prev_len@.len() ==> #[trigger] final(trail).level_values(
                    l,
                ).len() >= 0,
            domain.card_spec() >= 1,
            domain.card_spec() == 1 ==> r == NewIntVar::Const(domain.lb_spec() as i64),
            domain.card_spec() == 2 ==> r is BoolLike,
            r is Const ==> domain.card_spec() == 1,
            r is BoolLike ==> domain.card_spec() == 2,
            match r {
                NewIntVar::BoolLike(lit, tr) => 0 < lit && tr.wf() && lit == old(
                    factory,
                ).next_var && final(factory).next_var == lit + 1 && tr.s() == domain.ub_spec()
                    - domain.lb_spec() && tr.o() == domain.lb_spec(),
                _ => true,
            },
            r is Const ==> *final(factory) == *old(factory) && *final(trail) == *old(trail),
            domain.card_spec() >= 3 ==> match r {
                NewIntVar::Var(iv) => {
                    &&& iv.wf()
                    &&& iv.domain == domain
                    &&& iv.trail_wf(*final(trail))
                    &&& iv.lb_of(*final(trail)) == domain.lb_spec()
                    &&& iv.ub_of(*final(trail)) == domain.ub_spec()
                    &&& (iv.order_encoding is Eager <==> order_encoding is Eager)
                    &&& (iv.direct_encoding is Eager <==> direct_encoding is Eager)
                    &&& (order_encoding is Eager ==> iv.order_range().start == old(
                        factory,
                    ).next_var && iv.order_range().start + iv.order_range().len + (
                    if direct_encoding is Eager {
                        iv.direct_range().len as int
                    } else {
                        0int
                    }) <= final(factory).next_var)
                    &&& (order_encoding is Eager && direct_encoding is Eager
                        ==> iv.direct_range().start == iv.order_range().start
                        + iv.order_range().len)
                    &&& (forall|l: int|
                        0 <= l < old(trail).prev_len@.len()
                            ==> (#[trigger] final(trail).level_values(l)).len()
                            == final(trail).int_value@.len()
                            && final(trail).level_values(l)[iv.upper_bound.idx as int]
                            == domain.ub_spec() && (match iv.order_encoding {
                            OrderStorage::Eager { lower_bound, .. } => final(trail).level_values(
                                l,
                            )[lower_bound.idx as int] == domain.lb_spec(),
                            OrderStorage::Lazy(st) => final(trail).level_values(
                                l,
                            )[st.lb_index.idx as int] == -1 && final(trail).level_values(
                                l,
                            )[st.ub_index.idx as int] == -1,
                        }) && (forall|c: int|
                            0 <= c < old(trail).int_value@.len()
                                ==> #[trigger] final(trail).level_values(l)[c] == old(
                                trail,
                            ).level_values(l)[c]))
                    &&& iv.upper_bound.idx >= old(trail).int_value@.len()
                    &&& (match iv.order_encoding {
                        OrderStorage::Eager { lower_bound, .. } => lower_bound.idx >= old(
                            trail,
                        ).int_value@.len(),
                        OrderStorage::Lazy(st) => st.lb_index.idx >= old(trail).int_value@.len()
                            && st.ub_index.idx >= old(trail).int_value@.len(),
                    })
                    &&& match iv.order_encoding {
                        OrderStorage::Eager { .. } => true,
                        OrderStorage::Lazy(st) => st.size() < final(factory).next_var,
                    }
                },
                _ => false,
            },
            ({
                let card = domain.card_spec();
                let stride: int = if direct_encoding is Eager {
                    4
                } else {
                    1
                };
                order_encoding is Eager && card >= 3 ==> match r {
                    NewIntVar::Var(iv) => {
                        let os = iv.order_range().start as int;
                        &&& final(clauses)@.len() == old(clauses)@.len() + stride * (card - 2)
                        &&& forall|j: int|
                            0 <= j < card - 2 ==> (#[trigger] final(clauses)@[old(clauses)@.len()
                                + stride * j])@ =~= seq![(-(os + j)) as i32, (os + j + 1) as i32]
                    },
                    _ => false,
                }
            }),
            ({
                let card = domain.card_spec();
                order_encoding is Eager && direct_encoding is Eager && card >= 3 ==> match r {
                    NewIntVar::Var(iv) => {
                        let os = iv.order_range().start as int;
                        let ds = iv.direct_range().start as int;
                        forall|j: int|
                            0 <= j < card - 2 ==> (#[trigger] final(clauses)@[old(clauses)@.len()
                                + 4 * j + 1])@ =~= seq![(-(ds + j)) as i32, (-(os + j)) as i32]
                    },
                    _ => false,
                }
            }),
            ({
                let card = domain.card_spec();
                order_encoding is Eager && direct_encoding is Eager && card >= 3 ==> match r {
                    NewIntVar::Var(iv) => {
                        let os = iv.order_range().start as int;
                        let ds = iv.direct_range().start as int;
                        forall|j: int|
                            0 <= j < card - 2 ==> (#[trigger] final(clauses)@[old(clauses)@.len()
                                + 4 * j + 2])@ =~= seq![(-(ds + j)) as i32, (os + j + 1) as i32]
                    },
                    _ => false,
                }
            }),
            ({
                let card = domain.card_spec();
                order_encoding is Eager && direct_encoding is Eager && card >= 3 ==> match r {
                    NewIntVar::Var(iv) => {
                        let os = iv.order_range().start as int;
                        let ds = iv.direct_range().start as int;
                        forall|j: int|
                            0 <= j < card - 2 ==> (#[trigger] final(clauses)@[old(clauses)@.len()
                                + 4 * j + 3])@ =~= seq![(ds + j) as i32, (os + j) as i32, (-(os + j + 1)) as i32]
                    },
                    _ => false,
                }
            }),
            (order_encoding is Lazy || domain.card_spec() < 3) && domain.card_spec() != 2
                ==> final(clauses)@ == old(clauses)@,
    {
        let card = domain.card();
        proof {
            assert(domain.contains_spec(domain.lb_spec())) by {
                assert(domain.ranges@[0].0 <= domain.lb_spec() <= domain.ranges@[0].1);
            }
            crate::domain::lemma_contains_in_bounds(&domain, domain.lb_spec());
            lemma_count_below_le_card(&domain, domain.ub_spec() + 1);
            crate::domain::lemma_count_at_set_value(&domain, 0, domain.lb_spec());
            lemma_count_step(&domain, domain.lb_spec());
            if domain.lb_spec() == domain.ub_spec() {
                assert(domain.card_spec() == 1);
            }
        }
        if card == 1 {
            let lb = domain.lower_bound();
            return NewIntVar::Const(lb);
        }
        let lb = domain.lower_bound();
        let ub = domain.upper_bound();
        if card == 2 {
            let lit = factory.new_var();
            proof {
                crate::domain::lemma_count_le_rank_ub(&domain, domain.ub_spec());
                crate::domain::lemma_count_below_le_card(&domain, domain.ub_spec());
            }
            let scale = crate::value::NonZeroIntVal::new(ub - lb);
            let transformer = crate::transform::LinearTransform {
                scale: scale.unwrap(),
                offset: lb,
            };
            return NewIntVar::BoolLike(lit, transformer);
        }
        let upper_bound = trail.track_int(ub);
        let order_enc: OrderStorage = match order_encoding {
            EncodingType::Eager => {
                let lower_bound = trail.track_int(lb);
                let storage = factory.new_var_range(card - 1);
                OrderStorage::Eager { lower_bound, storage }
            },
            EncodingType::Lazy => {
                let lb_index = trail.track_int(-1);
                let ub_index = trail.track_int(-1);
                OrderStorage::Lazy(LazyOrderStorage::new(lb_index, ub_index))
            },
        };
        let direct_enc: DirectStorage = match direct_encoding {
            EncodingType::Eager => DirectStorage::Eager(factory.new_var_range(card - 2)),
            EncodingType::Lazy => DirectStorage::Lazy(Vec::new()),
        };
        // Link adjacent eager literals with their defining clauses.
        match (&order_enc, &direct_enc) {
            (OrderStorage::Eager { storage, .. }, _) => {
                let ghost old_cl = clauses@;
                let ghost stride: int = if direct_encoding is Eager {
                    4int
                } else {
                    1int
                };
                let os: i32 = storage.start;
                let ds: i32 = match &direct_enc {
                    DirectStorage::Eager(vars) => vars.start,
                    DirectStorage::Lazy(_) => 0,
                };
                let mut j: usize = 0;
                while j < card - 2
                    invariant
                        card == domain.card_spec(),
                        3 <= card <= usize::MAX,
                        0 <= j <= card - 2,
                        os + card <= i32::MAX,
                        ds + card <= i32::MAX,
                        0 < os,
                        direct_encoding is Eager ==> 0 < ds,
                        stride == if direct_encoding is Eager {
                            4int
                        } else {
                            1int
                        },
                        direct_enc is Eager <==> direct_encoding is Eager,
                        clauses@.len() == old_cl.len() + stride * j,
                        forall|jj: int| 0 <= jj < old_cl.len() ==> #[trigger] clauses@[jj] == old_cl[jj],
                        forall|jj: int|
                            0 <= jj < j ==> #[trigger] clauses@[old_cl.len() + stride * jj]@
                                =~= seq![(-(os + jj)) as i32, (os + jj + 1) as i32],
                        direct_encoding is Eager ==> forall|jj: int|
                            0 <= jj < j ==> (#[trigger] clauses@[old_cl.len() + stride * jj + 1])@
                                =~= seq![(-(ds + jj)) as i32, (-(os + jj)) as i32],
                        direct_encoding is Eager ==> forall|jj: int|
                            0 <= jj < j ==> (#[trigger] clauses@[old_cl.len() + stride * jj + 2])@
                                =~= seq![(-(ds + jj)) as i32, (os + jj + 1) as i32],
                        direct_encoding is Eager ==> forall|jj: int|
                            0 <= jj < j ==> (#[trigger] clauses@[old_cl.len() + stride * jj + 3])@
                                =~= seq![(ds + jj) as i32, (os + jj) as i32, (-(os + jj
                                + 1)) as i32],
                    decreases card - 2 - j,
                {
                    let lo: i32 = os + (j as i32);
                    let hi: i32 = os + (j as i32) + 1;
                    let nlo = -lo;
                    clauses.push(vec![nlo, hi]);
                    match &direct_enc {
                        DirectStorage::Eager(_) => {
                            let eq: i32 = ds + (j as i32);
                            let neq = -eq;
                            let nhi = -hi;
                            clauses.push(vec![neq, nlo]);
                            clauses.push(vec![neq, hi]);
                            clauses.push(vec![eq, lo, nhi]);
                        },
                        DirectStorage::Lazy(_) => (),
                    }
                    proof {
                        assert(stride * (j as int + 1) == stride * (j as int) + stride)
                            by (nonlinear_arith);
                    }
                    j = j + 1;
                }
            },
            (OrderStorage::Lazy(_), _) => (),
        }
        let iv = IntVar { direct_encoding: direct_enc, domain, order_encoding: order_enc, upper_bound };
        proof {
            crate::domain::lemma_count_le_rank_ub(&iv.domain, iv.dub());
            crate::domain::lemma_count_below_le_card(&iv.domain, iv.dub());
        }
        NewIntVar::Var(iv)
    }
}

/// The value returned by [`IntSetVal::resolve_val`] is the canonical
/// threshold [`IntVar::resolved`] of the request.
proof fn lemma_resolved_is(iv: &IntVar, i: int, w: int)
    requires
        iv.wf(),
        iv.dlb() < i <= iv.dub(),
        iv.domain.contains_spec(w),
        iv.domain.count_below(w) == iv.domain.count_below(i),
        i <= w,
    ensures
        iv.resolved(i) == w,
{
    let w2 = iv.resolved(i);
    assert(iv.domain.contains_spec(w2) && iv.domain.count_below(w2) == iv.domain.count_below(i)
        && i <= w2) by {
        assert(iv.domain.contains_spec(w) && iv.domain.count_below(w) == iv.domain.count_below(i)
            && i <= w);
    }
    lemma_rank_unique(&iv.domain, w, w2);
}

/// Ranks identify domain values uniquely.
proof fn lemma_rank_unique_self(iv: &IntVar, w1: int, w2: int)
    requires
        iv.wf(),
        iv.domain.contains_spec(w1),
        iv.domain.contains_spec(w2),
        iv.domain.count_below(w1) == iv.domain.count_below(w2),
    ensures
        w1 == w2,
{
    lemma_rank_unique(&iv.domain, w1, w2);
}

} // verus!
