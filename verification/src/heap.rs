//! A binary min-heap of `(distance, node)` keys for the shortest-path searches.

use vstd::prelude::*;
use vstd::multiset::Multiset;

verus! {

broadcast use vstd::seq_lib::group_to_multiset_ensures, vstd::multiset::group_multiset_properties;

/// Keys ordered by distance, then by node.
pub open spec fn key_le(a: (i64, u32), b: (i64, u32)) -> bool {
    a.0 < b.0 || (a.0 == b.0 && a.1 <= b.1)
}

pub open spec fn parent(i: int) -> int {
    (i - 1) / 2
}

/// Every entry is at least its parent.
pub open spec fn heap_ordered(s: Seq<(i64, u32)>) -> bool {
    forall|j: int| 0 < j < s.len() ==> key_le(#[trigger] s[parent(j)], s[j])
}

pub struct MinHeap {
    items: Vec<(i64, u32)>,
}

proof fn lemma_root_is_least(s: Seq<(i64, u32)>, i: int)
    requires
        heap_ordered(s),
        0 <= i < s.len(),
    ensures
        key_le(s[0], s[i]),
    decreases i,
{
    if i > 0 {
        lemma_root_is_least(s, parent(i));
        assert(key_le(s[parent(i)], s[i]));
    }
}

fn key_less(a: (i64, u32), b: (i64, u32)) -> (r: bool)
    ensures
        r == !key_le(b, a),
{
    a.0 < b.0 || (a.0 == b.0 && a.1 < b.1)
}

impl MinHeap {
    /// The keys held, with their multiplicities.
    pub closed spec fn contents(&self) -> Multiset<(i64, u32)> {
        self.items@.to_multiset()
    }

    pub closed spec fn wf(&self) -> bool {
        heap_ordered(self.items@)
    }

    pub closed spec fn size(&self) -> nat {
        self.items@.len()
    }

    /// The size counts the keys held.
    pub proof fn lemma_size(&self)
        ensures
            self.size() == self.contents().len(),
    {
    }

    pub fn new() -> (h: MinHeap)
        ensures
            h.wf(),
            h.contents() =~= Multiset::empty(),
            h.size() == 0,
    {
        MinHeap { items: Vec::new() }
    }

    pub fn len(&self) -> (r: usize)
        ensures
            r == self.size(),
    {
        self.items.len()
    }

    pub fn clear(&mut self)
        ensures
            final(self).wf(),
            final(self).contents() =~= Multiset::empty(),
            final(self).size() == 0,
    {
        self.items.clear();
    }

    fn swap(&mut self, i: usize, j: usize)
        requires
            i < old(self).items.len(),
            j < old(self).items.len(),
        ensures
            final(self).items@ == old(self).items@.update(i as int, old(self).items@[j as int]).update(
                j as int,
                old(self).items@[i as int],
            ),
            final(self).contents() == old(self).contents(),
    {
        let a = self.items[i];
        let b = self.items[j];
        self.items.set(i, b);
        self.items.set(j, a);
        proof {
            let s = old(self).items@;
            assert(s.update(i as int, s[j as int]).to_multiset() == s.to_multiset().insert(
                s[j as int],
            ).remove(s[i as int]));
        }
    }

    pub fn push(&mut self, x: (i64, u32))
        requires
            old(self).wf(),
        ensures
            final(self).wf(),
            final(self).contents() == old(self).contents().insert(x),
            final(self).size() == old(self).size() + 1,
    {
        self.items.push(x);
        let mut i = self.items.len() - 1;
        while i > 0
            invariant_except_break
                i < self.items.len(),
                forall|j: int|
                    0 < j < self.items@.len() && j != i ==> key_le(
                        #[trigger] self.items@[parent(j)],
                        self.items@[j],
                    ),
                i > 0 ==> forall|c: int|
                    0 < c < self.items@.len() && parent(c) == i ==> key_le(
                        self.items@[parent(i as int)],
                        #[trigger] self.items@[c],
                    ),
                self.contents() == old(self).contents().insert(x),
                self.items@.len() == old(self).items@.len() + 1,
            ensures
                self.wf(),
                self.contents() == old(self).contents().insert(x),
                self.items@.len() == old(self).items@.len() + 1,
            decreases i,
        {
            let p = (i - 1) / 2;
            if key_less(self.items[i], self.items[p]) {
                let ghost s = self.items@;
                self.swap(i, p);
                proof {
                    let t = self.items@;
                    assert forall|j: int|
                        0 < j < t.len() && j != p implies key_le(#[trigger] t[parent(j)], t[j]) by {
                        if parent(j) == i {
                            assert(key_le(s[parent(i as int)], s[j]));
                        } else if parent(j) == p && j != i {
                            assert(key_le(s[p as int], s[j]));
                        } else if j == i {
                        } else {
                        }
                    }
                    if p > 0 {
                        assert forall|c: int|
                            0 < c < t.len() && parent(c) == p implies key_le(
                                t[parent(p as int)],
                                #[trigger] t[c],
                            ) by {
                            assert(key_le(s[parent(p as int)], s[p as int]));
                            if c != i {
                                assert(key_le(s[p as int], s[c]));
                            }
                        }
                    }
                }
                i = p;
            } else {
                break;
            }
        }
    }

    pub fn pop(&mut self) -> (r: Option<(i64, u32)>)
        requires
            old(self).wf(),
        ensures
            final(self).wf(),
            r is None <==> old(self).size() == 0,
            r is None ==> final(self).contents() == old(self).contents(),
            r matches Some(x) ==> {
                &&& old(self).contents() == final(self).contents().insert(x)
                &&& final(self).size() + 1 == old(self).size()
                &&& forall|y: (i64, u32)| old(self).contents().contains(y) ==> key_le(x, y)
            },
    {
        if self.items.len() == 0 {
            return None;
        }
        let top = self.items[0];
        proof {
            let s = self.items@;
            assert forall|y: (i64, u32)| s.to_multiset().contains(y) implies key_le(top, y) by {
                let k = choose|k: int| 0 <= k < s.len() && s[k] == y;
                lemma_root_is_least(s, k);
            }
        }
        let n = self.items.len();
        self.swap(0, n - 1);
        let ghost swapped = self.items@;
        let _ = self.items.pop();
        proof {
            assert(swapped =~= self.items@.push(top));
        }
        let len = self.items.len();
        let mut i: usize = 0;
        while i < len
            invariant_except_break
                len == self.items.len(),
                i < len || (i == 0 && len == 0),
                forall|j: int|
                    0 < j < self.items@.len() && parent(j) != i ==> key_le(
                        #[trigger] self.items@[parent(j)],
                        self.items@[j],
                    ),
                i > 0 ==> forall|c: int|
                    0 < c < self.items@.len() && parent(c) == i ==> key_le(
                        self.items@[parent(i as int)],
                        #[trigger] self.items@[c],
                    ),
                old(self).contents() == self.contents().insert(top),
                self.items@.len() + 1 == old(self).items@.len(),
            ensures
                self.wf(),
                old(self).contents() == self.contents().insert(top),
                self.items@.len() + 1 == old(self).items@.len(),
            decreases len - i,
        {
            let has_child = i < len / 2;
            let l = if has_child { 2 * i + 1 } else { i };
            let r = if has_child { 2 * i + 2 } else { i };
            let mut m = i;
            if has_child && key_less(self.items[l], self.items[m]) {
                m = l;
            }
            if has_child && r < len && key_less(self.items[r], self.items[m]) {
                m = r;
            }
            if m == i {
                proof {
                    assert forall|j: int|
                        0 < j < self.items@.len() implies key_le(
                        #[trigger] self.items@[parent(j)],
                        self.items@[j],
                    ) by {
                        if parent(j) == i {
                            assert(has_child);
                            assert(j == l || j == r);
                        }
                    }
                }
                break;
            }
            let ghost s = self.items@;
            self.swap(i, m);
            proof {
                let t = self.items@;
                assert(parent(m as int) == i);
                assert forall|j: int|
                    0 < j < t.len() && parent(j) != m implies key_le(#[trigger] t[parent(j)], t[j]) by {
                    if j == m {
                    } else if parent(j) == i {
                        assert(j == l || j == r);
                    } else if j == i {
                        assert(key_le(s[parent(i as int)], s[m as int]));
                    } else {
                    }
                }
                assert forall|c: int|
                    0 < c < t.len() && parent(c) == m implies key_le(
                        t[parent(m as int)],
                        #[trigger] t[c],
                    ) by {
                    assert(key_le(s[m as int], s[c]));
                }
            }
            i = m;
        }
        Some(top)
    }
}

} // verus!
