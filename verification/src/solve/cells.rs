//! A set of cell indices, kept as a strictly increasing vector.
//!
//! The solver needs deterministic iteration in ascending index order (crates
//! are expanded smallest index first, and state encodings list crate cells
//! sorted), so the set is stored sorted rather than hashed.

use vstd::prelude::*;

verus! {

/// True if `s` is strictly increasing.
pub open spec fn strictly_sorted(s: Seq<usize>) -> bool {
    forall|i: int, j: int| 0 <= i < j < s.len() ==> s[i] < s[j]
}

/// A strictly sorted sequence has no more elements than any strictly
/// sorted sequence that contains all of them.
pub proof fn lemma_sorted_subset_len(a: Seq<usize>, b: Seq<usize>)
    requires
        strictly_sorted(a),
        strictly_sorted(b),
        forall|y: usize| a.contains(y) ==> b.contains(y),
    ensures
        a.len() <= b.len(),
{
    assert(a.no_duplicates());
    assert(b.no_duplicates());
    a.unique_seq_to_set();
    b.unique_seq_to_set();
    assert forall|y: usize| a.to_set().contains(y) implies b.to_set().contains(y) by {
        assert(a.contains(y));
    }
    vstd::set_lib::lemma_len_subset(a.to_set(), b.to_set());
}

/// A strictly sorted sequence missing an element of a strictly sorted
/// superset is strictly shorter.
pub proof fn lemma_sorted_subset_len_strict(a: Seq<usize>, b: Seq<usize>, x: usize)
    requires
        strictly_sorted(a),
        strictly_sorted(b),
        forall|y: usize| a.contains(y) ==> b.contains(y),
        b.contains(x),
        !a.contains(x),
    ensures
        a.len() + 1 <= b.len(),
{
    assert(a.no_duplicates());
    assert(b.no_duplicates());
    a.unique_seq_to_set();
    b.unique_seq_to_set();
    let sa = a.to_set().insert(x);
    assert(a.to_set().finite());
    assert(!a.to_set().contains(x)) by {
        if a.to_set().contains(x) {
            assert(a.contains(x));
        }
    }
    assert(sa.len() == a.to_set().len() + 1);
    assert forall|y: usize| sa.contains(y) implies b.to_set().contains(y) by {
        if y != x {
            assert(a.contains(y));
        }
        assert(b.contains(y));
    }
    vstd::set_lib::lemma_len_subset(sa, b.to_set());
}

/// A finite set of cell indices in strictly increasing order.
#[derive(Debug)]
pub struct CellSet {
    items: Vec<usize>,
}

impl View for CellSet {
    type V = Seq<usize>;

    closed spec fn view(&self) -> Seq<usize> {
        self.items@
    }
}

impl CellSet {
    /// Well-formed: the indices are strictly increasing (hence distinct).
    pub open spec fn wf(&self) -> bool {
        strictly_sorted(self@)
    }

    /// The empty set.
    pub fn empty() -> (r: Self)
        ensures
            r@ =~= Seq::<usize>::empty(),
            r.wf(),
    {
        CellSet { items: Vec::new() }
    }

    pub fn len(&self) -> (r: usize)
        ensures
            r == self@.len(),
    {
        self.items.len()
    }

    /// The index stored at sorted position `i`.
    pub fn get(&self, i: usize) -> (r: usize)
        requires
            i < self@.len(),
        ensures
            r == self@[i as int],
    {
        self.items[i]
    }

    /// Membership test.
    pub fn contains(&self, x: usize) -> (r: bool)
        ensures
            r == self@.contains(x),
    {
        let n = self.items.len();
        let mut i: usize = 0;
        while i < n
            invariant
                n == self@.len(),
                i <= n,
                forall|k: int| 0 <= k < i ==> self@[k] != x,
            decreases n - i,
        {
            if self.items[i] == x {
                return true;
            }
            i = i + 1;
        }
        false
    }

    /// An exact copy.
    pub fn duplicate(&self) -> (r: Self)
        ensures
            r@ == self@,
    {
        let n = self.items.len();
        let mut v: Vec<usize> = Vec::new();
        let mut i: usize = 0;
        while i < n
            invariant
                n == self@.len(),
                i <= n,
                v@ =~= self@.subrange(0, i as int),
            decreases n - i,
        {
            v.push(self.items[i]);
            i = i + 1;
        }
        proof {
            assert(v@ =~= self@);
        }
        CellSet { items: v }
    }

    /// Inserts `x`, keeping the order; a no-op when `x` is already present.
    #[verifier::rlimit(50)]
    pub fn insert(&mut self, x: usize)
        requires
            old(self).wf(),
        ensures
            final(self).wf(),
            forall|y: usize| final(self)@.contains(y) <==> (old(self)@.contains(y) || y == x),
            old(self)@.contains(x) ==> final(self)@ == old(self)@,
            !old(self)@.contains(x) ==> final(self)@.len() == old(self)@.len() + 1,
    {
        let n = self.items.len();
        let mut i: usize = 0;
        while i < n && self.items[i] < x
            invariant
                self@ == old(self)@,
                self.wf(),
                n == self@.len(),
                i <= n,
                forall|k: int| 0 <= k < i ==> self@[k] < x,
            decreases n - i,
        {
            i = i + 1;
        }
        if i < n && self.items[i] == x {
            assert(old(self)@.contains(x));
            return ;
        }
        let ghost s = self@;
        proof {
            assert forall|k: int| i <= k < s.len() implies s[k] > x by {
                if k > i {
                    assert(s[i as int] < s[k]);
                }
            }
            assert(!old(self)@.contains(x));
            s.insert_ensures(i as int, x);
        }
        self.items.insert(i, x);
        proof {
            let t = self@;
            assert(t =~= s.insert(i as int, x));
            assert forall|a: int, b: int| 0 <= a < b < t.len() implies t[a] < t[b] by {
                if b < i {
                } else if a < i && b == i {
                    assert(t[a] == s[a] && t[b] == x);
                } else if a < i && b > i {
                    assert(t[a] == s[a] && t[b] == s[b - 1]);
                } else if a == i {
                    assert(t[a] == x && t[b] == s[b - 1]);
                } else {
                    assert(t[a] == s[a - 1] && t[b] == s[b - 1]);
                }
            }
            assert forall|y: usize| t.contains(y) implies (s.contains(y) || y == x) by {
                let j = choose|j: int| 0 <= j < t.len() && t[j] == y;
                if j < i {
                    assert(s[j] == y);
                } else if j > i {
                    assert(s[j - 1] == y);
                }
            }
            assert forall|y: usize| (s.contains(y) || y == x) implies t.contains(y) by {
                if y == x {
                    assert(t[i as int] == x);
                } else {
                    let j = choose|j: int| 0 <= j < s.len() && s[j] == y;
                    if j < i {
                        assert(t[j] == y);
                    } else {
                        assert(t[j + 1] == y);
                    }
                }
            }
        }
    }

    /// Removes `x` when present, keeping the order.
    pub fn remove(&mut self, x: usize)
        requires
            old(self).wf(),
        ensures
            final(self).wf(),
            forall|y: usize| final(self)@.contains(y) <==> (old(self)@.contains(y) && y != x),
            !old(self)@.contains(x) ==> final(self)@ == old(self)@,
            old(self)@.contains(x) ==> final(self)@.len() == old(self)@.len() - 1,
    {
        let n = self.items.len();
        let mut i: usize = 0;
        while i < n && self.items[i] != x
            invariant
                self@ == old(self)@,
                self.wf(),
                n == self@.len(),
                i <= n,
                forall|k: int| 0 <= k < i ==> self@[k] != x,
            decreases n - i,
        {
            i = i + 1;
        }
        if i == n {
            assert(!old(self)@.contains(x));
            return ;
        }
        let ghost s = self@;
        proof {
            s.remove_ensures(i as int);
            assert(s.contains(x));
        }
        self.items.remove(i);
        proof {
            let t = self@;
            assert(t =~= s.remove(i as int));
            assert forall|a: int, b: int| 0 <= a < b < t.len() implies t[a] < t[b] by {
                if b < i {
                } else if a < i {
                    assert(t[a] == s[a] && t[b] == s[b + 1]);
                } else {
                    assert(t[a] == s[a + 1] && t[b] == s[b + 1]);
                }
            }
            assert forall|y: usize| t.contains(y) implies (s.contains(y) && y != x) by {
                let j = choose|j: int| 0 <= j < t.len() && t[j] == y;
                if j < i {
                    assert(s[j] == y);
                    assert(s[j] < s[i as int]);
                } else {
                    assert(s[j + 1] == y);
                    assert(s[i as int] < s[j + 1]);
                }
            }
            assert forall|y: usize| (s.contains(y) && y != x) implies t.contains(y) by {
                let j = choose|j: int| 0 <= j < s.len() && s[j] == y;
                if j < i {
                    assert(t[j] == y);
                } else {
                    assert(j != i);
                    assert(t[j - 1] == y);
                }
            }
        }
    }

    /// The smallest index held.
    pub fn min(&self) -> (r: usize)
        requires
            self.wf(),
            self@.len() > 0,
        ensures
            r == self@[0],
            self@.contains(r),
            forall|y: usize| self@.contains(y) ==> r <= y,
    {
        proof {
            assert forall|y: usize| self@.contains(y) implies self@[0] <= y by {
                let j = choose|j: int| 0 <= j < self@.len() && self@[j] == y;
                if j > 0 {
                    assert(self@[0] < self@[j]);
                }
            }
        }
        self.items[0]
    }
}

} // verus!
