//! Lists of identifiers, the entries of the membership index.

use vstd::prelude::*;

verus! {

/// An ordered list of identifiers without repetitions.
pub struct IDList {
    pub ids: Vec<u64>,
}

impl View for IDList {
    type V = Seq<u64>;

    open spec fn view(&self) -> Seq<u64> {
        self.ids@
    }
}

impl IDList {
    pub open spec fn wf(&self) -> bool {
        self@.no_duplicates()
    }

    pub fn new() -> (r: Self)
        ensures
            r@ == Seq::<u64>::empty(),
            r.wf(),
    {
        IDList { ids: Vec::new() }
    }

    /// Position of `x` in the list, if it is there.
    pub fn find(&self, x: u64) -> (r: Option<usize>)
        ensures
            r matches Some(i) ==> i < self@.len() && self@[i as int] == x,
            r is None ==> !self@.contains(x),
    {
        let mut i: usize = 0;
        while i < self.ids.len()
            invariant
                i <= self@.len(),
                forall|k: int| 0 <= k < i ==> self@[k] != x,
            decreases self@.len() - i,
        {
            if self.ids[i] == x {
                return Some(i);
            }
            i = i + 1;
        }
        None
    }

    pub fn contains(&self, x: u64) -> (r: bool)
        ensures
            r == self@.contains(x),
    {
        self.find(x).is_some()
    }

    /// Appends `x` unless it is already listed.
    pub fn add(&mut self, x: u64)
        requires
            old(self).wf(),
        ensures
            final(self).wf(),
            old(self)@.contains(x) ==> final(self)@ == old(self)@,
            !old(self)@.contains(x) ==> final(self)@ == old(self)@.push(x),
    {
        if !self.contains(x) {
            self.ids.push(x);
            proof {
                assert forall|i: int, j: int|
                    0 <= i < j < final(self)@.len() implies final(self)@[i] != final(self)@[j] by {
                    if j == old(self)@.len() {
                        assert(old(self)@.contains(old(self)@[i]));
                    }
                }
            }
        }
    }

    /// Takes `x` out of the list, keeping the order of the others.
    pub fn remove(&mut self, x: u64)
        requires
            old(self).wf(),
        ensures
            final(self).wf(),
            !old(self)@.contains(x) ==> final(self)@ == old(self)@,
            old(self)@.contains(x) ==> final(self)@ == old(self)@.remove(old(self)@.index_of(x)),
            forall|y: u64| final(self)@.contains(y) <==> (old(self)@.contains(y) && y != x),
    {
        match self.find(x) {
            None => {},
            Some(i) => {
                let ghost s = self@;
                self.ids.remove(i);
                proof {
                    assert(s.contains(x));
                    assert(s.index_of(x) == i as int);
                    let t = s.remove(i as int);
                    assert(final(self)@ == t);
                    assert forall|y: u64| t.contains(y) <==> (s.contains(y) && y != x) by {
                        if s.contains(y) && y != x {
                            let k = choose|k: int| 0 <= k < s.len() && s[k] == y;
                            if k < i {
                                assert(t[k] == y);
                            } else {
                                assert(k != i);
                                assert(t[k - 1] == y);
                            }
                        }
                        if t.contains(y) {
                            let k = choose|k: int| 0 <= k < t.len() && t[k] == y;
                            if k < i {
                                assert(s[k] == y);
                            } else {
                                assert(s[k + 1] == y);
                            }
                        }
                    }
                    assert forall|a: int, b: int| 0 <= a < b < t.len() implies t[a] != t[b] by {
                        if b < i {
                        } else if a < i {
                            assert(t[b] == s[b + 1]);
                        } else {
                            assert(t[a] == s[a + 1] && t[b] == s[b + 1]);
                        }
                    }
                }
            },
        }
    }

    /// A copy of the identifiers, in order.
    pub fn to_vec(&self) -> (r: Vec<u64>)
        ensures
            r@ == self@,
    {
        let mut out: Vec<u64> = Vec::new();
        let mut i: usize = 0;
        while i < self.ids.len()
            invariant
                i <= self@.len(),
                out@ == self@.subrange(0, i as int),
            decreases self@.len() - i,
        {
            out.push(self.ids[i]);
            i = i + 1;
            assert(out@ =~= self@.subrange(0, i as int));
        }
        assert(self@.subrange(0, self@.len() as int) =~= self@);
        out
    }
}

} // verus!
