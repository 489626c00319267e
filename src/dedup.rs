//! The per-session window of recently accepted ingress sequence numbers.

use vstd::prelude::*;

verus! {

/// Size above which the window is trimmed after an insertion.
pub const DEDUP_CAPACITY: usize = 100;

/// `s - DEDUP_CAPACITY`, saturating at zero: entries at or below it are
/// evicted when the window overflows.
pub open spec fn window_floor(s: u32) -> u32 {
    if s >= 100 {
        (s - 100) as u32
    } else {
        0
    }
}

/// The window after accepting `s`.
pub open spec fn accept_spec(d: Set<u32>, s: u32) -> Set<u32> {
    if d.contains(s) {
        d
    } else if d.insert(s).len() > DEDUP_CAPACITY {
        d.insert(s).filter(|x: u32| x > window_floor(s))
    } else {
        d.insert(s)
    }
}

/// Set of recently accepted sequence numbers, held without repetition.
pub struct DedupWindow {
    // A `Vec` rather than a set: trimming keeps the entries above a floor,
    // which is a loop proved here; vstd gives a hash set no `retain`.
    seqs: Vec<u32>,
}

impl DedupWindow {
    pub closed spec fn view(&self) -> Set<u32> {
        self.seqs@.to_set()
    }

    pub closed spec fn wf(&self) -> bool {
        self.seqs@.no_duplicates()
    }

    pub proof fn lemma_finite(&self)
        requires
            self.wf(),
        ensures
            self@.finite(),
            self@.len() == self.len_spec(),
    {
        self.seqs@.unique_seq_to_set();
    }

    pub closed spec fn len_spec(&self) -> nat {
        self.seqs@.len()
    }

    pub fn new() -> (r: Self)
        ensures
            r.wf(),
            r@ == Set::<u32>::empty(),
    {
        let r = DedupWindow { seqs: Vec::new() };
        assert(r@ =~= Set::<u32>::empty());
        r
    }

    /// Whether `s` is in the window.
    pub fn contains(&self, s: u32) -> (r: bool)
        ensures
            r == self@.contains(s),
    {
        let mut i: usize = 0;
        while i < self.seqs.len()
            invariant
                i <= self.seqs@.len(),
                forall|j: int| 0 <= j < i ==> self.seqs@[j] != s,
            decreases self.seqs@.len() - i,
        {
            if self.seqs[i] == s {
                assert(self.seqs@.contains(s));
                return true;
            }
            i = i + 1;
        }
        false
    }

    /// Number of sequence numbers held.
    pub fn len(&self) -> (r: usize)
        requires
            self.wf(),
        ensures
            r == self@.len(),
    {
        proof {
            self.lemma_finite();
        }
        self.seqs.len()
    }

    /// The held sequence numbers, each once.
    pub fn to_vec(&self) -> (r: Vec<u32>)
        ensures
            r@.to_set() == self@,
            self.wf() ==> r@.no_duplicates(),
    {
        let mut r: Vec<u32> = Vec::new();
        let mut i: usize = 0;
        while i < self.seqs.len()
            invariant
                i <= self.seqs@.len(),
                r@ == self.seqs@.subrange(0, i as int),
            decreases self.seqs@.len() - i,
        {
            r.push(self.seqs[i]);
            i = i + 1;
            assert(r@ =~= self.seqs@.subrange(0, i as int));
        }
        assert(r@ =~= self.seqs@);
        r
    }

    /// Accepts `s`: returns `false` for a duplicate, which leaves the window
    /// as it was; otherwise inserts `s` and, if the window then holds more
    /// than `DEDUP_CAPACITY` entries, keeps only those above `window_floor(s)`.
    pub fn accept(&mut self, s: u32) -> (fresh: bool)
        requires
            old(self).wf(),
        ensures
            final(self).wf(),
            fresh == !old(self)@.contains(s),
            final(self)@ == accept_spec(old(self)@, s),
    {
        if self.contains(s) {
            return false;
        }
        let ghost before = self.seqs@;
        self.seqs.push(s);
        proof {
            assert forall|y: u32| self.seqs@.contains(y) <==> before.contains(y) || y == s by {
                if before.contains(y) {
                    let j = choose|j: int| 0 <= j < before.len() && before[j] == y;
                    assert(self.seqs@[j] == y);
                }
                if y == s {
                    assert(self.seqs@[before.len() as int] == y);
                }
                if self.seqs@.contains(y) && y != s {
                    let j = choose|j: int| 0 <= j < self.seqs@.len() && self.seqs@[j] == y;
                    assert(before[j] == y);
                }
            }
            assert(self.seqs@.to_set() =~= before.to_set().insert(s));
            self.seqs@.unique_seq_to_set();
        }
        if self.seqs.len() > DEDUP_CAPACITY {
            let floor = if s >= 100 { s - 100 } else { 0 };
            let ghost full = self.seqs@;
            let mut kept: Vec<u32> = Vec::new();
            let mut i: usize = 0;
            while i < self.seqs.len()
                invariant
                    self.seqs@ == full,
                    full.no_duplicates(),
                    floor == window_floor(s),
                    i <= full.len(),
                    kept@.no_duplicates(),
                    forall|y: u32| #[trigger] kept@.contains(y) <==> (exists|j: int| 0 <= j < i && full[j] == y) && y > floor,
                decreases full.len() - i,
            {
                let x = self.seqs[i];
                let ghost prev = kept@;
                if x > floor {
                    proof {
                        assert(!prev.contains(x)) by {
                            if prev.contains(x) {
                                let j = choose|j: int| 0 <= j < i && full[j] == x;
                                assert(full[j] == full[i as int]);
                            }
                        }
                    }
                    kept.push(x);
                    proof {
                        assert forall|y: u32| kept@.contains(y) <==> prev.contains(y) || y == x by {
                            if prev.contains(y) {
                                let j = choose|j: int| 0 <= j < prev.len() && prev[j] == y;
                                assert(kept@[j] == y);
                            }
                            if y == x {
                                assert(kept@[prev.len() as int] == y);
                            }
                            if kept@.contains(y) && y != x {
                                let j = choose|j: int| 0 <= j < kept@.len() && kept@[j] == y;
                                assert(prev[j] == y);
                            }
                        }
                    }
                }
                i = i + 1;
                proof {
                    assert forall|y: u32| #[trigger] kept@.contains(y) <==> (exists|j: int| 0 <= j < i && full[j] == y) && y > floor by {
                        if exists|j: int| 0 <= j < i && full[j] == y {
                            let j = choose|j: int| 0 <= j < i && full[j] == y;
                            if j < i - 1 {
                                assert(exists|k: int| 0 <= k < i - 1 && full[k] == y);
                            }
                        }
                        if prev.contains(y) {
                            let j = choose|j: int| 0 <= j < i - 1 && full[j] == y;
                            assert(0 <= j < i && full[j] == y);
                        }
                        if y == x {
                            assert(full[i - 1] == y);
                        }
                    }
                }
            }
            self.seqs = kept;
            proof {
                assert forall|y: u32| self.seqs@.to_set().contains(y) <==> full.to_set().filter(|x: u32| x > window_floor(s)).contains(y) by {
                    if full.contains(y) {
                        let j = choose|j: int| 0 <= j < full.len() && full[j] == y;
                        assert(exists|k: int| 0 <= k < full.len() && full[k] == y);
                    }
                    if exists|k: int| 0 <= k < full.len() && full[k] == y {
                        let k = choose|k: int| 0 <= k < full.len() && full[k] == y;
                        assert(full.contains(y));
                    }
                }
                assert(self.seqs@.to_set() =~= full.to_set().filter(|x: u32| x > window_floor(s)));
            }
        }
        true
    }
}

} // verus!
