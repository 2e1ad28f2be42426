//! The key allocator: issues small integer keys and reclaims freed ones,
//! preferring reuse of a freed key over growing the high-water mark.

use vstd::prelude::*;

verus! {

/// The mathematical state of a key allocator: the high-water mark, absent
/// when nothing was ever allocated, and the keys freed for reuse.
pub struct GenModel {
    pub max: Option<u32>,
    pub avail: Seq<u32>,
}

/// A well-formed allocator state: without a high-water mark no key is
/// freed; freed keys never exceed the mark and are never duplicated.
pub open spec fn gen_wf(g: GenModel) -> bool {
    match g.max {
        None => g.avail.len() == 0,
        Some(m) => {
            &&& (forall|i: int| 0 <= i < g.avail.len() ==> #[trigger] g.avail[i] <= m)
            &&& (forall|i: int, j: int|
                #![trigger g.avail[i], g.avail[j]]
                0 <= i < j < g.avail.len() ==> g.avail[i] != g.avail[j])
        },
    }
}

/// Whether an allocation can be served without leaving the key range.
pub open spec fn can_allocate(g: GenModel) -> bool {
    match g.max {
        None => true,
        Some(m) => g.avail.len() > 0 || m < u32::MAX,
    }
}

/// What one allocation does: the first key when nothing was ever
/// allocated; else the most recently freed key; else one above the mark.
pub open spec fn allocate_spec(g: GenModel) -> (GenModel, u32)
    recommends
        can_allocate(g),
{
    match g.max {
        None => (GenModel { max: Some(0u32), avail: g.avail }, 0u32),
        Some(m) => if g.avail.len() > 0 {
            (GenModel { max: g.max, avail: g.avail.drop_last() }, g.avail.last())
        } else {
            (GenModel { max: Some((m + 1) as u32), avail: g.avail }, (m + 1) as u32)
        },
    }
}

/// `s` with every occurrence of `k` removed, order otherwise kept.
pub open spec fn remove_key(s: Seq<u32>, k: u32) -> Seq<u32>
    decreases s.len(),
{
    if s.len() == 0 {
        Seq::empty()
    } else if s.last() == k {
        remove_key(s.drop_last(), k)
    } else {
        remove_key(s.drop_last(), k).push(s.last())
    }
}

/// Removing a key keeps exactly the other elements, keeps every bound,
/// and keeps freedom from duplicates.
pub proof fn lemma_remove_key(s: Seq<u32>, k: u32)
    ensures
        forall|x: u32| remove_key(s, k).contains(x) <==> (s.contains(x) && x != k),
        remove_key(s, k).len() <= s.len(),
        forall|i: int| 0 <= i < remove_key(s, k).len() ==> s.contains(#[trigger] remove_key(s, k)[i])
            && remove_key(s, k)[i] != k,
        (forall|i: int, j: int|
            #![trigger s[i], s[j]]
            0 <= i < j < s.len() ==> s[i] != s[j]) ==> (forall|i: int, j: int|
            #![trigger remove_key(s, k)[i], remove_key(s, k)[j]]
            0 <= i < j < remove_key(s, k).len() ==> remove_key(s, k)[i] != remove_key(s, k)[j]),
    decreases s.len(),
{
    if s.len() == 0 {
        assert forall|x: u32| remove_key(s, k).contains(x) <==> (s.contains(x) && x != k) by {
            assert(!s.contains(x));
            assert(!remove_key(s, k).contains(x));
        }
    } else {
        let pre = s.drop_last();
        lemma_remove_key(pre, k);
        assert forall|x: u32| s.contains(x) <==> (pre.contains(x) || s.last() == x) by {
            if s.contains(x) {
                let i = choose|i: int| 0 <= i < s.len() && s[i] == x;
                if i < s.len() - 1 {
                    assert(pre[i] == x);
                    assert(pre.contains(x));
                }
            }
            if pre.contains(x) {
                let i = choose|i: int| 0 <= i < pre.len() && pre[i] == x;
                assert(s[i] == x);
            }
            if s.last() == x {
                assert(s[s.len() - 1] == x);
            }
        }
        if s.last() != k {
            let r = remove_key(pre, k).push(s.last());
            assert forall|x: u32| r.contains(x) <==> (remove_key(pre, k).contains(x) || s.last()
                == x) by {
                if r.contains(x) {
                    let i = choose|i: int| 0 <= i < r.len() && r[i] == x;
                    if i < r.len() - 1 {
                        assert(remove_key(pre, k)[i] == x);
                    }
                }
                if remove_key(pre, k).contains(x) {
                    let i = choose|i: int| 0 <= i < remove_key(pre, k).len() && remove_key(
                        pre,
                        k,
                    )[i] == x;
                    assert(r[i] == x);
                }
                if s.last() == x {
                    assert(r[r.len() - 1] == x);
                }
            }
            if (forall|i: int, j: int| #![trigger s[i], s[j]] 0 <= i < j < s.len() ==> s[i] != s[j]) {
                assert forall|i: int, j: int|
                    #![trigger pre[i], pre[j]]
                    0 <= i < j < pre.len() implies pre[i] != pre[j] by {
                    assert(s[i] == pre[i]);
                    assert(s[j] == pre[j]);
                }
                assert(!pre.contains(s.last()));
                assert(!remove_key(pre, k).contains(s.last()));
            }
        }
    }
}

/// What one release does: releasing the mark itself retires it (resetting
/// everything when it was the very first key); releasing a lower key not
/// yet freed records it; any other key has no effect.
pub open spec fn release_spec(g: GenModel, key: u32) -> GenModel {
    match g.max {
        None => g,
        Some(m) => if key == m && m == 0 {
            GenModel { max: None, avail: Seq::empty() }
        } else if key == m {
            GenModel { max: Some((m - 1) as u32), avail: remove_key(g.avail, key) }
        } else if key < m && !g.avail.contains(key) {
            GenModel { max: g.max, avail: g.avail.push(key) }
        } else {
            g
        },
    }
}

/// Issues and reclaims small integer keys; freed keys are reused before
/// the high-water mark grows.
pub struct IndexGenerator {
    max_index: Option<u32>,
    available: Vec<u32>,
}

impl View for IndexGenerator {
    type V = GenModel;

    closed spec fn view(&self) -> GenModel {
        GenModel { max: self.max_index, avail: self.available@ }
    }
}

impl IndexGenerator {
    /// A well-formed allocator.
    pub open spec fn wf(self) -> bool {
        gen_wf(self@)
    }

    /// A fresh allocator: nothing ever allocated, nothing freed.
    pub fn new() -> (r: IndexGenerator)
        ensures
            r@ == (GenModel { max: None::<u32>, avail: Seq::<u32>::empty() }),
            r.wf(),
    {
        let r = IndexGenerator { max_index: None, available: Vec::new() };
        proof {
            assert(r@.avail =~= Seq::<u32>::empty());
        }
        r
    }

    /// Issues a key: the first key ever, a freed key (most recently freed
    /// first), or the next key above the high-water mark.
    pub fn next_index(&mut self) -> (r: u32)
        requires
            old(self).wf(),
            can_allocate(old(self)@),
        ensures
            final(self)@ == allocate_spec(old(self)@).0,
            r == allocate_spec(old(self)@).1,
            final(self).wf(),
    {
        if self.max_index.is_none() {
            self.max_index = Some(0);
            0
        } else {
            match self.available.pop() {
                Some(index) => index,
                None => {
                    let m = match self.max_index {
                        Some(m) => m,
                        None => 0,  // unreachable: the mark was tested above
                    };
                    let v = m + 1;
                    self.max_index = Some(v);
                    v
                },
            }
        }
    }

    /// Returns a key to the allocator, as `release_spec` says; releasing
    /// a key that was never validly issued has no effect.
    pub fn remove_index(&mut self, index: u32)
        requires
            old(self).wf(),
        ensures
            final(self)@ == release_spec(old(self)@, index),
            final(self).wf(),
    {
        let m = match self.max_index {
            Some(m) => m,
            None => {
                return ;
            },
        };
        if index == m && m == 0 {
            self.max_index = None;
            self.available.clear();
            proof {
                assert(self.available@ =~= Seq::<u32>::empty());
            }
        } else if index == m {
            self.max_index = Some(m - 1);
            let mut kept: Vec<u32> = Vec::new();
            let ghost orig = self.available@;
            let mut i: usize = 0;
            while i < self.available.len()
                invariant
                    i <= self.available.len(),
                    self.available@ == orig,
                    kept@ == remove_key(orig.take(i as int), index),
                decreases self.available.len() - i,
            {
                let x = self.available[i];
                proof {
                    assert(orig.take(i as int + 1).drop_last() =~= orig.take(i as int));
                    assert(orig.take(i as int + 1).last() == orig[i as int]);
                }
                if x != index {
                    kept.push(x);
                }
                i += 1;
            }
            proof {
                assert(orig.take(orig.len() as int) =~= orig);
                lemma_remove_key(orig, index);
            }
            self.available = kept;
        } else if index < m {
            let mut found = false;
            let mut i: usize = 0;
            while i < self.available.len()
                invariant
                    i <= self.available.len(),
                    self.available@ == old(self).available@,
                    self.max_index == Some(m),
                    found <==> exists|j: int| 0 <= j < i && self.available@[j] == index,
                decreases self.available.len() - i,
            {
                if self.available[i] == index {
                    found = true;
                }
                i += 1;
            }
            if !found {
                proof {
                    assert(!self.available@.contains(index));
                }
                self.available.push(index);
            } else {
                proof {
                    assert(self.available@.contains(index));
                }
            }
        }
    }
}

/// Law: a fresh allocator issues key zero, then key one; once key zero is
/// released it is reissued by the next allocation, before the high-water
/// mark grows.
pub proof fn lemma_allocate_reuse()
    ensures
        ({
            let g0 = GenModel { max: None, avail: Seq::empty() };
            let (g1, k1) = allocate_spec(g0);
            let (g2, k2) = allocate_spec(g1);
            let g3 = release_spec(g2, 0);
            let (g4, k4) = allocate_spec(g3);
            &&& k1 == 0
            &&& k2 == 1
            &&& k4 == 0
        }),
{
    let g0 = GenModel { max: None, avail: Seq::empty() };
    let (g1, k1) = allocate_spec(g0);
    let (g2, k2) = allocate_spec(g1);
    assert(!g2.avail.contains(0u32));
    let g3 = release_spec(g2, 0);
    assert(g3.avail == Seq::<u32>::empty().push(0u32));
    assert(g3.avail.last() == 0u32);
}

/// Law: releasing any key on a fresh allocator, where nothing was ever
/// allocated, has no effect, and the next allocation still issues key
/// zero.
pub proof fn lemma_release_on_fresh_is_noop(key: u32)
    ensures
        ({
            let g0 = GenModel { max: None, avail: Seq::empty() };
            let g1 = release_spec(g0, key);
            &&& g1 == g0
            &&& allocate_spec(g1).1 == 0
        }),
{
}

} // verus!
