//! Small association maps with mathematical `Map` views.
//!
//! The replica keys its state by block digest (32 raw bytes) and by client
//! index.  Both maps are held as vectors of pairs with unique keys; every
//! operation is specified against the abstract `Map` view.

use vstd::prelude::*;

use crate::chain::{digest_eq, BlockDigest};

verus! {

/// Unique keys, viewed as byte strings.
pub open spec fn digest_keys_unique<T>(s: Seq<(BlockDigest, T)>) -> bool {
    forall|i: int, j: int|
        0 <= i < j < s.len() ==> (#[trigger] s[i]).0@ != (#[trigger] s[j]).0@
}

/// The abstract map a pair sequence stands for; later entries win, though
/// with unique keys the order never matters.
pub open spec fn digest_map_view<T>(s: Seq<(BlockDigest, T)>) -> Map<Seq<u8>, T>
    decreases s.len(),
{
    if s.len() == 0 {
        Map::empty()
    } else {
        digest_map_view(s.drop_last()).insert(s.last().0@, s.last().1)
    }
}

/// Every stored entry is present in the view.
pub proof fn lemma_digest_view_index<T>(s: Seq<(BlockDigest, T)>, i: int)
    requires
        digest_keys_unique(s),
        0 <= i < s.len(),
    ensures
        digest_map_view(s).contains_key(s[i].0@),
        digest_map_view(s)[s[i].0@] == s[i].1,
    decreases s.len(),
{
    if i == s.len() - 1 {
    } else {
        assert(digest_keys_unique(s.drop_last()));
        lemma_digest_view_index(s.drop_last(), i);
        assert(s.drop_last()[i] == s[i]);
    }
}

/// A key held by no entry is absent from the view.
pub proof fn lemma_digest_view_absent<T>(s: Seq<(BlockDigest, T)>, k: Seq<u8>)
    requires
        forall|i: int| 0 <= i < s.len() ==> (#[trigger] s[i]).0@ != k,
    ensures
        !digest_map_view(s).contains_key(k),
    decreases s.len(),
{
    if s.len() > 0 {
        assert(forall|i: int|
            0 <= i < s.drop_last().len() ==> (#[trigger] s.drop_last()[i]).0@ != k);
        lemma_digest_view_absent(s.drop_last(), k);
    }
}

/// Replacing the value at index `i` updates the view at that entry's key.
pub proof fn lemma_digest_view_update<T>(s: Seq<(BlockDigest, T)>, i: int, kv: (BlockDigest, T))
    requires
        digest_keys_unique(s),
        0 <= i < s.len(),
        kv.0@ == s[i].0@,
    ensures
        digest_map_view(s.update(i, kv)) == digest_map_view(s).insert(kv.0@, kv.1),
    decreases s.len(),
{
    let t = s.update(i, kv);
    if i == s.len() - 1 {
        assert(t.drop_last() =~= s.drop_last());
        assert(digest_map_view(t) == digest_map_view(s.drop_last()).insert(kv.0@, kv.1));
        assert(digest_map_view(s).insert(kv.0@, kv.1) =~= digest_map_view(s.drop_last()).insert(
            kv.0@,
            kv.1,
        ));
    } else {
        assert(t.drop_last() =~= s.drop_last().update(i, kv));
        assert(digest_keys_unique(s.drop_last()));
        assert(s.drop_last()[i] == s[i]);
        lemma_digest_view_update(s.drop_last(), i, kv);
        assert(t.last() == s.last());
        assert(digest_map_view(t) == digest_map_view(s.drop_last()).insert(kv.0@, kv.1).insert(
            s.last().0@,
            s.last().1,
        ));
        assert(s[i].0@ != s.last().0@);
        assert(digest_map_view(s.drop_last()).insert(kv.0@, kv.1).insert(s.last().0@, s.last().1)
            =~= digest_map_view(s.drop_last()).insert(s.last().0@, s.last().1).insert(
            kv.0@,
            kv.1,
        ));
    }
}

/// Removing the entry at index `i` removes that entry's key from the view.
pub proof fn lemma_digest_view_remove<T>(s: Seq<(BlockDigest, T)>, i: int)
    requires
        digest_keys_unique(s),
        0 <= i < s.len(),
    ensures
        digest_map_view(s.remove(i)) == digest_map_view(s).remove(s[i].0@),
    decreases s.len(),
{
    let t = s.remove(i);
    if i == s.len() - 1 {
        assert(t =~= s.drop_last());
        assert(forall|j: int|
            0 <= j < s.drop_last().len() ==> (#[trigger] s.drop_last()[j]).0@ != s[i].0@);
        lemma_digest_view_absent(s.drop_last(), s[i].0@);
        assert(digest_map_view(s).remove(s[i].0@) =~= digest_map_view(s.drop_last()));
    } else {
        assert(t.drop_last() =~= s.drop_last().remove(i));
        assert(t.last() == s.last());
        assert(digest_keys_unique(s.drop_last()));
        assert(s.drop_last()[i] == s[i]);
        lemma_digest_view_remove(s.drop_last(), i);
        assert(digest_map_view(t) == digest_map_view(s.drop_last()).remove(s[i].0@).insert(
            s.last().0@,
            s.last().1,
        ));
        assert(s[i].0@ != s.last().0@);
        assert(digest_map_view(s.drop_last()).remove(s[i].0@).insert(s.last().0@, s.last().1)
            =~= digest_map_view(s.drop_last()).insert(s.last().0@, s.last().1).remove(s[i].0@));
    }
}

/// A map keyed by block digest.
pub struct DigestMap<T> {
    pub entries: Vec<(BlockDigest, T)>,
}

impl<T> DigestMap<T> {
    pub open spec fn wf(&self) -> bool {
        digest_keys_unique(self.entries@)
    }

    pub open spec fn view_map(&self) -> Map<Seq<u8>, T> {
        digest_map_view(self.entries@)
    }

    pub fn new() -> (r: DigestMap<T>)
        ensures
            r.wf(),
            r.view_map() == Map::<Seq<u8>, T>::empty(),
            r.entries@.len() == 0,
    {
        DigestMap { entries: Vec::new() }
    }

    /// The index holding `k`, if any.
    fn find(&self, k: &BlockDigest) -> (r: Option<usize>)
        ensures
            r matches Some(i) ==> i < self.entries@.len() && self.entries@[i as int].0@ == k@,
            r is None ==> forall|i: int|
                0 <= i < self.entries@.len() ==> (#[trigger] self.entries@[i]).0@ != k@,
    {
        let n = self.entries.len();
        let mut i: usize = 0;
        while i < n
            invariant
                i <= n,
                n == self.entries@.len(),
                forall|j: int| 0 <= j < i ==> (#[trigger] self.entries@[j]).0@ != k@,
            decreases n - i,
        {
            if digest_eq(&self.entries[i].0, k) {
                return Some(i);
            }
            i = i + 1;
        }
        None
    }

    pub fn contains(&self, k: &BlockDigest) -> (r: bool)
        requires
            self.wf(),
        ensures
            r == self.view_map().contains_key(k@),
    {
        match self.find(k) {
            Some(i) => {
                proof {
                    lemma_digest_view_index(self.entries@, i as int);
                }
                true
            },
            None => {
                proof {
                    lemma_digest_view_absent(self.entries@, k@);
                }
                false
            },
        }
    }

    pub fn get(&self, k: &BlockDigest) -> (r: Option<&T>)
        requires
            self.wf(),
        ensures
            r matches Some(t) ==> self.view_map().contains_key(k@) && *t == self.view_map()[k@],
            r is None ==> !self.view_map().contains_key(k@),
    {
        match self.find(k) {
            Some(i) => {
                proof {
                    lemma_digest_view_index(self.entries@, i as int);
                }
                Some(&self.entries[i].1)
            },
            None => {
                proof {
                    lemma_digest_view_absent(self.entries@, k@);
                }
                None
            },
        }
    }

    /// Insert or overwrite.
    pub fn insert(&mut self, k: BlockDigest, v: T)
        requires
            old(self).wf(),
        ensures
            final(self).wf(),
            final(self).view_map() == old(self).view_map().insert(k@, v),
            (exists|i: int|
                0 <= i < old(self).entries@.len() && (#[trigger] old(self).entries@[i]).0@ == k@
                    && final(self).entries@ == old(self).entries@.update(i, (k, v))) || (
            final(self).entries@ == old(self).entries@.push((k, v)) && forall|i: int|
                0 <= i < old(self).entries@.len() ==> (#[trigger] old(self).entries@[i]).0@ != k@),
    {
        match self.find(&k) {
            Some(i) => {
                proof {
                    lemma_digest_view_update(self.entries@, i as int, (k, v));
                }
                let ghost s0 = self.entries@;
                self.entries.set(i, (k, v));
                assert(self.entries@ =~= s0.update(i as int, (k, v)));
                assert forall|a: int, b: int|
                    0 <= a < b < self.entries@.len() implies (#[trigger] self.entries@[a]).0@ != (
                #[trigger] self.entries@[b]).0@ by {
                    assert(s0[a].0@ != s0[b].0@);
                }
            },
            None => {
                let ghost s0 = self.entries@;
                self.entries.push((k, v));
                assert(self.entries@.drop_last() =~= s0);
                assert forall|a: int, b: int|
                    0 <= a < b < self.entries@.len() implies (#[trigger] self.entries@[a]).0@ != (
                #[trigger] self.entries@[b]).0@ by {
                    if b < s0.len() {
                        assert(s0[a].0@ != s0[b].0@);
                    } else {
                        assert(s0[a].0@ != k@);
                    }
                }
            },
        }
    }

    /// Remove a key, handing back its value.
    pub fn remove(&mut self, k: &BlockDigest) -> (r: Option<T>)
        requires
            old(self).wf(),
        ensures
            final(self).wf(),
            final(self).view_map() == old(self).view_map().remove(k@),
            r matches Some(t) ==> old(self).view_map().contains_key(k@) && t == old(
                self,
            ).view_map()[k@],
            r is None ==> !old(self).view_map().contains_key(k@) && final(self).entries@ == old(
                self,
            ).entries@,
            r matches Some(t) ==> exists|i: int|
                0 <= i < old(self).entries@.len() && (#[trigger] old(self).entries@[i]).0@ == k@
                    && old(self).entries@[i].1 == t && final(self).entries@ == old(
                self,
            ).entries@.remove(i),
    {
        match self.find(k) {
            Some(i) => {
                proof {
                    lemma_digest_view_index(self.entries@, i as int);
                    lemma_digest_view_remove(self.entries@, i as int);
                }
                let ghost s0 = self.entries@;
                let (_, v) = self.entries.remove(i);
                assert(self.entries@ =~= s0.remove(i as int));
                assert forall|a: int, b: int|
                    0 <= a < b < self.entries@.len() implies (#[trigger] self.entries@[a]).0@ != (
                #[trigger] self.entries@[b]).0@ by {
                    let a0 = if a < i { a } else { a + 1 };
                    let b0 = if b < i { b } else { b + 1 };
                    assert(s0[a0].0@ != s0[b0].0@);
                }
                Some(v)
            },
            None => {
                proof {
                    lemma_digest_view_absent(self.entries@, k@);
                    assert(self.view_map().remove(k@) =~= self.view_map());
                }
                None
            },
        }
    }
}

/// Prefix facts compose: if `a` prefixes `b` and `b` prefixes `c`, then `a`
/// prefixes `c`.
pub proof fn lemma_prefix_chain<T>(a: Seq<T>, b: Seq<T>, c: Seq<T>)
    requires
        a.len() <= b.len() <= c.len(),
        b.subrange(0, a.len() as int) == a,
        c.subrange(0, b.len() as int) == b,
    ensures
        c.subrange(0, a.len() as int) == a,
{
    assert forall|j: int| 0 <= j < a.len() implies #[trigger] c.subrange(0, a.len() as int)[j]
        == a[j] by {
        assert(c.subrange(0, b.len() as int)[j] == c[j]);
        assert(b.subrange(0, a.len() as int)[j] == b[j]);
        assert(c.subrange(0, a.len() as int)[j] == c[j]);
    }
    assert(c.subrange(0, a.len() as int) =~= a);
}

/// Total number of values stashed across a map of vectors.
pub open spec fn stash_total<T>(s: Seq<(BlockDigest, Vec<T>)>) -> nat
    decreases s.len(),
{
    if s.len() == 0 {
        0
    } else {
        stash_total(s.drop_last()) + s.last().1@.len()
    }
}

pub proof fn lemma_stash_total_push<T>(s: Seq<(BlockDigest, Vec<T>)>, kv: (BlockDigest, Vec<T>))
    ensures
        stash_total(s.push(kv)) == stash_total(s) + kv.1@.len(),
{
    assert(s.push(kv).drop_last() =~= s);
    assert(s.push(kv).last() == kv);
}

pub proof fn lemma_stash_total_update<T>(
    s: Seq<(BlockDigest, Vec<T>)>,
    i: int,
    kv: (BlockDigest, Vec<T>),
)
    requires
        0 <= i < s.len(),
    ensures
        stash_total(s.update(i, kv)) + s[i].1@.len() == stash_total(s) + kv.1@.len(),
    decreases s.len(),
{
    let t = s.update(i, kv);
    if i == s.len() - 1 {
        assert(t.drop_last() =~= s.drop_last());
        assert(t.last() == kv);
    } else {
        assert(t.drop_last() =~= s.drop_last().update(i, kv));
        assert(s.drop_last()[i] == s[i]);
        lemma_stash_total_update(s.drop_last(), i, kv);
        assert(t.last() == s.last());
    }
}

pub proof fn lemma_stash_total_remove<T>(s: Seq<(BlockDigest, Vec<T>)>, i: int)
    requires
        0 <= i < s.len(),
    ensures
        stash_total(s.remove(i)) + s[i].1@.len() == stash_total(s),
    decreases s.len(),
{
    let t = s.remove(i);
    if i == s.len() - 1 {
        assert(t =~= s.drop_last());
    } else {
        assert(t.drop_last() =~= s.drop_last().remove(i));
        assert(s.drop_last()[i] == s[i]);
        lemma_stash_total_remove(s.drop_last(), i);
        assert(t.last() == s.last());
    }
}

/// Unique integer keys.
pub open spec fn index_keys_unique<T>(s: Seq<(u64, T)>) -> bool {
    forall|i: int, j: int|
        0 <= i < j < s.len() ==> (#[trigger] s[i]).0 != (#[trigger] s[j]).0
}

/// The abstract map a pair sequence stands for; later entries win, though
/// with unique keys the order never matters.
pub open spec fn index_map_view<T>(s: Seq<(u64, T)>) -> Map<u64, T>
    decreases s.len(),
{
    if s.len() == 0 {
        Map::empty()
    } else {
        index_map_view(s.drop_last()).insert(s.last().0, s.last().1)
    }
}

/// Every stored entry is present in the view.
pub proof fn lemma_index_view_index<T>(s: Seq<(u64, T)>, i: int)
    requires
        index_keys_unique(s),
        0 <= i < s.len(),
    ensures
        index_map_view(s).contains_key(s[i].0),
        index_map_view(s)[s[i].0] == s[i].1,
    decreases s.len(),
{
    if i == s.len() - 1 {
    } else {
        assert(index_keys_unique(s.drop_last()));
        lemma_index_view_index(s.drop_last(), i);
        assert(s.drop_last()[i] == s[i]);
    }
}

/// A key held by no entry is absent from the view.
pub proof fn lemma_index_view_absent<T>(s: Seq<(u64, T)>, k: u64)
    requires
        forall|i: int| 0 <= i < s.len() ==> (#[trigger] s[i]).0 != k,
    ensures
        !index_map_view(s).contains_key(k),
    decreases s.len(),
{
    if s.len() > 0 {
        assert(forall|i: int|
            0 <= i < s.drop_last().len() ==> (#[trigger] s.drop_last()[i]).0 != k);
        lemma_index_view_absent(s.drop_last(), k);
    }
}

/// Replacing the value at index `i` updates the view at that entry's key.
pub proof fn lemma_index_view_update<T>(s: Seq<(u64, T)>, i: int, kv: (u64, T))
    requires
        index_keys_unique(s),
        0 <= i < s.len(),
        kv.0 == s[i].0,
    ensures
        index_map_view(s.update(i, kv)) == index_map_view(s).insert(kv.0, kv.1),
    decreases s.len(),
{
    let t = s.update(i, kv);
    if i == s.len() - 1 {
        assert(t.drop_last() =~= s.drop_last());
        assert(index_map_view(t) == index_map_view(s.drop_last()).insert(kv.0, kv.1));
        assert(index_map_view(s).insert(kv.0, kv.1) =~= index_map_view(s.drop_last()).insert(
            kv.0,
            kv.1,
        ));
    } else {
        assert(t.drop_last() =~= s.drop_last().update(i, kv));
        assert(index_keys_unique(s.drop_last()));
        assert(s.drop_last()[i] == s[i]);
        lemma_index_view_update(s.drop_last(), i, kv);
        assert(t.last() == s.last());
        assert(index_map_view(t) == index_map_view(s.drop_last()).insert(kv.0, kv.1).insert(
            s.last().0,
            s.last().1,
        ));
        assert(s[i].0 != s.last().0);
        assert(index_map_view(s.drop_last()).insert(kv.0, kv.1).insert(s.last().0, s.last().1)
            =~= index_map_view(s.drop_last()).insert(s.last().0, s.last().1).insert(
            kv.0,
            kv.1,
        ));
    }
}

/// Removing the entry at index `i` removes that entry's key from the view.
pub proof fn lemma_index_view_remove<T>(s: Seq<(u64, T)>, i: int)
    requires
        index_keys_unique(s),
        0 <= i < s.len(),
    ensures
        index_map_view(s.remove(i)) == index_map_view(s).remove(s[i].0),
    decreases s.len(),
{
    let t = s.remove(i);
    if i == s.len() - 1 {
        assert(t =~= s.drop_last());
        assert(forall|j: int|
            0 <= j < s.drop_last().len() ==> (#[trigger] s.drop_last()[j]).0 != s[i].0);
        lemma_index_view_absent(s.drop_last(), s[i].0);
        assert(index_map_view(s).remove(s[i].0) =~= index_map_view(s.drop_last()));
    } else {
        assert(t.drop_last() =~= s.drop_last().remove(i));
        assert(t.last() == s.last());
        assert(index_keys_unique(s.drop_last()));
        assert(s.drop_last()[i] == s[i]);
        lemma_index_view_remove(s.drop_last(), i);
        assert(index_map_view(t) == index_map_view(s.drop_last()).remove(s[i].0).insert(
            s.last().0,
            s.last().1,
        ));
        assert(s[i].0 != s.last().0);
        assert(index_map_view(s.drop_last()).remove(s[i].0).insert(s.last().0, s.last().1)
            =~= index_map_view(s.drop_last()).insert(s.last().0, s.last().1).remove(s[i].0));
    }
}

/// A map keyed by a small integer index (client or replica number).
pub struct IndexMap<T> {
    pub entries: Vec<(u64, T)>,
}

impl<T> IndexMap<T> {
    pub open spec fn wf(&self) -> bool {
        index_keys_unique(self.entries@)
    }

    pub open spec fn view_map(&self) -> Map<u64, T> {
        index_map_view(self.entries@)
    }

    pub fn new() -> (r: IndexMap<T>)
        ensures
            r.wf(),
            r.view_map() == Map::<u64, T>::empty(),
            r.entries@.len() == 0,
    {
        IndexMap { entries: Vec::new() }
    }

    /// The index holding `k`, if any.
    fn find(&self, k: u64) -> (r: Option<usize>)
        ensures
            r matches Some(i) ==> i < self.entries@.len() && self.entries@[i as int].0 == k,
            r is None ==> forall|i: int|
                0 <= i < self.entries@.len() ==> (#[trigger] self.entries@[i]).0 != k,
    {
        let n = self.entries.len();
        let mut i: usize = 0;
        while i < n
            invariant
                i <= n,
                n == self.entries@.len(),
                forall|j: int| 0 <= j < i ==> (#[trigger] self.entries@[j]).0 != k,
            decreases n - i,
        {
            if self.entries[i].0 == k {
                return Some(i);
            }
            i = i + 1;
        }
        None
    }

    pub fn contains(&self, k: u64) -> (r: bool)
        requires
            self.wf(),
        ensures
            r == self.view_map().contains_key(k),
    {
        match self.find(k) {
            Some(i) => {
                proof {
                    lemma_index_view_index(self.entries@, i as int);
                }
                true
            },
            None => {
                proof {
                    lemma_index_view_absent(self.entries@, k);
                }
                false
            },
        }
    }

    pub fn get(&self, k: u64) -> (r: Option<&T>)
        requires
            self.wf(),
        ensures
            r matches Some(t) ==> self.view_map().contains_key(k) && *t == self.view_map()[k],
            r is None ==> !self.view_map().contains_key(k),
    {
        match self.find(k) {
            Some(i) => {
                proof {
                    lemma_index_view_index(self.entries@, i as int);
                }
                Some(&self.entries[i].1)
            },
            None => {
                proof {
                    lemma_index_view_absent(self.entries@, k);
                }
                None
            },
        }
    }

    /// Insert or overwrite.
    pub fn insert(&mut self, k: u64, v: T)
        requires
            old(self).wf(),
        ensures
            final(self).wf(),
            final(self).view_map() == old(self).view_map().insert(k, v),
            (exists|i: int|
                0 <= i < old(self).entries@.len() && (#[trigger] old(self).entries@[i]).0 == k
                    && final(self).entries@ == old(self).entries@.update(i, (k, v))) || (
            final(self).entries@ == old(self).entries@.push((k, v)) && forall|i: int|
                0 <= i < old(self).entries@.len() ==> (#[trigger] old(self).entries@[i]).0 != k),
    {
        match self.find(k) {
            Some(i) => {
                proof {
                    lemma_index_view_update(self.entries@, i as int, (k, v));
                }
                let ghost s0 = self.entries@;
                self.entries.set(i, (k, v));
                assert(self.entries@ =~= s0.update(i as int, (k, v)));
                assert forall|a: int, b: int|
                    0 <= a < b < self.entries@.len() implies (#[trigger] self.entries@[a]).0 != (
                #[trigger] self.entries@[b]).0 by {
                    assert(s0[a].0 != s0[b].0);
                }
            },
            None => {
                let ghost s0 = self.entries@;
                self.entries.push((k, v));
                assert(self.entries@.drop_last() =~= s0);
                assert forall|a: int, b: int|
                    0 <= a < b < self.entries@.len() implies (#[trigger] self.entries@[a]).0 != (
                #[trigger] self.entries@[b]).0 by {
                    if b < s0.len() {
                        assert(s0[a].0 != s0[b].0);
                    } else {
                        assert(s0[a].0 != k);
                    }
                }
            },
        }
    }

    /// Remove a key, handing back its value.
    pub fn remove(&mut self, k: u64) -> (r: Option<T>)
        requires
            old(self).wf(),
        ensures
            final(self).wf(),
            final(self).view_map() == old(self).view_map().remove(k),
            r matches Some(t) ==> old(self).view_map().contains_key(k) && t == old(
                self,
            ).view_map()[k],
            r is None ==> !old(self).view_map().contains_key(k),
    {
        match self.find(k) {
            Some(i) => {
                proof {
                    lemma_index_view_index(self.entries@, i as int);
                    lemma_index_view_remove(self.entries@, i as int);
                }
                let ghost s0 = self.entries@;
                let (_, v) = self.entries.remove(i);
                assert(self.entries@ =~= s0.remove(i as int));
                assert forall|a: int, b: int|
                    0 <= a < b < self.entries@.len() implies (#[trigger] self.entries@[a]).0 != (
                #[trigger] self.entries@[b]).0 by {
                    let a0 = if a < i { a } else { a + 1 };
                    let b0 = if b < i { b } else { b + 1 };
                    assert(s0[a0].0 != s0[b0].0);
                }
                Some(v)
            },
            None => {
                proof {
                    lemma_index_view_absent(self.entries@, k);
                    assert(self.view_map().remove(k) =~= self.view_map());
                }
                None
            },
        }
    }
}

} // verus!
