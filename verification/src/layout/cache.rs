//! A small cache of layouts.
use vstd::prelude::*;

use crate::layout::types::same_layout;
use crate::layout::types::Layout;
use crate::layout::types::LayoutOptions;

verus! {

/// Bumped whenever an old layout would be wrong to keep serving.
pub const LAYOUT_SCHEMA_VERSION: u32 = 6;

/// How many layouts are kept.
pub const DEFAULT_L1_CAPACITY: usize = 8;

/// What a cached layout was made from. Any difference is a miss.
#[derive(Debug, Clone, PartialEq, Eq)]
pub struct LayoutCacheKey {
    pub lang: String,
    pub title: String,
    /// 0 where the revision is not known.
    pub revid: u64,
    pub width: u16,
    pub options: LayoutOptions,
    pub folds: Vec<usize>,
    pub schema_version: u32,
}

/// A key, with its texts as characters.
#[verifier::ext_equal]
pub struct KeyModel {
    pub lang: Seq<char>,
    pub title: Seq<char>,
    pub revid: u64,
    pub width: u16,
    pub options: LayoutOptions,
    pub folds: Seq<usize>,
    pub schema_version: u32,
}

impl View for LayoutCacheKey {
    type V = KeyModel;

    open spec fn view(&self) -> KeyModel {
        KeyModel {
            lang: self.lang@,
            title: self.title@,
            revid: self.revid,
            width: self.width,
            options: self.options,
            folds: self.folds@,
            schema_version: self.schema_version,
        }
    }
}

fn same_numbers(a: &Vec<usize>, b: &Vec<usize>) -> (r: bool)
    ensures
        r == (a@ == b@),
{
    if a.len() != b.len() {
        return false;
    }
    let n: usize = a.len();
    for i in 0..n
        invariant
            n == a.len() == b.len(),
            forall|j: int| 0 <= j < i ==> a@[j] == b@[j],
    {
        if a[i] != b[i] {
            return false;
        }
    }
    assert(a@ =~= b@);
    true
}

impl LayoutCacheKey {
    /// Whether two keys agree in every field.
    pub fn same(&self, other: &LayoutCacheKey) -> (r: bool)
        ensures
            r == (self@ == other@),
    {
        self.lang == other.lang && self.title == other.title && self.revid == other.revid
            && self.width == other.width && self.options == other.options && same_numbers(
            &self.folds,
            &other.folds,
        ) && self.schema_version == other.schema_version
    }
}

/// The keys of entries, least recently used first.
pub open spec fn keys_of(entries: Seq<(LayoutCacheKey, Layout)>) -> Seq<KeyModel> {
    entries.map_values(|e: (LayoutCacheKey, Layout)| e.0@)
}

/// The place of a key, or the number of entries.
pub open spec fn place_of(entries: Seq<(LayoutCacheKey, Layout)>, key: KeyModel) -> int {
    if keys_of(entries).contains(key) {
        keys_of(entries).index_of(key)
    } else {
        entries.len() as int
    }
}

/// The layout under a key.
pub open spec fn found(entries: Seq<(LayoutCacheKey, Layout)>, key: KeyModel) -> Option<Layout> {
    if keys_of(entries).contains(key) {
        Some(entries[place_of(entries, key)].1)
    } else {
        None
    }
}

/// The entries once a key was asked for: where it is there, it is the most
/// recently used.
pub open spec fn after_get(entries: Seq<(LayoutCacheKey, Layout)>, key: KeyModel) -> Seq<
    (LayoutCacheKey, Layout),
> {
    let at = place_of(entries, key);
    if at < entries.len() {
        entries.remove(at).push(entries[at])
    } else {
        entries
    }
}

/// A small cache of layouts that forgets the least recently used.
pub struct LayoutCache {
    capacity: usize,
    entries: Vec<(LayoutCacheKey, Layout)>,
}

impl LayoutCache {
    /// How many layouts it holds at most.
    pub closed spec fn limit(self) -> nat {
        self.capacity as nat
    }

    /// The entries, least recently used first.
    pub closed spec fn held(self) -> Seq<(LayoutCacheKey, Layout)> {
        self.entries@
    }

    /// The keys, least recently used first.
    pub open spec fn keys(self) -> Seq<KeyModel> {
        keys_of(self.held())
    }

    /// No more entries than the limit, and no key twice.
    pub open spec fn wf(self) -> bool {
        &&& self.limit() >= 1
        &&& self.held().len() <= self.limit()
        &&& self.keys().no_duplicates()
    }

    /// The position of a key, or the number of entries.
    pub open spec fn position(self, key: KeyModel) -> int {
        place_of(self.held(), key)
    }

    /// An empty cache for `capacity` layouts, one at least.
    pub fn new(capacity: usize) -> (r: Self)
        ensures
            r.wf(),
            r.held().len() == 0,
            r.limit() == if capacity < 1 {
                1
            } else {
                capacity as nat
            },
    {
        let capacity: usize = if capacity < 1 {
            1
        } else {
            capacity
        };
        LayoutCache { capacity, entries: Vec::new() }
    }

    fn find(&self, key: &LayoutCacheKey) -> (r: Option<usize>)
        requires
            self.wf(),
        ensures
            match r {
                Some(i) => i < self.held().len() && self.keys()[i as int] == key@,
                None => !self.keys().contains(key@),
            },
    {
        let n: usize = self.entries.len();
        for i in 0..n
            invariant
                n == self.entries.len(),
                forall|j: int| 0 <= j < i ==> (#[trigger] self.keys()[j]) != key@,
        {
            assert(self.keys()[i as int] == self.entries@[i as int].0@);
            if self.entries[i].0.same(key) {
                return Some(i);
            }
        }
        None
    }

    /// A hit hands out a copy of the layout and makes it the most recently used; a miss
    /// changes nothing.
    pub fn get(&mut self, key: &LayoutCacheKey) -> (r: Option<Layout>)
        requires
            old(self).wf(),
        ensures
            final(self).wf(),
            final(self).limit() == old(self).limit(),
            final(self).held() == after_get(old(self).held(), key@),
            match (r, found(old(self).held(), key@)) {
                (Some(layout), Some(stored)) => same_layout(layout, stored),
                (None, None) => true,
                _ => false,
            },
    {
        match self.find(key) {
            None => None,
            Some(i) => {
                let ghost before = self.entries@;
                let entry = self.entries.remove(i);
                self.entries.push(entry);
                let n: usize = self.entries.len();
                proof {
                    let after = self.entries@;
                    assert(old(self).keys()[i as int] == key@);
                    assert(after =~= before.remove(i as int).push(before[i as int]));
                    assert(old(self).keys().contains(key@));
                    assert(old(self).keys()[place_of(before, key@)] == key@);
                    lemma_moved_keys(before, i as int);
                }
                Some(self.entries[n - 1].1.copy())
            },
        }
    }

    /// Puts a layout in as the most recently used, in place of one with the
    /// same key; past the limit the least recently used goes.
    pub fn put(&mut self, key: LayoutCacheKey, layout: Layout)
        requires
            old(self).wf(),
        ensures
            final(self).wf(),
            final(self).limit() == old(self).limit(),
            final(self).held() == after_put(
                old(self).held(),
                old(self).limit(),
                (key, layout),
                old(self).position(key@),
            ),
    {
        let ghost before = self.entries@;
        let ghost keys = self.keys();
        let found = self.find(&key);
        let ghost at = self.position(key@);
        if let Some(i) = found {
            proof {
                assert(keys.contains(key@));
                assert(keys[at] == key@);
                assert(i as int == at);
            }
            self.entries.remove(i);
        }
        let ghost trimmed = self.entries@;
        proof { lemma_trimmed_keys(before, key@, at); }
        self.entries.push((key, layout));
        if self.entries.len() > self.capacity {
            self.entries.remove(0);
        }
        proof {
            let all = trimmed.push((key, layout));
            assert(keys_of(all) =~= keys_of(trimmed).push(key@));
            assert(keys_of(all.remove(0)) =~= keys_of(all).remove(0));
            if all.len() > self.limit() {
                assert(self.entries@ =~= all.remove(0));
                assert(self.keys() =~= keys_of(all).remove(0));
            } else {
                assert(self.entries@ =~= all);
            }
            assert(self.keys().no_duplicates());
        }
    }

    /// How many layouts it holds.
    pub fn len(&self) -> (r: usize)
        ensures
            r as nat == self.held().len(),
    {
        self.entries.len()
    }
}

/// The entries once `entry` is put in, where `at` is the place of its key or
/// the number of entries.
pub open spec fn after_put(
    entries: Seq<(LayoutCacheKey, Layout)>,
    limit: nat,
    entry: (LayoutCacheKey, Layout),
    at: int,
) -> Seq<(LayoutCacheKey, Layout)> {
    let kept = if at < entries.len() {
        entries.remove(at)
    } else {
        entries
    };
    let all = kept.push(entry);
    if all.len() > limit {
        all.remove(0)
    } else {
        all
    }
}

proof fn lemma_moved_keys(entries: Seq<(LayoutCacheKey, Layout)>, i: int)
    requires
        0 <= i < entries.len(),
        keys_of(entries).no_duplicates(),
    ensures
        keys_of(entries.remove(i).push(entries[i])).no_duplicates(),
{
    let keys = keys_of(entries);
    let moved = keys_of(entries.remove(i).push(entries[i]));
    assert(moved =~= keys.remove(i).push(keys[i]));
    assert forall|a: int, b: int| 0 <= a < b < moved.len() implies moved[a] != moved[b] by {
        let p = if a < i {
            a
        } else {
            a + 1
        };
        let q = if b == moved.len() - 1 {
            i
        } else if b < i {
            b
        } else {
            b + 1
        };
        assert(moved[a] == keys[p]);
        assert(moved[b] == keys[q]);
        assert(p != q);
    }
}

proof fn lemma_trimmed_keys(entries: Seq<(LayoutCacheKey, Layout)>, key: KeyModel, at: int)
    requires
        keys_of(entries).no_duplicates(),
        0 <= at <= entries.len(),
        at < entries.len() ==> keys_of(entries)[at] == key,
        at == entries.len() ==> !keys_of(entries).contains(key),
    ensures
        ({
            let kept = if at < entries.len() {
                entries.remove(at)
            } else {
                entries
            };
            keys_of(kept).push(key).no_duplicates()
        }),
{
    let keys = keys_of(entries);
    let kept = if at < entries.len() {
        entries.remove(at)
    } else {
        entries
    };
    let next = keys_of(kept).push(key);
    assert forall|a: int, b: int| 0 <= a < b < next.len() implies next[a] != next[b] by {
        let p = if a < at {
            a
        } else {
            a + 1
        };
        assert(next[a] == keys[p]);
        if b < next.len() - 1 {
            let q = if b < at {
                b
            } else {
                b + 1
            };
            assert(next[b] == keys[q]);
        } else {
            assert(keys.contains(keys[p]));
        }
    }
}

/// What was put under a key is what the next read of that key gives.
pub proof fn get_after_put(before: LayoutCache, key: LayoutCacheKey, layout: Layout, i: int)
    requires
        before.wf(),
        ({
            let after = after_put(
                before.held(),
                before.limit(),
                (key, layout),
                before.position(key@),
            );
            0 <= i < after.len() && keys_of(after)[i] == key@
        }),
    ensures
        after_put(before.held(), before.limit(), (key, layout), before.position(key@))[i] == (
            key,
            layout,
        ),
{
    let at = before.position(key@);
    let kept = if at < before.held().len() {
        before.held().remove(at)
    } else {
        before.held()
    };
    if before.keys().contains(key@) {
        assert(before.keys()[at] == key@);
    }
    lemma_trimmed_keys(before.held(), key@, at);
    let all = kept.push((key, layout));
    let next = keys_of(kept).push(key@);
    assert(keys_of(all) =~= next);
    let shift: int = if all.len() > before.limit() {
        1
    } else {
        0
    };
    let after = after_put(before.held(), before.limit(), (key, layout), at);
    assert(after[i] == all[i + shift]);
    if i + shift < all.len() - 1 {
        assert(next[i + shift] == key@);
        assert(next[all.len() - 1] == key@);
    }
}

/// A layout that was just put in is there.
pub proof fn put_keeps_the_new(before: LayoutCache, key: LayoutCacheKey, layout: Layout)
    requires
        before.wf(),
    ensures
        after_put(before.held(), before.limit(), (key, layout), before.position(key@)).last() == (
            key,
            layout,
        ),
        after_put(before.held(), before.limit(), (key, layout), before.position(key@)).len()
            <= before.limit(),
{
}

} // verus!
