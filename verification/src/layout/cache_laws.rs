//! What the layout cache holds, over everything that was done with it.
use vstd::prelude::*;

use crate::layout::cache::after_get;
use crate::layout::cache::after_put;
use crate::layout::cache::found;
use crate::layout::cache::keys_of;
use crate::layout::cache::place_of;
use crate::layout::cache::KeyModel;
use crate::layout::cache::LayoutCacheKey;
use crate::layout::types::Layout;

verus! {

/// Something that is done with a cache.
pub enum CacheUse {
    Put { key: LayoutCacheKey, layout: Layout },
    Get { key: KeyModel },
}

/// The key it is done with.
pub open spec fn key_used(u: CacheUse) -> KeyModel {
    match u {
        CacheUse::Put { key, layout } => key@,
        CacheUse::Get { key } => key,
    }
}

/// The entries, least recently used first, once all of `us` was done with an
/// empty cache.
pub open spec fn entries_after(us: Seq<CacheUse>, limit: nat) -> Seq<(LayoutCacheKey, Layout)>
    decreases us.len(),
{
    if us.len() == 0 {
        Seq::empty()
    } else {
        let before = entries_after(us.drop_last(), limit);
        match us.last() {
            CacheUse::Put { key, layout } => after_put(
                before,
                limit,
                (key, layout),
                place_of(before, key@),
            ),
            CacheUse::Get { key } => after_get(before, key),
        }
    }
}

/// The layout that was last put under a key.
pub open spec fn last_put(us: Seq<CacheUse>, key: KeyModel) -> Option<Layout>
    decreases us.len(),
{
    if us.len() == 0 {
        None
    } else {
        match us.last() {
            CacheUse::Put { key: k, layout } if k@ == key => Some(layout),
            _ => last_put(us.drop_last(), key),
        }
    }
}

/// When a key was last put or asked for, counted from one.
pub open spec fn last_use(us: Seq<CacheUse>, key: KeyModel) -> int
    decreases us.len(),
{
    if us.len() == 0 {
        0
    } else if key_used(us.last()) == key {
        us.len() as int
    } else {
        last_use(us.drop_last(), key)
    }
}

/// Putting `u` in drops the entry of a key: another key comes into a full
/// cache, and this one was not used for the longest time.
pub open spec fn evicts(us: Seq<CacheUse>, u: CacheUse, limit: nat, key: KeyModel) -> bool {
    let before = entries_after(us, limit);
    &&& u is Put
    &&& !keys_of(before).contains(key_used(u))
    &&& before.len() >= limit
    &&& keys_of(before).contains(key)
    &&& forall|other: KeyModel| #[trigger]
        keys_of(before).contains(other) ==> last_use(us, key) <= last_use(us, other)
}

/// A layout was put under the key, and was not dropped since.
pub open spec fn kept(us: Seq<CacheUse>, limit: nat, key: KeyModel) -> bool
    decreases us.len(),
{
    if us.len() == 0 {
        false
    } else {
        let front = us.drop_last();
        if us.last() is Put && key_used(us.last()) == key {
            true
        } else {
            kept(front, limit, key) && !evicts(front, us.last(), limit, key)
        }
    }
}

proof fn lemma_last_use(us: Seq<CacheUse>, key: KeyModel)
    ensures
        0 <= last_use(us, key) <= us.len(),
    decreases us.len(),
{
    if us.len() > 0 {
        lemma_last_use(us.drop_last(), key);
    }
}

/// Which entry of the former ones stands at `i` once the entry at `at` is gone.
spec fn from(at: int, i: int) -> int {
    if i < at {
        i
    } else {
        i + 1
    }
}

/// No key is there twice, there are no more entries than fit, and they stand in
/// the order of their last use.
pub proof fn entries_stand_by_last_use(us: Seq<CacheUse>, limit: nat)
    requires
        limit >= 1,
    ensures
        ({
            let entries = entries_after(us, limit);
            &&& entries.len() <= limit
            &&& keys_of(entries).no_duplicates()
            &&& forall|i: int, j: int|
                0 <= i < j < entries.len() ==> last_use(us, #[trigger] keys_of(entries)[i])
                    < last_use(us, #[trigger] keys_of(entries)[j])
        }),
    decreases us.len(),
{
    if us.len() > 0 {
        let front = us.drop_last();
        let u = us.last();
        entries_stand_by_last_use(front, limit);
        let before = entries_after(front, limit);
        let now = entries_after(us, limit);
        let keys = keys_of(before);
        let key = key_used(u);
        let at = place_of(before, key);
        if keys.contains(key) {
            assert(keys[at] == key);
        }
        let full = u is Put && !keys.contains(key) && before.len() >= limit;
        let gone = if full {
            0int
        } else {
            at
        };
        if u is Put || keys.contains(key) {
            let n = now.len() - 1;
            assert forall|i: int| 0 <= i < n implies 0 <= from(gone, i) < before.len()
                && #[trigger] now[i] == before[from(gone, i)] && keys_of(now)[i] == keys[from(
                gone,
                i,
            )] && keys[from(gone, i)] != key by {
                if keys[from(gone, i)] == key {
                    assert(keys.contains(key));
                    assert(from(gone, i) == at);
                }
            }
            assert(keys_of(now)[n] == key);
            assert forall|i: int, j: int| 0 <= i < j < now.len() implies last_use(
                us,
                #[trigger] keys_of(now)[i],
            ) < last_use(us, #[trigger] keys_of(now)[j]) by {
                assert(now[i] == before[from(gone, i)]);
                let a = keys[from(gone, i)];
                lemma_last_use(front, a);
                assert(last_use(us, a) == last_use(front, a));
                if j < n {
                    assert(now[j] == before[from(gone, j)]);
                    let b = keys[from(gone, j)];
                    assert(last_use(us, b) == last_use(front, b));
                    assert(from(gone, i) < from(gone, j));
                }
            }
        } else {
            assert(now == before);
            assert forall|i: int, j: int| 0 <= i < j < now.len() implies last_use(
                us,
                #[trigger] keys_of(now)[i],
            ) < last_use(us, #[trigger] keys_of(now)[j]) by {
                assert(keys.contains(keys[i]) && keys.contains(keys[j]));
                assert(last_use(us, keys[i]) == last_use(front, keys[i]));
                assert(last_use(us, keys[j]) == last_use(front, keys[j]));
            }
        }
        assert forall|i: int, j: int| 0 <= i < j < now.len() implies keys_of(now)[i] != keys_of(
            now,
        )[j] by {
            assert(last_use(us, keys_of(now)[i]) < last_use(us, keys_of(now)[j]));
        }
    }
}

proof fn lemma_evicted_is_first(us: Seq<CacheUse>, u: CacheUse, limit: nat, key: KeyModel)
    requires
        limit >= 1,
        u is Put,
        !keys_of(entries_after(us, limit)).contains(key_used(u)),
        entries_after(us, limit).len() >= limit,
    ensures
        evicts(us, u, limit, key) <==> key == keys_of(entries_after(us, limit))[0],
{
    let before = entries_after(us, limit);
    let keys = keys_of(before);
    entries_stand_by_last_use(us, limit);
    let first = keys[0];
    assert(keys.contains(first));
    if key == first {
        assert forall|other: KeyModel| #[trigger] keys.contains(other) implies last_use(us, key)
            <= last_use(us, other) by {
            let j = choose|j: int| 0 <= j < keys.len() && keys[j] == other;
            if j > 0 {
                assert(last_use(us, keys[0]) < last_use(us, keys[j]));
            }
        }
    }
    if evicts(us, u, limit, key) && key != first {
        let j = choose|j: int| 0 <= j < keys.len() && keys[j] == key;
        assert(last_use(us, keys[0]) < last_use(us, keys[j]));
    }
}

/// A read gives the layout that was last put under an equal key, where it was
/// not dropped since, and nothing otherwise.
pub proof fn a_read_gives_what_was_last_put(us: Seq<CacheUse>, limit: nat, key: KeyModel)
    requires
        limit >= 1,
    ensures
        found(entries_after(us, limit), key) == if kept(us, limit, key) {
            last_put(us, key)
        } else {
            None
        },
        kept(us, limit, key) ==> last_put(us, key) is Some,
    decreases us.len(),
{
    let now = entries_after(us, limit);
    if us.len() > 0 {
        let front = us.drop_last();
        let u = us.last();
        a_read_gives_what_was_last_put(front, limit, key);
        entries_stand_by_last_use(front, limit);
        entries_stand_by_last_use(us, limit);
        let before = entries_after(front, limit);
        let keys = keys_of(before);
        let next = keys_of(now);
        let k = key_used(u);
        let at = place_of(before, k);
        if keys.contains(k) {
            assert(keys[at] == k);
        }
        if keys.contains(key) {
            assert(keys[place_of(before, key)] == key);
        }
        if next.contains(key) {
            assert(next[place_of(now, key)] == key);
        }
        let full = u is Put && !keys.contains(k) && before.len() >= limit;
        if full {
            lemma_evicted_is_first(front, u, limit, key);
        }
        let gone = if full {
            0int
        } else {
            at
        };
        if u is Put || keys.contains(k) {
            let n = now.len() - 1;
            assert forall|i: int| 0 <= i < n implies 0 <= from(gone, i) < before.len()
                && #[trigger] now[i] == before[from(gone, i)] && next[i] == keys[from(gone, i)] by {
            }
            assert(next[n] == k);
            assert(next.contains(k));
            if key == k {
                assert(place_of(now, key) == n);
                if u is Get {
                    assert(now[n] == before[at]);
                }
            } else {
                if next.contains(key) {
                    let i = place_of(now, key);
                    assert(now[i] == before[from(gone, i)]);
                    assert(keys[from(gone, i)] == key);
                    assert(keys.contains(key));
                    assert(place_of(before, key) == from(gone, i));
                    if full {
                        assert(key != keys[0]);
                    }
                } else if keys.contains(key) {
                    let p = place_of(before, key);
                    assert(p != at || full);
                    if p != gone {
                        let i = if p < gone {
                            p
                        } else {
                            p - 1
                        };
                        assert(now[i] == before[from(gone, i)]);
                        assert(next[i] == key);
                        assert(next.contains(key));
                    }
                }
            }
        }
    }
}

/// A miss changes nothing; a hit keeps the same entries and makes its own the
/// most recently used.
pub proof fn a_read_moves_its_entry_alone(
    us: Seq<CacheUse>,
    limit: nat,
    key: KeyModel,
    other: KeyModel,
)
    requires
        limit >= 1,
    ensures
        ({
            let before = entries_after(us, limit);
            let now = after_get(before, key);
            &&& !keys_of(before).contains(key) ==> now == before
            &&& keys_of(before).contains(key) ==> now.len() == before.len() && keys_of(now).last()
                == key
            &&& found(now, other) == found(before, other)
        }),
{
    let all = us.push(CacheUse::Get { key });
    assert(all.drop_last() =~= us);
    let before = entries_after(us, limit);
    let now = after_get(before, key);
    assert(entries_after(all, limit) == now);
    if keys_of(before).contains(key) {
        assert(keys_of(before)[place_of(before, key)] == key);
    }
    a_read_gives_what_was_last_put(us, limit, other);
    a_read_gives_what_was_last_put(all, limit, other);
}

} // verus!
