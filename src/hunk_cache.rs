//! The cache of decompressed hunks that a CHD reader fills ahead of use, and
//! the decisions of the reader that fills it.
use vstd::prelude::*;
use lru::LruCache;
use std::collections::hash_map::RandomState;

verus! {

#[verifier::external_type_specification]
#[verifier::external_body]
#[verifier::reject_recursive_types(K)]
#[verifier::reject_recursive_types(V)]
#[verifier::reject_recursive_types(S)]
pub struct ExLruCache<K, V, S>(LruCache<K, V, S>);

/// Hunks read ahead after a hunk is requested, the requested one included.
pub const NUM_HUNKS_READAHEAD: u32 = 8;

/// Read ahead only when one of this many hunks after a requested one is missing.
pub const NUM_READAHEAD_HUNKS_LOW_WATER: u32 = 2;

/// Hunks the cache holds: at least twice the read-ahead window.
pub const CACHE_CAPACITY: usize = 100;

/// The entries of a hunk cache, least recently used first.
pub uninterp spec fn cache_entries(c: LruCache<u32, Vec<u8>, RandomState>) -> Seq<(u32, Seq<u8>)>;

/// The number of entries a hunk cache holds at most.
pub uninterp spec fn cache_capacity(c: LruCache<u32, Vec<u8>, RandomState>) -> nat;

pub open spec fn holds_key(s: Seq<(u32, Seq<u8>)>, k: u32) -> bool {
    exists|i: int| 0 <= i < s.len() && (#[trigger] s[i]).0 == k
}

/// The entries without those under key `k`.
pub open spec fn without_key(s: Seq<(u32, Seq<u8>)>, k: u32) -> Seq<(u32, Seq<u8>)>
    decreases s.len(),
{
    if s.len() == 0 {
        s
    } else if s.last().0 == k {
        without_key(s.drop_last(), k)
    } else {
        without_key(s.drop_last(), k).push(s.last())
    }
}

/// The last entry under key `k`.
pub open spec fn entry_of(s: Seq<(u32, Seq<u8>)>, k: u32) -> (u32, Seq<u8>)
    decreases s.len(),
{
    if s.len() == 0 {
        (k, Seq::empty())
    } else if s.last().0 == k {
        s.last()
    } else {
        entry_of(s.drop_last(), k)
    }
}

/// The entries after key `k` is used: its entry becomes the most recent.
pub open spec fn touched(s: Seq<(u32, Seq<u8>)>, k: u32) -> Seq<(u32, Seq<u8>)> {
    if holds_key(s, k) {
        without_key(s, k).push(entry_of(s, k))
    } else {
        s
    }
}

/// The entries after `v` is put under key `k`: it replaces an entry under `k`,
/// or else, with the cache full, the least recently used entry leaves.
pub open spec fn stored(s: Seq<(u32, Seq<u8>)>, k: u32, v: Seq<u8>, cap: nat) -> Seq<(u32, Seq<u8>)> {
    if holds_key(s, k) {
        without_key(s, k).push((k, v))
    } else if s.len() >= cap {
        s.drop_first().push((k, v))
    } else {
        s.push((k, v))
    }
}

/// Relies on `LruCache::new`: an empty cache of the given capacity.
#[verifier::external_body]
pub fn new_hunk_cache(cap: usize) -> (c: LruCache<u32, Vec<u8>, RandomState>)
    requires
        cap > 0,
    ensures
        cache_entries(c) == Seq::<(u32, Seq<u8>)>::empty(),
        cache_capacity(c) == cap,
{
    LruCache::with_hasher(std::num::NonZeroUsize::new(cap).unwrap(), RandomState::new())
}

/// Relies on `LruCache::contains`: whether the key has an entry; the order of
/// use is left as it is.
#[verifier::external_body]
fn cache_contains(c: &LruCache<u32, Vec<u8>, RandomState>, k: u32) -> (r: bool)
    ensures
        r == holds_key(cache_entries(*c), k),
{
    c.contains(&k)
}

/// Relies on `LruCache::get`: the value under the key, whose entry becomes the
/// most recently used.
#[verifier::external_body]
pub fn cache_get(c: &mut LruCache<u32, Vec<u8>, RandomState>, k: u32) -> (r: Option<Vec<u8>>)
    ensures
        cache_entries(*final(c)) == touched(cache_entries(*old(c)), k),
        cache_capacity(*final(c)) == cache_capacity(*old(c)),
        holds_key(cache_entries(*old(c)), k) ==> r is Some && r->Some_0@ == entry_of(
            cache_entries(*old(c)),
            k,
        ).1,
        !holds_key(cache_entries(*old(c)), k) ==> r is None,
{
    c.get(&k).cloned()
}

/// Relies on `LruCache::put`: stores the value under the key as the most
/// recently used entry, replacing an entry under the key, or else evicting the
/// least recently used entry when the cache is full.
#[verifier::external_body]
fn cache_put(c: &mut LruCache<u32, Vec<u8>, RandomState>, k: u32, v: Vec<u8>)
    ensures
        cache_entries(*final(c)) == stored(cache_entries(*old(c)), k, v@, cache_capacity(*old(c))),
        cache_capacity(*final(c)) == cache_capacity(*old(c)),
{
    c.put(k, v);
}

/// What looking up a hunk in the cache found.
#[derive(Clone, Copy, Debug, PartialEq, Eq, Structural)]
pub enum CacheLookup {
    Cached,
    Missing,
    OutOfRange,
}

/// The reader's own state: how many hunks the file has and which hunk was
/// last asked for by a strict read.
#[derive(Clone, Copy, Debug, PartialEq, Eq, Structural)]
pub struct HunkWorker {
    pub num_hunks: u32,
    pub last_requested_hunk: u32,
}

/// Hunks `first`, `first + 1`, ... , `count` of them, as far as hunk numbers go.
pub open spec fn hunk_run(first: nat, count: nat) -> Seq<u32> {
    Seq::new(
        if first + count <= u32::MAX + 1 { count } else if first <= u32::MAX { (u32::MAX + 1 - first) as nat } else { 0 },
        |i: int| (first + i) as u32,
    )
}

fn run_of(first: u64, count: u32) -> (r: Vec<u32>)
    ensures
        r@ == hunk_run(first as nat, count as nat),
{
    let mut out: Vec<u32> = Vec::new();
    let mut i: u32 = 0;
    while i < count && first + (i as u64) <= u32::MAX as u64
        invariant
            i <= count,
            first + i <= u32::MAX + 1 || i == 0,
            out@ == Seq::new(i as nat, |j: int| (first + j) as u32),
        decreases count - i,
    {
        out.push((first + i as u64) as u32);
        assert(out@ =~= Seq::new((i + 1) as nat, |j: int| (first + j) as u32));
        i = i + 1;
    }
    assert(out@ =~= hunk_run(first as nat, count as nat));
    out
}

impl HunkWorker {
    pub fn new(num_hunks: u32) -> (r: HunkWorker)
        ensures
            r.num_hunks == num_hunks,
            r.last_requested_hunk == 0,
    {
        HunkWorker { num_hunks, last_requested_hunk: 0 }
    }

    /// A strict read of hunk `h` arrived: it is the hunk kept in the cache.
    pub fn note_request(&mut self, h: u32)
        ensures
            final(self).last_requested_hunk == h,
            final(self).num_hunks == old(self).num_hunks,
    {
        self.last_requested_hunk = h;
    }

    /// The first half of reading hunk `h` into the cache: out of range past
    /// the file's hunks; otherwise the last requested hunk is used once, so
    /// that reading ahead cannot evict it, and the cache is asked for `h`.
    pub fn lookup(&self, cache: &mut LruCache<u32, Vec<u8>, RandomState>, h: u32) -> (r: CacheLookup)
        ensures
            h >= self.num_hunks ==> r == CacheLookup::OutOfRange && cache_entries(*final(cache))
                == cache_entries(*old(cache)),
            h < self.num_hunks ==> cache_entries(*final(cache)) == touched(
                cache_entries(*old(cache)),
                self.last_requested_hunk,
            ) && r == if holds_key(cache_entries(*final(cache)), h) {
                CacheLookup::Cached
            } else {
                CacheLookup::Missing
            },
            cache_capacity(*final(cache)) == cache_capacity(*old(cache)),
    {
        if h >= self.num_hunks {
            return CacheLookup::OutOfRange;
        }
        let _ = cache_get(cache, self.last_requested_hunk);
        if cache_contains(cache, h) {
            CacheLookup::Cached
        } else {
            CacheLookup::Missing
        }
    }

    /// The second half of reading a hunk: its decompressed bytes go in the cache.
    pub fn store(cache: &mut LruCache<u32, Vec<u8>, RandomState>, h: u32, data: Vec<u8>)
        ensures
            cache_entries(*final(cache)) == stored(cache_entries(*old(cache)), h, data@, cache_capacity(*old(cache))),
            cache_capacity(*final(cache)) == cache_capacity(*old(cache)),
    {
        cache_put(cache, h, data);
    }

    /// Hunks to read ahead once a strict read of `h` is answered: none at the
    /// end of the file or when the next hunks up to the low-water mark are all
    /// cached; else the hunks after `h` in the read-ahead window.
    pub fn readahead_after(&self, cache: &LruCache<u32, Vec<u8>, RandomState>, h: u32) -> (r: Vec<u32>)
        ensures
            (self.num_hunks as nat <= h as nat + NUM_READAHEAD_HUNKS_LOW_WATER || (holds_key(
                cache_entries(*cache),
                (h + 1) as u32,
            ) && holds_key(cache_entries(*cache), (h + 2) as u32))) ==> r@ == Seq::<u32>::empty(),
            !(self.num_hunks as nat <= h as nat + NUM_READAHEAD_HUNKS_LOW_WATER || (holds_key(
                cache_entries(*cache),
                (h + 1) as u32,
            ) && holds_key(cache_entries(*cache), (h + 2) as u32))) ==> r@ == hunk_run(
                h as nat + 1,
                (NUM_HUNKS_READAHEAD - 1) as nat,
            ),
    {
        if self.num_hunks as u64 <= h as u64 + NUM_READAHEAD_HUNKS_LOW_WATER as u64 {
            return Vec::new();
        }
        if cache_contains(cache, h + 1) && cache_contains(cache, h + 2) {
            return Vec::new();
        }
        run_of(h as u64 + 1, NUM_HUNKS_READAHEAD - 1)
    }

    /// Hunks to read on an advisory prefetch at `h`: the read-ahead window from `h`.
    pub fn prefetch_from(h: u32) -> (r: Vec<u32>)
        ensures
            r@ == hunk_run(h as nat, NUM_HUNKS_READAHEAD as nat),
    {
        run_of(h as u64, NUM_HUNKS_READAHEAD)
    }
}

proof fn lemma_without_key(s: Seq<(u32, Seq<u8>)>, k: u32, j: u32)
    ensures
        holds_key(without_key(s, k), j) <==> (holds_key(s, j) && j != k),
        without_key(s, k).len() <= s.len(),
    decreases s.len(),
{
    if s.len() > 0 {
        let p = s.drop_last();
        lemma_without_key(p, k, j);
        let w = without_key(p, k);
        if holds_key(s, j) && j != k {
            let i = choose|i: int| 0 <= i < s.len() && (#[trigger] s[i]).0 == j;
            if i < s.len() - 1 {
                assert(p[i].0 == j);
            }
        }
        if holds_key(p, j) {
            let i = choose|i: int| 0 <= i < p.len() && (#[trigger] p[i]).0 == j;
            assert(s[i].0 == j);
        }
        if s.last().0 != k {
            if holds_key(w.push(s.last()), j) {
                let i = choose|i: int| 0 <= i < w.len() + 1 && (#[trigger] w.push(s.last())[i]).0 == j;
                if i < w.len() {
                    assert(w[i].0 == j);
                }
            }
            if holds_key(w, j) {
                let i = choose|i: int| 0 <= i < w.len() && (#[trigger] w[i]).0 == j;
                assert(w.push(s.last())[i].0 == j);
            }
            if j == s.last().0 {
                assert(w.push(s.last())[w.len() as int].0 == j);
            }
        }
    }
}

proof fn lemma_touched_keys(s: Seq<(u32, Seq<u8>)>, k: u32, j: u32)
    ensures
        holds_key(touched(s, k), j) <==> holds_key(s, j),
        touched(s, k).len() <= s.len() + 1,
{
    lemma_without_key(s, k, j);
    if holds_key(s, k) {
        let w = without_key(s, k);
        lemma_entry_of(s, k);
        if holds_key(w.push(entry_of(s, k)), j) {
            let i = choose|i: int| 0 <= i < w.len() + 1 && (#[trigger] w.push(entry_of(s, k))[i]).0 == j;
            if i < w.len() {
                assert(w[i].0 == j);
            }
        }
        if holds_key(w, j) {
            let i = choose|i: int| 0 <= i < w.len() && (#[trigger] w[i]).0 == j;
            assert(w.push(entry_of(s, k))[i].0 == j);
        }
        if j == k {
            assert(w.push(entry_of(s, k))[w.len() as int].0 == j);
        }
    }
}

proof fn lemma_entry_of(s: Seq<(u32, Seq<u8>)>, k: u32)
    ensures
        entry_of(s, k).0 == k,
    decreases s.len(),
{
    if s.len() > 0 && s.last().0 != k {
        lemma_entry_of(s.drop_last(), k);
    }
}

/// A hunk just put in the cache is found there by the next lookup, which uses
/// the pinned hunk first: after an advisory prefetch of `h`, a strict read of
/// `h` needs no decompression.
pub proof fn lemma_prefetched_hunk_is_cached(s: Seq<(u32, Seq<u8>)>, h: u32, v: Seq<u8>, cap: nat, pinned: u32)
    ensures
        holds_key(touched(stored(s, h, v, cap), pinned), h),
{
    let t = stored(s, h, v, cap);
    assert(t.last() == (h, v));
    assert(t[t.len() - 1].0 == h);
    lemma_touched_keys(t, pinned, h);
}

/// Reading one hunk into the cache uses the pinned hunk before it stores the
/// new one, so the pinned hunk stays cached.
pub proof fn lemma_pinned_hunk_stays(s: Seq<(u32, Seq<u8>)>, pinned: u32, h: u32, v: Seq<u8>, cap: nat)
    requires
        holds_key(s, pinned),
        cap >= 2,
    ensures
        holds_key(stored(touched(s, pinned), h, v, cap), pinned),
{
    let t = touched(s, pinned);
    let w = without_key(s, pinned);
    lemma_entry_of(s, pinned);
    assert(t.last().0 == pinned);
    lemma_without_key(t, h, pinned);
    if holds_key(t, h) {
        if h != pinned {
            assert(t[t.len() - 1].0 == pinned);
            assert(holds_key(without_key(t, h), pinned));
            let u = without_key(t, h);
            let i = choose|i: int| 0 <= i < u.len() && (#[trigger] u[i]).0 == pinned;
            assert(u.push((h, v))[i].0 == pinned);
        } else {
            let u = without_key(t, h);
            assert(u.push((h, v))[u.len() as int].0 == pinned);
        }
    } else if t.len() >= cap {
        assert(t.drop_first().push((h, v))[t.len() - 2].0 == pinned);
    } else {
        assert(t.push((h, v))[t.len() - 1].0 == pinned);
    }
}

/// The entries after a burst of reads into the cache, each using the pinned
/// hunk and then storing one hunk.
pub open spec fn burst(s: Seq<(u32, Seq<u8>)>, pinned: u32, hunks: Seq<(u32, Seq<u8>)>, cap: nat) -> Seq<(u32, Seq<u8>)>
    decreases hunks.len(),
{
    if hunks.len() == 0 {
        s
    } else {
        stored(touched(burst(s, pinned, hunks.drop_last(), cap), pinned), hunks.last().0, hunks.last().1, cap)
    }
}

/// The pinned hunk survives a read-ahead or prefetch burst of at most
/// `cap - 1` hunks.
pub proof fn lemma_pinned_hunk_survives_burst(s: Seq<(u32, Seq<u8>)>, pinned: u32, hunks: Seq<(u32, Seq<u8>)>, cap: nat)
    requires
        holds_key(s, pinned),
        cap >= 2,
        hunks.len() <= cap - 1,
    ensures
        holds_key(burst(s, pinned, hunks, cap), pinned),
    decreases hunks.len(),
{
    if hunks.len() > 0 {
        lemma_pinned_hunk_survives_burst(s, pinned, hunks.drop_last(), cap);
        lemma_pinned_hunk_stays(burst(s, pinned, hunks.drop_last(), cap), pinned, hunks.last().0, hunks.last().1, cap);
    }
}

/// Number of entries used more recently than the last entry under key `h`.
pub open spec fn rank(s: Seq<(u32, Seq<u8>)>, h: u32) -> nat
    decreases s.len(),
{
    if s.len() == 0 {
        0
    } else if s.last().0 == h {
        0
    } else {
        rank(s.drop_last(), h) + 1
    }
}

proof fn lemma_rank_without(s: Seq<(u32, Seq<u8>)>, k: u32, h: u32)
    requires
        k != h,
    ensures
        rank(without_key(s, k), h) <= rank(s, h),
    decreases s.len(),
{
    if s.len() > 0 {
        lemma_rank_without(s.drop_last(), k, h);
        if s.last().0 != k {
            let w = without_key(s.drop_last(), k);
            assert(w.push(s.last()).drop_last() =~= w);
        }
    }
}

proof fn lemma_rank_drop_first(s: Seq<(u32, Seq<u8>)>, h: u32)
    requires
        holds_key(s, h),
        rank(s, h) + 1 < s.len(),
    ensures
        holds_key(s.drop_first(), h),
        rank(s.drop_first(), h) == rank(s, h),
    decreases s.len(),
{
    let d = s.drop_first();
    assert(d.last() == s.last());
    if s.last().0 == h {
        assert(d[d.len() - 1].0 == h);
    } else {
        let p = s.drop_last();
        let i = choose|i: int| 0 <= i < s.len() && (#[trigger] s[i]).0 == h;
        assert(i < s.len() - 1);
        assert(p[i].0 == h);
        lemma_rank_drop_first(p, h);
        assert(d.drop_last() =~= p.drop_first());
        let j = choose|j: int| 0 <= j < p.drop_first().len() && (#[trigger] p.drop_first()[j]).0 == h;
        assert(d[j].0 == h);
    }
}

/// An entry under `p` was used more recently than the last entry under `h`.
pub open spec fn used_after(s: Seq<(u32, Seq<u8>)>, h: u32, p: u32) -> bool
    decreases s.len(),
{
    if s.len() == 0 {
        false
    } else if s.last().0 == h {
        false
    } else if s.last().0 == p {
        true
    } else {
        used_after(s.drop_last(), h, p)
    }
}

/// The pinned hunk is cached but was last used before `h`: using it moves one
/// more entry after `h`.
pub open spec fn pinned_behind(s: Seq<(u32, Seq<u8>)>, h: u32, p: u32) -> bool {
    holds_key(s, p) && p != h && !used_after(s, h, p)
}

proof fn lemma_rank_without_after(s: Seq<(u32, Seq<u8>)>, p: u32, h: u32)
    requires
        p != h,
        used_after(s, h, p),
    ensures
        rank(without_key(s, p), h) + 1 <= rank(s, h),
    decreases s.len(),
{
    let d = s.drop_last();
    if s.last().0 == p {
        lemma_rank_without(d, p, h);
    } else {
        lemma_rank_without_after(d, p, h);
        let w = without_key(d, p);
        assert(w.push(s.last()).drop_last() =~= w);
    }
}

proof fn lemma_after_without(s: Seq<(u32, Seq<u8>)>, k: u32, h: u32, p: u32)
    requires
        k != h,
        k != p,
        used_after(s, h, p),
    ensures
        used_after(without_key(s, k), h, p),
    decreases s.len(),
{
    let d = s.drop_last();
    if s.last().0 == k {
        lemma_after_without(d, k, h, p);
    } else {
        let w = without_key(d, k);
        assert(w.push(s.last()).drop_last() =~= w);
        if s.last().0 != p {
            lemma_after_without(d, k, h, p);
        }
    }
}

proof fn lemma_after_drop_first(s: Seq<(u32, Seq<u8>)>, h: u32, p: u32)
    requires
        holds_key(s, h),
        rank(s, h) + 1 < s.len(),
        used_after(s, h, p),
    ensures
        used_after(s.drop_first(), h, p),
    decreases s.len(),
{
    let d = s.drop_first();
    assert(d.last() == s.last());
    if s.last().0 != p {
        let q = s.drop_last();
        let i = choose|i: int| 0 <= i < s.len() && (#[trigger] s[i]).0 == h;
        assert(i < s.len() - 1);
        assert(q[i].0 == h);
        lemma_after_drop_first(q, h, p);
        assert(d.drop_last() =~= q.drop_first());
    }
}

/// One read into the cache, using the pinned hunk and then storing a hunk,
/// keeps hunk `h` cached and puts at most one more entry after it, counting
/// a pinned hunk still waiting to move after it.
proof fn lemma_step_keeps(x: Seq<(u32, Seq<u8>)>, h: u32, pinned: u32, k: u32, v: Seq<u8>, cap: nat)
    requires
        holds_key(x, h),
        rank(x, h) + (if pinned_behind(x, h, pinned) { 1nat } else { 0nat }) + 2 <= cap,
    ensures
        holds_key(stored(touched(x, pinned), k, v, cap), h),
        rank(stored(touched(x, pinned), k, v, cap), h) + (if pinned_behind(
            stored(touched(x, pinned), k, v, cap),
            h,
            pinned,
        ) { 1nat } else { 0nat }) <= rank(x, h) + (if pinned_behind(x, h, pinned) { 1nat } else { 0nat }) + 1,
{
    let t = touched(x, pinned);
    lemma_touched_keys(x, pinned, h);
    lemma_touched_keys(x, pinned, pinned);
    if holds_key(x, pinned) {
        lemma_entry_of(x, pinned);
        let w = without_key(x, pinned);
        assert(w.push(entry_of(x, pinned)).drop_last() =~= w);
        if pinned != h {
            if used_after(x, h, pinned) {
                lemma_rank_without_after(x, pinned, h);
            } else {
                lemma_rank_without(x, pinned, h);
            }
            assert(t.last().0 == pinned);
            assert(used_after(t, h, pinned));
        }
    }
    assert(rank(t, h) <= rank(x, h) + (if pinned_behind(x, h, pinned) { 1nat } else { 0nat }));
    assert(!pinned_behind(t, h, pinned));
    let u = stored(t, k, v, cap);
    assert(u.last() == (k, v));
    if k == h {
        assert(u[u.len() - 1].0 == h);
    } else if holds_key(t, k) {
        let w = without_key(t, k);
        lemma_without_key(t, k, h);
        lemma_without_key(t, k, pinned);
        lemma_rank_without(t, k, h);
        assert(w.push((k, v)).drop_last() =~= w);
        let i = choose|i: int| 0 <= i < w.len() && (#[trigger] w[i]).0 == h;
        assert(w.push((k, v))[i].0 == h);
        if k != pinned && pinned != h && holds_key(t, pinned) {
            lemma_after_without(t, k, h, pinned);
        }
        if holds_key(u, pinned) && pinned != h && k != pinned {
            let j = choose|j: int| 0 <= j < u.len() && (#[trigger] u[j]).0 == pinned;
            assert(w.push((k, v))[j].0 == pinned);
            if j < w.len() {
                assert(w[j].0 == pinned);
            }
        }
    } else if t.len() >= cap {
        lemma_rank_drop_first(t, h);
        let d = t.drop_first();
        assert(d.push((k, v)).drop_last() =~= d);
        let i = choose|i: int| 0 <= i < d.len() && (#[trigger] d[i]).0 == h;
        assert(d.push((k, v))[i].0 == h);
        if pinned != h && holds_key(t, pinned) {
            lemma_after_drop_first(t, h, pinned);
        }
        if holds_key(u, pinned) && pinned != h && k != pinned && !holds_key(t, pinned) {
            let j = choose|j: int| 0 <= j < u.len() && (#[trigger] u[j]).0 == pinned;
            if j < d.len() {
                assert(d[j].0 == pinned);
                assert(t[j + 1].0 == pinned);
            }
        }
    } else {
        assert(t.push((k, v)).drop_last() =~= t);
        let i = choose|i: int| 0 <= i < t.len() && (#[trigger] t[i]).0 == h;
        assert(t.push((k, v))[i].0 == h);
        if holds_key(u, pinned) && pinned != h && k != pinned && !holds_key(t, pinned) {
            let j = choose|j: int| 0 <= j < u.len() && (#[trigger] u[j]).0 == pinned;
            if j < t.len() {
                assert(t[j].0 == pinned);
            }
        }
    }
}

proof fn lemma_burst_keeps(x: Seq<(u32, Seq<u8>)>, h: u32, pinned: u32, hunks: Seq<(u32, Seq<u8>)>, cap: nat)
    requires
        holds_key(x, h),
        rank(x, h) == 0,
        hunks.len() + 2 <= cap,
    ensures
        holds_key(burst(x, pinned, hunks, cap), h),
        rank(burst(x, pinned, hunks, cap), h) + (if pinned_behind(burst(x, pinned, hunks, cap), h, pinned) {
            1nat
        } else {
            0nat
        }) <= hunks.len() + 1,
    decreases hunks.len(),
{
    if hunks.len() > 0 {
        lemma_burst_keeps(x, h, pinned, hunks.drop_last(), cap);
        lemma_step_keeps(burst(x, pinned, hunks.drop_last(), cap), h, pinned, hunks.last().0, hunks.last().1, cap);
    }
}

/// A hunk put in the cache stays there while the reader stores up to
/// `cap - 2` further hunks, each after using the pinned hunk: a strict read of
/// a prefetched hunk needs no decompression while fewer than `cap - 1` other
/// hunks have been put in the cache since.
pub proof fn lemma_prefetched_hunk_stays_cached(
    s: Seq<(u32, Seq<u8>)>,
    h: u32,
    v: Seq<u8>,
    pinned: u32,
    hunks: Seq<(u32, Seq<u8>)>,
    cap: nat,
)
    requires
        hunks.len() + 2 <= cap,
    ensures
        holds_key(touched(burst(stored(s, h, v, cap), pinned, hunks, cap), pinned), h),
{
    let x = stored(s, h, v, cap);
    assert(x.last() == (h, v));
    assert(x[x.len() - 1].0 == h);
    lemma_burst_keeps(x, h, pinned, hunks, cap);
    lemma_touched_keys(burst(x, pinned, hunks, cap), pinned, h);
}

} // verus!
