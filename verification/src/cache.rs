//! The caches of rendered pages and of preview images: LRU caches of the lru
//! crate, each modelled as its entries from the most recently used to the least.
use vstd::prelude::*;

use lru::LruCache;

verus! {

/// `lru::LruCache`.
#[verifier::external_type_specification]
#[verifier::external_body]
#[verifier::reject_recursive_types(K)]
#[verifier::reject_recursive_types(V)]
#[verifier::reject_recursive_types(S)]
pub struct ExLruCache<K, V, S>(LruCache<K, V, S>);

/// `lru::DefaultHasher`, the hasher of an `LruCache` made by `LruCache::new`.
#[verifier::external_type_specification]
#[verifier::external_body]
pub struct ExLruHasher(lru::DefaultHasher);

// ---------------------------------------------------------------------------
// The model: entries, most recently used first

/// The position of key `k` in `s`, or `s.len()` when it is absent.
pub open spec fn key_pos<V>(s: Seq<(Seq<char>, V)>, k: Seq<char>) -> int
    decreases s.len(),
{
    if s.len() == 0 {
        0
    } else if s[0].0 == k {
        0
    } else {
        1 + key_pos(s.drop_first(), k)
    }
}

/// No key occurs twice.
pub open spec fn distinct_keys<V>(s: Seq<(Seq<char>, V)>) -> bool {
    forall|i: int, j: int| 0 <= i < j < s.len() ==> #[trigger] s[i].0 != #[trigger] s[j].0
}

/// The value stored under `k`.
pub open spec fn lru_lookup<V>(s: Seq<(Seq<char>, V)>, k: Seq<char>) -> Option<V> {
    let i = key_pos(s, k);
    if i < s.len() {
        Some(s[i].1)
    } else {
        None
    }
}

/// The entries after a lookup of `k`: a present entry becomes the most recently used.
pub open spec fn lru_touch<V>(s: Seq<(Seq<char>, V)>, k: Seq<char>) -> Seq<(Seq<char>, V)> {
    let i = key_pos(s, k);
    if i < s.len() {
        seq![s[i]] + s.remove(i)
    } else {
        s
    }
}

/// The entries after storing `v` under `k` in a cache that holds at most `cap`
/// entries: the entry becomes the most recently used, replacing the one under
/// `k`; a new key in a full cache evicts the least recently used entry.
pub open spec fn lru_put<V>(s: Seq<(Seq<char>, V)>, k: Seq<char>, v: V, cap: nat) -> Seq<
    (Seq<char>, V),
> {
    let i = key_pos(s, k);
    if i < s.len() {
        seq![(k, v)] + s.remove(i)
    } else if s.len() < cap {
        seq![(k, v)] + s
    } else {
        seq![(k, v)] + s.drop_last()
    }
}

/// The key that storing under `k` evicts, if it evicts one.
pub open spec fn lru_evicted<V>(s: Seq<(Seq<char>, V)>, k: Seq<char>, cap: nat) -> Option<
    Seq<char>,
> {
    if key_pos(s, k) == s.len() && s.len() >= cap && s.len() > 0 {
        Some(s.last().0)
    } else {
        None
    }
}

pub open spec fn opt_bytes(o: Option<Vec<u8>>) -> Option<Seq<u8>> {
    match o {
        Some(v) => Some(v@),
        None => None,
    }
}

// ---------------------------------------------------------------------------
// The lru crate

/// The entries of a page cache, most recently used first, each key with its HTML.
pub uninterp spec fn page_entries(c: LruCache<String, String>) -> Seq<(Seq<char>, Seq<char>)>;

/// The number of entries that a page cache was made to hold.
pub uninterp spec fn page_limit(c: LruCache<String, String>) -> nat;

/// The entries of an image cache, most recently used first, each key with its bytes.
pub uninterp spec fn image_entries(c: LruCache<String, Vec<u8>>) -> Seq<(Seq<char>, Seq<u8>)>;

/// The number of entries that an image cache was made to hold.
pub uninterp spec fn image_limit(c: LruCache<String, Vec<u8>>) -> nat;

/// An empty cache for `cap` pages.
/// Calls `LruCache::new`, which makes an empty cache that holds at most `cap` entries.
#[verifier::external_body]
fn page_cache_new(cap: usize) -> (res: LruCache<String, String>)
    requires
        cap > 0,
    ensures
        page_entries(res) == Seq::<(Seq<char>, Seq<char>)>::empty(),
        page_limit(res) == cap,
{
    LruCache::new(std::num::NonZeroUsize::new(cap).unwrap())
}

/// The page stored under `key`, if any.
/// Calls `LruCache::get`, which answers the value under `key` and moves its entry
/// to the head of the recency list, and clones the value. Its source makes no call
/// that can panic (a hash lookup and pointer moves); cloning a `String` can only
/// fail to allocate, which aborts rather than unwinds.
#[verifier::external_body]
fn page_cache_get(c: &mut LruCache<String, String>, key: &str) -> (res: Option<String>)
    ensures
        crate::text::opt_view(res) == lru_lookup(page_entries(*old(c)), key@),
        page_entries(*final(c)) == lru_touch(page_entries(*old(c)), key@),
        page_limit(*final(c)) == page_limit(*old(c)),
    no_unwind
{
    c.get(key).cloned()
}

/// Stores `html` under `key`.
/// Calls `LruCache::put`, which replaces the value under an existing key, and for a
/// new key evicts the least recently used entry when the cache holds `cap` entries;
/// either way the entry becomes the head of the recency list. Its one `unwrap`
/// removes the least recently used entry, which a full cache always holds; its
/// allocations can only fail by aborting.
#[verifier::external_body]
fn page_cache_put(c: &mut LruCache<String, String>, key: String, html: String)
    ensures
        page_entries(*final(c)) == lru_put(page_entries(*old(c)), key@, html@, page_limit(*old(c))),
        page_limit(*final(c)) == page_limit(*old(c)),
    no_unwind
{
    c.put(key, html);
}

/// An empty cache for `cap` images.
/// Calls `LruCache::new`, which makes an empty cache that holds at most `cap` entries.
#[verifier::external_body]
fn image_cache_new(cap: usize) -> (res: LruCache<String, Vec<u8>>)
    requires
        cap > 0,
    ensures
        image_entries(res) == Seq::<(Seq<char>, Seq<u8>)>::empty(),
        image_limit(res) == cap,
{
    LruCache::new(std::num::NonZeroUsize::new(cap).unwrap())
}

/// The image stored under `key`, if any.
/// Calls `LruCache::get`, which answers the value under `key` and moves its entry
/// to the head of the recency list, and clones the value. Its source makes no call
/// that can panic (a hash lookup and pointer moves); cloning a `Vec` can only fail
/// to allocate, which aborts rather than unwinds.
#[verifier::external_body]
fn image_cache_get(c: &mut LruCache<String, Vec<u8>>, key: &str) -> (res: Option<Vec<u8>>)
    ensures
        opt_bytes(res) == lru_lookup(image_entries(*old(c)), key@),
        image_entries(*final(c)) == lru_touch(image_entries(*old(c)), key@),
        image_limit(*final(c)) == image_limit(*old(c)),
    no_unwind
{
    c.get(key).cloned()
}

/// Stores `png` under `key`.
/// Calls `LruCache::put`, which replaces the value under an existing key, and for a
/// new key evicts the least recently used entry when the cache holds `cap` entries;
/// either way the entry becomes the head of the recency list. Its one `unwrap`
/// removes the least recently used entry, which a full cache always holds; its
/// allocations can only fail by aborting.
#[verifier::external_body]
fn image_cache_put(c: &mut LruCache<String, Vec<u8>>, key: String, png: Vec<u8>)
    ensures
        image_entries(*final(c)) == lru_put(image_entries(*old(c)), key@, png@, image_limit(*old(c))),
        image_limit(*final(c)) == image_limit(*old(c)),
    no_unwind
{
    c.put(key, png);
}

// ---------------------------------------------------------------------------
// Lemmas on the model

pub proof fn lemma_key_pos<V>(s: Seq<(Seq<char>, V)>, k: Seq<char>)
    ensures
        0 <= key_pos(s, k) <= s.len(),
        forall|m: int| 0 <= m < key_pos(s, k) ==> (#[trigger] s[m]).0 != k,
        key_pos(s, k) < s.len() ==> s[key_pos(s, k)].0 == k,
    decreases s.len(),
{
    if s.len() > 0 && s[0].0 != k {
        let t = s.drop_first();
        lemma_key_pos(t, k);
        assert forall|m: int| 0 <= m < key_pos(s, k) implies (#[trigger] s[m]).0 != k by {
            if m > 0 {
                assert(s[m] == t[m - 1]);
            }
        }
    }
}

/// In a cache without repeated keys, the entry at position `p` is the one found under its key.
pub proof fn lemma_lookup_at<V>(s: Seq<(Seq<char>, V)>, p: int)
    requires
        distinct_keys(s),
        0 <= p < s.len(),
    ensures
        key_pos(s, s[p].0) == p,
        lru_lookup(s, s[p].0) == Some(s[p].1),
{
    let k = s[p].0;
    lemma_key_pos(s, k);
    let i = key_pos(s, k);
    if i < p {
        assert(s[i].0 == s[p].0);
    } else if i > p {
        assert(s[p].0 != k);
    }
}

/// A key that no entry holds is not found.
pub proof fn lemma_lookup_absent<V>(s: Seq<(Seq<char>, V)>, k: Seq<char>)
    requires
        forall|m: int| 0 <= m < s.len() ==> (#[trigger] s[m]).0 != k,
    ensures
        key_pos(s, k) == s.len(),
        lru_lookup(s, k) is None,
{
    lemma_key_pos(s, k);
}

/// A lookup only reorders the entries.
pub proof fn lemma_touch_keeps<V>(s: Seq<(Seq<char>, V)>, k: Seq<char>, j: Seq<char>)
    requires
        distinct_keys(s),
    ensures
        distinct_keys(lru_touch(s, k)),
        lru_touch(s, k).len() == s.len(),
        lru_lookup(lru_touch(s, k), j) == lru_lookup(s, j),
{
    lemma_key_pos(s, k);
    let i = key_pos(s, k);
    if i < s.len() {
        let t = s.remove(i);
        let r = lru_touch(s, k);
        assert(r == seq![s[i]] + t);
        assert forall|a: int, b: int| 0 <= a < b < r.len() implies #[trigger] r[a].0
            != #[trigger] r[b].0 by {
            if a == 0 {
                if b - 1 < i {
                    assert(r[b] == s[b - 1]);
                } else {
                    assert(r[b] == s[b]);
                }
            } else {
                let a2 = if a - 1 < i { a - 1 } else { a };
                let b2 = if b - 1 < i { b - 1 } else { b };
                assert(r[a] == s[a2]);
                assert(r[b] == s[b2]);
            }
        }
        lemma_remove_keeps(s, i, j);
        if j == k {
            lemma_lookup_at(s, i);
            assert(r[0] == s[i]);
            lemma_lookup_at(r, 0);
        } else {
            assert(r.drop_first() =~= t);
            assert(key_pos(r, j) == 1 + key_pos(t, j));
            lemma_key_pos(t, j);
            if key_pos(t, j) < t.len() {
                assert(r[1 + key_pos(t, j)] == t[key_pos(t, j)]);
            }
        }
    }
}

/// Removing the entry at `i` keeps what every other key finds.
proof fn lemma_remove_keeps<V>(s: Seq<(Seq<char>, V)>, i: int, j: Seq<char>)
    requires
        distinct_keys(s),
        0 <= i < s.len(),
    ensures
        distinct_keys(s.remove(i)),
        s[i].0 != j ==> lru_lookup(s.remove(i), j) == lru_lookup(s, j),
        s[i].0 == j ==> lru_lookup(s.remove(i), j) is None,
{
    let t = s.remove(i);
    assert forall|a: int| 0 <= a < t.len() implies #[trigger] t[a] == (if a < i {
        s[a]
    } else {
        s[a + 1]
    }) by {}
    assert forall|a: int, b: int| 0 <= a < b < t.len() implies #[trigger] t[a].0
        != #[trigger] t[b].0 by {
        let a2 = if a < i { a } else { a + 1 };
        let b2 = if b < i { b } else { b + 1 };
        assert(t[a] == s[a2]);
        assert(t[b] == s[b2]);
    }
    lemma_key_pos(s, j);
    let p = key_pos(s, j);
    if p < s.len() && p != i {
        lemma_lookup_at(s, p);
        let p2 = if p < i { p } else { p - 1 };
        assert(t[p2] == s[p]);
        lemma_lookup_at(t, p2);
    } else {
        assert forall|m: int| 0 <= m < t.len() implies (#[trigger] t[m]).0 != j by {
            let m2 = if m < i { m } else { m + 1 };
            assert(t[m] == s[m2]);
            if p < s.len() {
                assert(s[p].0 == j);
            }
        }
        lemma_lookup_absent(t, j);
        if p < s.len() {
            lemma_lookup_at(s, p);
        } else {
            lemma_lookup_absent(s, j);
        }
    }
}

/// What storing does to the entries: the stored key finds the stored value; every
/// other key finds what it found before, but the evicted one, which finds nothing;
/// no key repeats and the cache holds no more than it may.
pub proof fn lemma_put<V>(s: Seq<(Seq<char>, V)>, k: Seq<char>, v: V, cap: nat, j: Seq<char>)
    requires
        distinct_keys(s),
        s.len() <= cap,
        cap > 0,
    ensures
        distinct_keys(lru_put(s, k, v, cap)),
        lru_put(s, k, v, cap).len() <= cap,
        lru_lookup(lru_put(s, k, v, cap), k) == Some(v),
        j != k ==> lru_lookup(lru_put(s, k, v, cap), j) == (if lru_evicted(s, k, cap) == Some(j) {
            None
        } else {
            lru_lookup(s, j)
        }),
{
    lemma_key_pos(s, k);
    let i = key_pos(s, k);
    let r = lru_put(s, k, v, cap);
    let t = if i < s.len() {
        s.remove(i)
    } else if s.len() < cap {
        s
    } else {
        s.drop_last()
    };
    assert(r == seq![(k, v)] + t);
    assert(r.drop_first() =~= t);
    // the rest has no repeated key and does not hold k
    if i < s.len() {
        lemma_remove_keeps(s, i, j);
        lemma_remove_keeps(s, i, k);
    } else if s.len() >= cap {
        assert forall|a: int, b: int| 0 <= a < b < t.len() implies #[trigger] t[a].0
            != #[trigger] t[b].0 by {
            assert(t[a] == s[a]);
            assert(t[b] == s[b]);
        }
    }
    assert forall|m: int| 0 <= m < t.len() implies (#[trigger] t[m]).0 != k by {
        if i < s.len() {
            let m2 = if m < i { m } else { m + 1 };
            assert(t[m] == s[m2]);
        } else {
            assert(t[m] == s[m]);
        }
    }
    assert forall|a: int, b: int| 0 <= a < b < r.len() implies #[trigger] r[a].0
        != #[trigger] r[b].0 by {
        if a == 0 {
            assert(r[b] == t[b - 1]);
        } else {
            assert(r[a] == t[a - 1]);
            assert(r[b] == t[b - 1]);
        }
    }
    assert(r[0] == (k, v));
    lemma_lookup_at(r, 0);
    if j != k {
        assert(key_pos(r, j) == 1 + key_pos(t, j));
        lemma_key_pos(t, j);
        if i >= s.len() && s.len() >= cap {
            let n = s.len() - 1;
            if s[n].0 == j {
                assert forall|m: int| 0 <= m < t.len() implies (#[trigger] t[m]).0 != j by {
                    assert(t[m] == s[m]);
                    assert(s[m].0 != s[n].0);
                }
                lemma_lookup_absent(t, j);
            } else {
                lemma_key_pos(s, j);
                let p = key_pos(s, j);
                if p < s.len() {
                    lemma_lookup_at(s, p);
                    assert(t[p] == s[p]);
                    lemma_lookup_at(t, p);
                } else {
                    assert forall|m: int| 0 <= m < t.len() implies (#[trigger] t[m]).0 != j by {
                        assert(t[m] == s[m]);
                    }
                    lemma_lookup_absent(t, j);
                }
            }
        }
    }
}

/// Every entry holds the value `fresh` gives for its key.
pub open spec fn holds_fresh<V>(s: Seq<(Seq<char>, V)>, fresh: spec_fn(Seq<char>) -> V) -> bool {
    forall|j: int| 0 <= j < s.len() ==> (#[trigger] s[j]).1 == fresh(s[j].0)
}

/// A cache into which each key's fresh value is all that is ever stored answers
/// every hit with that key's fresh value: a cached page is the page a fresh
/// rendering gives. Lookups and such stores keep this so.
pub proof fn lemma_cache_serves_fresh<V>(
    s: Seq<(Seq<char>, V)>,
    fresh: spec_fn(Seq<char>) -> V,
    k: Seq<char>,
    cap: nat,
)
    requires
        holds_fresh(s, fresh),
        cap > 0,
    ensures
        lru_lookup(s, k) matches Some(v) ==> v == fresh(k),
        holds_fresh(lru_touch(s, k), fresh),
        holds_fresh(lru_put(s, k, fresh(k), cap), fresh),
{
    lemma_key_pos(s, k);
    let i = key_pos(s, k);
    if i < s.len() {
        assert(s[i].1 == fresh(s[i].0));
        let t = s.remove(i);
        assert forall|j: int| 0 <= j < t.len() implies (#[trigger] t[j]).1 == fresh(t[j].0) by {
            if j < i {
                assert(t[j] == s[j]);
            } else {
                assert(t[j] == s[j + 1]);
            }
        }
        let r = lru_touch(s, k);
        assert forall|j: int| 0 <= j < r.len() implies (#[trigger] r[j]).1 == fresh(r[j].0) by {
            if j > 0 {
                assert(r[j] == t[j - 1]);
            }
        }
        let p = lru_put(s, k, fresh(k), cap);
        assert forall|j: int| 0 <= j < p.len() implies (#[trigger] p[j]).1 == fresh(p[j].0) by {
            if j > 0 {
                assert(p[j] == t[j - 1]);
            }
        }
    } else {
        let t = if s.len() < cap {
            s
        } else {
            s.drop_last()
        };
        let p = lru_put(s, k, fresh(k), cap);
        assert forall|j: int| 0 <= j < p.len() implies (#[trigger] p[j]).1 == fresh(p[j].0) by {
            if j > 0 {
                assert(p[j] == t[j - 1]);
                assert(t[j - 1] == s[j - 1]);
            }
        }
    }
}

// ---------------------------------------------------------------------------
// The caches

/// The cache of rendered pages: each cache key with the HTML rendered for it.
pub struct PageCache {
    entries: LruCache<String, String>,
}

impl PageCache {
    /// The entries, most recently used first.
    pub closed spec fn entries(&self) -> Seq<(Seq<char>, Seq<char>)> {
        page_entries(self.entries)
    }

    /// The number of entries the cache holds at most.
    pub closed spec fn limit(&self) -> nat {
        page_limit(self.entries)
    }

    /// Every key occurs once, and the cache holds no more than its limit.
    pub open spec fn wf(&self) -> bool {
        &&& self.limit() > 0
        &&& self.entries().len() <= self.limit()
        &&& distinct_keys(self.entries())
    }

    /// What every cache keeps: `wf`.
    #[verifier::type_invariant]
    spec fn keeps_wf(self) -> bool {
        &&& page_limit(self.entries) > 0
        &&& page_entries(self.entries).len() <= page_limit(self.entries)
        &&& distinct_keys(page_entries(self.entries))
    }

    /// An empty cache for at most `capacity` pages.
    pub fn new(capacity: usize) -> (res: Self)
        requires
            capacity > 0,
        ensures
            res.wf(),
            res.entries() == Seq::<(Seq<char>, Seq<char>)>::empty(),
            res.limit() == capacity,
    {
        PageCache { entries: page_cache_new(capacity) }
    }

    /// The page cached under `key`, which becomes the most recently used.
    pub fn get(&mut self, key: &str) -> (res: Option<String>)
        ensures
            final(self).wf(),
            crate::text::opt_view(res) == lru_lookup(old(self).entries(), key@),
            final(self).entries() == lru_touch(old(self).entries(), key@),
            final(self).limit() == old(self).limit(),
    {
        proof {
            use_type_invariant(&*self);
            lemma_touch_keeps(self.entries(), key@, key@);
        }
        page_cache_get(&mut self.entries, key)
    }

    /// Caches `html` under `key`, as the most recently used page.
    pub fn put(&mut self, key: String, html: String)
        ensures
            final(self).wf(),
            final(self).entries() == lru_put(old(self).entries(), key@, html@, old(self).limit()),
            final(self).limit() == old(self).limit(),
    {
        proof {
            use_type_invariant(&*self);
        }
        let ghost k = key@;
        let ghost h = html@;
        proof {
            lemma_put(self.entries(), k, h, self.limit(), k);
        }
        page_cache_put(&mut self.entries, key, html);
    }
}

/// The cache of preview images: each cache key with its PNG file.
pub struct ImageCache {
    entries: LruCache<String, Vec<u8>>,
}

impl ImageCache {
    /// The entries, most recently used first.
    pub closed spec fn entries(&self) -> Seq<(Seq<char>, Seq<u8>)> {
        image_entries(self.entries)
    }

    /// The number of entries the cache holds at most.
    pub closed spec fn limit(&self) -> nat {
        image_limit(self.entries)
    }

    /// Every key occurs once, and the cache holds no more than its limit.
    pub open spec fn wf(&self) -> bool {
        &&& self.limit() > 0
        &&& self.entries().len() <= self.limit()
        &&& distinct_keys(self.entries())
    }

    /// What every cache keeps: `wf`.
    #[verifier::type_invariant]
    spec fn keeps_wf(self) -> bool {
        &&& image_limit(self.entries) > 0
        &&& image_entries(self.entries).len() <= image_limit(self.entries)
        &&& distinct_keys(image_entries(self.entries))
    }

    /// An empty cache for at most `capacity` images.
    pub fn new(capacity: usize) -> (res: Self)
        requires
            capacity > 0,
        ensures
            res.wf(),
            res.entries() == Seq::<(Seq<char>, Seq<u8>)>::empty(),
            res.limit() == capacity,
    {
        ImageCache { entries: image_cache_new(capacity) }
    }

    /// The image cached under `key`, which becomes the most recently used.
    pub fn get(&mut self, key: &str) -> (res: Option<Vec<u8>>)
        ensures
            final(self).wf(),
            opt_bytes(res) == lru_lookup(old(self).entries(), key@),
            final(self).entries() == lru_touch(old(self).entries(), key@),
            final(self).limit() == old(self).limit(),
    {
        proof {
            use_type_invariant(&*self);
            lemma_touch_keeps(self.entries(), key@, key@);
        }
        image_cache_get(&mut self.entries, key)
    }

    /// Caches `png` under `key`, as the most recently used image.
    pub fn put(&mut self, key: String, png: Vec<u8>)
        ensures
            final(self).wf(),
            final(self).entries() == lru_put(old(self).entries(), key@, png@, old(self).limit()),
            final(self).limit() == old(self).limit(),
    {
        proof {
            use_type_invariant(&*self);
        }
        let ghost k = key@;
        let ghost p = png@;
        proof {
            lemma_put(self.entries(), k, p, self.limit(), k);
        }
        image_cache_put(&mut self.entries, key, png);
    }
}

} // verus!
