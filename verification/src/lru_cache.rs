//! A fixed-capacity key-value cache with least-recently-used eviction.
//!
//! The cache combines two structures over one arena of entries:
//! a hash index (bucket chains linked through `hash_prev`/`hash_next`)
//! for O(1) lookup, and a recency list (linked through `list_prev`/
//! `list_next`) whose head is the most-recently-used entry and whose
//! tail is the eviction candidate.
//!
//! Entries live in one arena addressed by integer slots; the link slots
//! of an entry are kept in parallel columns so that rewiring a link
//! never moves a key or a value. The abstraction is a sequence of
//! key/value pairs in recency order, most recent first.

use vstd::prelude::*;

verus! {

/// A key usable by the cache: it can be hashed to a `u64` and compared,
/// both consistently with a mathematical model of the key.
///
/// The hash may be any deterministic function of the key's model;
/// callers must not assume a particular value.
pub trait CacheKey: Sized {
    /// The mathematical value a key stands for; contracts speak of it.
    type Model;

    /// The model of this key.
    spec fn key_model(&self) -> Self::Model;

    /// The hash of this key, as a function of its model.
    spec fn hash_spec(&self) -> u64;

    /// Keys with equal models hash alike.
    proof fn lemma_hash_respects_model(a: &Self, b: &Self)
        requires
            a.key_model() == b.key_model(),
        ensures
            a.hash_spec() == b.hash_spec(),
    ;

    /// Computes the hash.
    fn key_hash(&self) -> (h: u64)
        ensures
            h == self.hash_spec(),
    ;

    /// Decides equality of the models.
    fn key_eq(&self, other: &Self) -> (r: bool)
        ensures
            r == (self.key_model() == other.key_model()),
    ;

    /// Produces a key with the same model.
    fn key_dup(&self) -> (r: Self)
        ensures
            r.key_model() == self.key_model(),
    ;
}

impl CacheKey for u64 {
    type Model = u64;

    open spec fn key_model(&self) -> u64 {
        *self
    }

    open spec fn hash_spec(&self) -> u64 {
        *self
    }

    proof fn lemma_hash_respects_model(a: &Self, b: &Self) {
    }

    fn key_hash(&self) -> (h: u64) {
        *self
    }

    fn key_eq(&self, other: &Self) -> (r: bool) {
        *self == *other
    }

    fn key_dup(&self) -> (r: Self) {
        *self
    }
}

impl CacheKey for i32 {
    type Model = i32;

    open spec fn key_model(&self) -> i32 {
        *self
    }

    open spec fn hash_spec(&self) -> u64 {
        (*self + 0x8000_0000int) as u64
    }

    proof fn lemma_hash_respects_model(a: &Self, b: &Self) {
    }

    fn key_hash(&self) -> (h: u64) {
        (((*self) as i64) + 0x8000_0000i64) as u64
    }

    fn key_eq(&self, other: &Self) -> (r: bool) {
        *self == *other
    }

    fn key_dup(&self) -> (r: Self) {
        *self
    }
}

/// A polynomial hash of a string's characters, accumulated left to
/// right with wrapping 64-bit arithmetic.
pub open spec fn str_chars_hash(s: Seq<char>) -> u64
    decreases s.len(),
{
    if s.len() == 0 {
        0u64
    } else {
        vstd::wrapping::u64_specs::wrapping_add(
            vstd::wrapping::u64_specs::wrapping_mul(str_chars_hash(s.drop_last()), 31u64),
            s.last() as u64,
        )
    }
}

impl CacheKey for String {
    type Model = Seq<char>;

    open spec fn key_model(&self) -> Seq<char> {
        self@
    }

    open spec fn hash_spec(&self) -> u64 {
        str_chars_hash(self@)
    }

    proof fn lemma_hash_respects_model(a: &Self, b: &Self) {
    }

    fn key_hash(&self) -> (h: u64) {
        let n = self.as_str().unicode_len();
        let mut h: u64 = 0;
        let mut i: usize = 0;
        while i < n
            invariant
                n == self@.len(),
                0 <= i <= n,
                h == str_chars_hash(self@.take(i as int)),
            decreases n - i,
        {
            let c = self.as_str().get_char(i);
            h = h.wrapping_mul(31).wrapping_add(c as u64);
            i = i + 1;
            proof {
                assert(self@.take(i as int).drop_last() =~= self@.take(i as int - 1));
                assert(self@.take(i as int).last() == self@[i as int - 1]);
            }
        }
        proof {
            assert(self@.take(n as int) =~= self@);
        }
        h
    }

    fn key_eq(&self, other: &Self) -> (r: bool) {
        self.eq(other)
    }

    fn key_dup(&self) -> (r: Self) {
        self.clone()
    }
}

/// The one reportable failure: a configuration that can hold nothing.
#[derive(Debug, PartialEq, Eq, Structural, Clone, Copy)]
pub enum ConfigError {
    /// The capacity was zero.
    ZeroCapacity,
    /// The bucket count was zero.
    ZeroBuckets,
}

/// Is the key `k` bound in `s`?
pub open spec fn contains_key<A, V>(s: Seq<(A, V)>, k: A) -> bool {
    exists|j: int| 0 <= j < s.len() && s[j].0 == k
}

/// The position of `k` in `s` (meaningful only when `contains_key` holds
/// and keys are unique).
pub open spec fn key_index<A, V>(s: Seq<(A, V)>, k: A) -> int {
    choose|j: int| 0 <= j < s.len() && s[j].0 == k
}

/// The entries after the one at `j` moves to the most-recent position.
pub open spec fn promote_at<A, V>(s: Seq<(A, V)>, j: int) -> Seq<(A, V)> {
    seq![s[j]] + s.remove(j)
}

/// The entries after `set(k, v)` on a cache holding `s` with capacity `cap`:
/// an existing binding is overwritten and promoted; otherwise the new
/// binding is prepended, and the least-recently-used entry is evicted
/// when the cache was already full.
pub open spec fn after_set<A, V>(s: Seq<(A, V)>, k: A, v: V, cap: nat) -> Seq<(A, V)> {
    if contains_key(s, k) {
        seq![(k, v)] + s.remove(key_index(s, k))
    } else if s.len() < cap {
        seq![(k, v)] + s
    } else {
        seq![(k, v)] + s.drop_last()
    }
}

/// The entries after `get(k)`: a hit promotes, a miss changes nothing.
pub open spec fn after_get<A, V>(s: Seq<(A, V)>, k: A) -> Seq<(A, V)> {
    if contains_key(s, k) {
        promote_at(s, key_index(s, k))
    } else {
        s
    }
}

/// The value bound to `k` in `s`, if any (meaningful when keys are unique).
pub open spec fn lookup_in<A, V>(s: Seq<(A, V)>, k: A) -> Option<V> {
    if contains_key(s, k) {
        Some(s[key_index(s, k)].1)
    } else {
        None
    }
}

/// Do all entries of `s` carry distinct keys?
pub open spec fn distinct_keys<A, V>(s: Seq<(A, V)>) -> bool {
    forall|i: int, j: int| 0 <= i < j < s.len() ==> (#[trigger] s[i]).0 != (#[trigger] s[j]).0
}

/// In a sequence with distinct keys, `key_index` finds exactly the
/// position whose entry carries the key.
pub proof fn lemma_key_index_at<A, V>(s: Seq<(A, V)>, p: int)
    requires
        distinct_keys(s),
        0 <= p < s.len(),
    ensures
        contains_key(s, s[p].0),
        key_index(s, s[p].0) == p,
{
    assert(0 <= p < s.len() && s[p].0 == s[p].0);
    let j = key_index(s, s[p].0);
    assert(0 <= j < s.len() && s[j].0 == s[p].0);
    if j != p {
        if j < p {
            assert(s[j].0 != s[p].0);
        } else {
            assert(s[p].0 != s[j].0);
        }
    }
}

/// Moving the element at `p` to the front permutes a sequence: length,
/// membership and freedom from duplicates are all preserved.
proof fn lemma_promote_seq(ord: Seq<usize>, p: int)
    requires
        0 <= p < ord.len(),
        ord.no_duplicates(),
    ensures
        (seq![ord[p]] + ord.remove(p)).len() == ord.len(),
        (seq![ord[p]] + ord.remove(p)).no_duplicates(),
        forall|x: usize| (seq![ord[p]] + ord.remove(p)).contains(x) <==> ord.contains(x),
{
    let no = seq![ord[p]] + ord.remove(p);
    ord.remove_ensures(p);
    assert(no.len() == ord.len());
    assert forall|q: int| 1 <= q < no.len() implies no[q] == (if q - 1 < p {
        ord[q - 1]
    } else {
        ord[q]
    }) by {}
    assert forall|x: usize| ord.contains(x) implies no.contains(x) by {
        let r = choose|r: int| 0 <= r < ord.len() && ord[r] == x;
        if r == p {
            assert(no[0] == x);
        } else if r < p {
            assert(no[r + 1] == x);
        } else {
            assert(no[r] == x);
        }
    }
    assert forall|x: usize| no.contains(x) implies ord.contains(x) by {
        let q = choose|q: int| 0 <= q < no.len() && no[q] == x;
        if q == 0 {
            assert(ord[p] == x);
        } else if q - 1 < p {
            assert(ord[q - 1] == x);
        } else {
            assert(ord[q] == x);
        }
    }
    assert forall|q1: int, q2: int| 0 <= q1 < q2 < no.len() implies no[q1] != no[q2] by {
        let r1 = if q1 == 0 {
            p
        } else if q1 - 1 < p {
            q1 - 1
        } else {
            q1
        };
        let r2 = if q2 == 0 {
            p
        } else if q2 - 1 < p {
            q2 - 1
        } else {
            q2
        };
        assert(no[q1] == ord[r1]);
        assert(no[q2] == ord[r2]);
        assert(r1 != r2);
    }
}

/// A fixed-capacity LRU cache mapping keys of type `K` to values of type `V`.
pub struct LRUCache<K: CacheKey, V> {
    max_size: usize,
    total_size: usize,
    keys: Vec<K>,
    vals: Vec<V>,
    list_prev: Vec<Option<usize>>,
    list_next: Vec<Option<usize>>,
    hash_prev: Vec<Option<usize>>,
    hash_next: Vec<Option<usize>>,
    list_header: Option<usize>,
    list_tail: Option<usize>,
    hash_indices: Vec<Option<usize>>,
    free_slots: Vec<usize>,
    order: Ghost<Seq<usize>>,
    chains: Ghost<Seq<Seq<usize>>>,
}

impl<K: CacheKey, V> View for LRUCache<K, V> {
    type V = Seq<(<K as CacheKey>::Model, V)>;

    closed spec fn view(&self) -> Seq<(<K as CacheKey>::Model, V)> {
        Seq::new(
            self.order@.len(),
            |p: int|
                (
                    self.keys@[self.order@[p] as int].key_model(),
                    self.vals@[self.order@[p] as int],
                ),
        )
    }
}

impl<K: CacheKey, V> LRUCache<K, V> {
    /// The configured capacity.
    pub closed spec fn capacity_spec(&self) -> nat {
        self.max_size as nat
    }

    /// The configured number of hash buckets.
    pub closed spec fn bucket_count_spec(&self) -> nat {
        self.hash_indices@.len()
    }

    /// The bucket a hash value is reduced to.
    spec fn bucket_of_hash(&self, h: u64) -> int {
        (h as int) % (self.hash_indices@.len() as int)
    }

    /// The bucket the entry in slot `s` is filed under.
    spec fn bucket_of_slot(&self, s: int) -> int {
        self.bucket_of_hash(self.keys@[s].hash_spec())
    }

    /// All arena columns have one row per slot.
    spec fn lens_ok(&self) -> bool {
        &&& self.vals@.len() == self.keys@.len()
        &&& self.list_prev@.len() == self.keys@.len()
        &&& self.list_next@.len() == self.keys@.len()
        &&& self.hash_prev@.len() == self.keys@.len()
        &&& self.hash_next@.len() == self.keys@.len()
    }

    /// The recency links trace out exactly the ghost order, head first.
    spec fn list_wf(&self) -> bool {
        let ord = self.order@;
        &&& ord.no_duplicates()
        &&& forall|p: int| 0 <= p < ord.len() ==> (#[trigger] ord[p]) < self.keys@.len()
        &&& self.list_header == (if ord.len() == 0 {
            None::<usize>
        } else {
            Some(ord[0])
        })
        &&& self.list_tail == (if ord.len() == 0 {
            None::<usize>
        } else {
            Some(ord[ord.len() - 1])
        })
        &&& forall|p: int|
            0 <= p < ord.len() ==> self.list_prev@[(#[trigger] ord[p]) as int] == (if p == 0 {
                None::<usize>
            } else {
                Some(ord[p - 1])
            })
        &&& forall|p: int|
            0 <= p < ord.len() ==> self.list_next@[(#[trigger] ord[p]) as int] == (if p == ord.len()
                - 1 {
                None::<usize>
            } else {
                Some(ord[p + 1])
            })
    }

    /// Bucket `b`'s links trace out exactly its ghost chain, and every
    /// entry on the chain is live and hashes to `b`.
    spec fn chain_wf(&self, b: int) -> bool {
        let ch = self.chains@[b];
        &&& ch.no_duplicates()
        &&& self.hash_indices@[b] == (if ch.len() == 0 {
            None::<usize>
        } else {
            Some(ch[0])
        })
        &&& forall|j: int| 0 <= j < ch.len() ==> (#[trigger] ch[j]) < self.keys@.len()
        &&& forall|j: int| 0 <= j < ch.len() ==> self.order@.contains(#[trigger] ch[j])
        &&& forall|j: int| 0 <= j < ch.len() ==> self.bucket_of_slot((#[trigger] ch[j]) as int) == b
        &&& forall|j: int|
            0 <= j < ch.len() ==> self.hash_prev@[(#[trigger] ch[j]) as int] == (if j == 0 {
                None::<usize>
            } else {
                Some(ch[j - 1])
            })
        &&& forall|j: int|
            0 <= j < ch.len() ==> self.hash_next@[(#[trigger] ch[j]) as int] == (if j == ch.len()
                - 1 {
                None::<usize>
            } else {
                Some(ch[j + 1])
            })
    }

    /// Every bucket chain is well formed and every live entry is on the
    /// chain of its own bucket.
    spec fn index_wf(&self) -> bool {
        &&& self.chains@.len() == self.hash_indices@.len()
        &&& forall|b: int| 0 <= b < self.chains@.len() ==> #[trigger] self.chain_wf(b)
        &&& forall|p: int|
            0 <= p < self.order@.len() ==> self.chains@[self.bucket_of_slot(
                (#[trigger] self.order@[p]) as int,
            )].contains(self.order@[p])
    }

    /// Free slots are dead, in range, and listed once.
    spec fn free_wf(&self) -> bool {
        let fr = self.free_slots@;
        &&& fr.no_duplicates()
        &&& forall|i: int| 0 <= i < fr.len() ==> (#[trigger] fr[i]) < self.keys@.len()
        &&& forall|i: int| 0 <= i < fr.len() ==> !self.order@.contains(#[trigger] fr[i])
    }

    /// No two live entries share a key model.
    spec fn keys_unique(&self) -> bool {
        let ord = self.order@;
        forall|p: int, q: int|
            0 <= p < q < ord.len() ==> self.keys@[(#[trigger] ord[p]) as int].key_model()
                != self.keys@[(#[trigger] ord[q]) as int].key_model()
    }

    /// The two linked structures are consistent; the entry count may
    /// lag behind by the one entry a `set` in progress has added.
    spec fn structure_ok(&self) -> bool {
        &&& self.lens_ok()
        &&& self.max_size >= 1
        &&& self.hash_indices@.len() >= 1
        &&& self.list_wf()
        &&& self.index_wf()
        &&& self.free_wf()
        &&& self.keys_unique()
    }

    /// The cache invariant: consistent structures, a true size counter,
    /// and never more entries than the capacity allows.
    pub closed spec fn wf(&self) -> bool {
        &&& self.structure_ok()
        &&& self.total_size == self.order@.len()
        &&& self.total_size <= self.max_size
    }

    /// Creates a cache that holds at most `max_size` entries and hashes
    /// keys into `bucket_count` buckets. Both bounds must be at least 1:
    /// a zero-capacity cache could hold nothing and a zero-bucket index
    /// could address no slot.
    pub fn new(max_size: usize, bucket_count: usize) -> (r: Result<Self, ConfigError>)
        ensures
            match r {
                Ok(c) => {
                    &&& max_size >= 1 && bucket_count >= 1
                    &&& c.wf()
                    &&& c@ == Seq::<(<K as CacheKey>::Model, V)>::empty()
                    &&& c.capacity_spec() == max_size
                    &&& c.bucket_count_spec() == bucket_count
                },
                Err(e) => {
                    &&& max_size == 0 || bucket_count == 0
                    &&& e == (if max_size == 0 {
                        ConfigError::ZeroCapacity
                    } else {
                        ConfigError::ZeroBuckets
                    })
                },
            },
    {
        if max_size == 0 {
            return Err(ConfigError::ZeroCapacity);
        }
        if bucket_count == 0 {
            return Err(ConfigError::ZeroBuckets);
        }
        let mut hash_indices: Vec<Option<usize>> = Vec::new();
        let mut b: usize = 0;
        while b < bucket_count
            invariant
                b <= bucket_count,
                hash_indices@.len() == b,
                forall|i: int| 0 <= i < b ==> hash_indices@[i] == None::<usize>,
            decreases bucket_count - b,
        {
            hash_indices.push(None);
            b = b + 1;
        }
        let c = Self {
            max_size,
            total_size: 0,
            keys: Vec::new(),
            vals: Vec::new(),
            list_prev: Vec::new(),
            list_next: Vec::new(),
            hash_prev: Vec::new(),
            hash_next: Vec::new(),
            list_header: None,
            list_tail: None,
            hash_indices,
            free_slots: Vec::new(),
            order: Ghost(Seq::empty()),
            chains: Ghost(Seq::new(bucket_count as nat, |b: int| Seq::empty())),
        };
        proof {
            assert(c@ =~= Seq::<(<K as CacheKey>::Model, V)>::empty());
            assert forall|b: int| 0 <= b < c.chains@.len() implies #[trigger] c.chain_wf(b) by {
                assert(c.chains@[b] =~= Seq::<usize>::empty());
            }
        }
        Ok(c)
    }

    /// Walks the bucket chain of `key`'s bucket, comparing keys, and
    /// returns the slot of the live entry sharing `key`'s model, if any.
    /// A miss is a normal negative result, not an error.
    #[verifier::rlimit(100)]
    fn find_node_by_key(&self, key: &K) -> (r: Option<usize>)
        requires
            self.structure_ok(),
        ensures
            match r {
                Some(s) => {
                    &&& self.order@.contains(s)
                    &&& (s as int) < self.keys@.len()
                    &&& self.keys@[s as int].key_model() == key.key_model()
                },
                None => !contains_key(self@, key.key_model()),
            },
    {
        let h = key.key_hash();
        let bcount = self.hash_indices.len();
        let b = (h % (bcount as u64)) as usize;
        let ghost ch = self.chains@[b as int];
        proof {
            assert(self.chain_wf(b as int));
        }
        let mut cur = self.hash_indices[b];
        let ghost mut j: int = 0;
        loop
            invariant
                self.structure_ok(),
                0 <= j <= ch.len(),
                (b as int) < self.chains@.len(),
                ch == self.chains@[b as int],
                b as int == self.bucket_of_hash(key.hash_spec()),
                cur == (if j == ch.len() {
                    None::<usize>
                } else {
                    Some(ch[j])
                }),
                forall|jj: int|
                    0 <= jj < j ==> self.keys@[(#[trigger] ch[jj]) as int].key_model()
                        != key.key_model(),
            decreases ch.len() - j,
        {
            proof {
                assert(self.chain_wf(b as int));
            }
            match cur {
                None => {
                    proof {
                        if contains_key(self@, key.key_model()) {
                            let p = choose|p: int|
                                0 <= p < self@.len() && self@[p].0 == key.key_model();
                            let s = self.order@[p];
                            K::lemma_hash_respects_model(&self.keys@[s as int], key);
                            assert(self.chains@[self.bucket_of_slot(
                                (self.order@[p]) as int,
                            )].contains(self.order@[p]));
                            assert(self.bucket_of_slot(s as int) == b as int);
                            let jj = choose|jj: int| 0 <= jj < ch.len() && ch[jj] == s;
                            assert(self.keys@[(ch[jj]) as int].key_model() == key.key_model());
                            assert(false);
                        }
                    }
                    return None;
                },
                Some(s) => {
                    if self.keys[s].key_eq(key) {
                        return Some(s);
                    }
                    cur = self.hash_next[s];
                    proof {
                        j = j + 1;
                    }
                },
            }
        }
    }

    /// Splices the entry in slot `s` out of its place in the recency
    /// list and makes it the head; neighbours are rewired and the tail
    /// is adjusted when `s` was the tail. Payloads and bucket links are
    /// untouched.
    #[verifier::rlimit(100)]
    fn move_node_to_list_head(&mut self, s: usize)
        requires
            old(self).structure_ok(),
            old(self).order@.contains(s),
        ensures
            final(self).structure_ok(),
            ({
                let p = old(self).order@.index_of(s);
                &&& 0 <= p < old(self).order@.len()
                &&& old(self).order@[p] == s
                &&& final(self).order@ == seq![s] + old(self).order@.remove(p)
                &&& final(self)@ == promote_at(old(self)@, p)
            }),
            final(self).keys@ == old(self).keys@,
            final(self).vals@ == old(self).vals@,
            final(self).hash_prev@ == old(self).hash_prev@,
            final(self).hash_next@ == old(self).hash_next@,
            final(self).hash_indices@ == old(self).hash_indices@,
            final(self).chains@ == old(self).chains@,
            final(self).free_slots@ == old(self).free_slots@,
            final(self).total_size == old(self).total_size,
            final(self).max_size == old(self).max_size,
    {
        let ghost ord = self.order@;
        let ghost p = choose|p: int| 0 <= p < ord.len() && ord[p] == s;
        proof {
            assert(0 <= p < ord.len() && ord[p] == s);
            assert(exists|i: int| 0 <= i <= ord.len() - 1 && ord[i] == s);
            let q = ord.index_of(s);
            assert(0 <= q <= ord.len() - 1 && ord[q] == s);
            if p != q {
                assert(ord[p] != ord[q]);
            }
            assert(p == ord.index_of(s));
            lemma_promote_seq(ord, p);
            ord.remove_ensures(p);
        }
        let pr = self.list_prev[s];
        match pr {
            None => {
                proof {
                    if p != 0 {
                        assert(self.list_prev@[(ord[p]) as int] == Some(ord[p - 1]));
                        assert(false);
                    }
                    assert(self.order@ =~= seq![s] + ord.remove(p));
                    assert(self@ =~= promote_at(old(self)@, p));
                }
            },
            Some(prv) => {
                proof {
                    if p == 0 {
                        assert(self.list_prev@[(ord[0]) as int] == None::<usize>);
                        assert(false);
                    }
                    assert(prv == ord[p - 1]);
                }
                let nx = self.list_next[s];
                self.list_next[prv] = nx;
                match nx {
                    Some(nxt) => {
                        proof {
                            assert(nxt == ord[p + 1]);
                        }
                        self.list_prev[nxt] = Some(prv);
                    },
                    None => {
                        proof {
                            assert(p == ord.len() - 1);
                        }
                        self.list_tail = Some(prv);
                    },
                }
                let old_head = self.list_header;
                match old_head {
                    Some(h) => {
                        self.list_prev[h] = Some(s);
                    },
                    None => {
                        proof {
                            assert(false);
                        }
                    },
                }
                self.list_prev[s] = None;
                self.list_next[s] = old_head;
                self.list_header = Some(s);
                proof {
                    self.order@ = seq![s] + ord.remove(p);
                    let no = self.order@;
                    let lp = self.list_prev@;
                    let ln = self.list_next@;
                    let okeys = self.keys@;
                    assert forall|q: int| 1 <= q < no.len() implies no[q] == (if q - 1 < p {
                        ord[q - 1]
                    } else {
                        ord[q]
                    }) by {}
                    // recency links trace the new order
                    assert forall|q: int| 0 <= q < no.len() implies lp[(no[q]) as int] == (if q
                        == 0 {
                        None::<usize>
                    } else {
                        Some(no[q - 1])
                    }) by {
                        if q >= 2 {
                            let r = if q - 1 < p {
                                q - 1
                            } else {
                                q
                            };
                            assert(no[q] == ord[r]);
                            assert(r != p);
                            assert(r != 0);
                        }
                    }
                    assert forall|q: int| 0 <= q < no.len() implies ln[(no[q]) as int] == (if q
                        == no.len() - 1 {
                        None::<usize>
                    } else {
                        Some(no[q + 1])
                    }) by {
                        if q >= 1 {
                            let r = if q - 1 < p {
                                q - 1
                            } else {
                                q
                            };
                            assert(no[q] == ord[r]);
                            assert(r != p);
                            if r == p - 1 {
                                assert(q == p);
                            }
                        }
                    }
                    assert(self.list_wf());
                    // bucket chains and their membership are untouched
                    assert forall|b: int| 0 <= b < self.chains@.len() implies #[trigger] self
                        .chain_wf(b) by {
                        assert(old(self).chain_wf(b));
                        let ch = self.chains@[b];
                        assert forall|j: int| 0 <= j < ch.len() implies self.order@.contains(
                            #[trigger] ch[j],
                        ) by {
                            assert(ord.contains(ch[j]));
                        }
                    }
                    assert forall|q: int| 0 <= q < no.len() implies self.chains@[self
                        .bucket_of_slot((#[trigger] no[q]) as int)].contains(no[q]) by {
                        assert(ord.contains(no[q]));
                        let r = choose|r: int| 0 <= r < ord.len() && ord[r] == no[q];
                        assert(self.chains@[old(self).bucket_of_slot(
                            (old(self).order@[r]) as int,
                        )].contains(old(self).order@[r]));
                    }
                    // free slots and key uniqueness
                    assert forall|i: int| 0 <= i < self.free_slots@.len() implies !self
                        .order@.contains(#[trigger] self.free_slots@[i]) by {
                        if self.order@.contains(self.free_slots@[i]) {
                            assert(ord.contains(self.free_slots@[i]));
                        }
                    }
                    assert forall|q1: int, q2: int| 0 <= q1 < q2 < no.len() implies okeys[(
                    #[trigger] no[q1]) as int].key_model() != okeys[(#[trigger] no[q2]) as int].key_model() by {
                        let r1 = if q1 == 0 {
                            p
                        } else if q1 - 1 < p {
                            q1 - 1
                        } else {
                            q1
                        };
                        let r2 = if q2 == 0 {
                            p
                        } else if q2 - 1 < p {
                            q2 - 1
                        } else {
                            q2
                        };
                        assert(no[q1] == ord[r1]);
                        assert(no[q2] == ord[r2]);
                        assert(r1 != r2);
                        if r1 < r2 {
                            assert(okeys[(ord[r1]) as int].key_model() != okeys[(
                            ord[r2]) as int].key_model());
                        } else {
                            assert(okeys[(ord[r2]) as int].key_model() != okeys[(
                            ord[r1]) as int].key_model());
                        }
                    }
                    assert(self.structure_ok());
                    // the abstraction is the old one with entry p promoted
                    assert(self@ =~= promote_at(old(self)@, p));
                }
            },
        }
    }

    /// After the recency tail is unlinked, the shortened order is still
    /// doubly linked.
    proof fn lemma_tail_unlink_list(pre: Self, post: Self)
        requires
            pre.structure_ok(),
            pre.order@.len() > 0,
            post.keys@.len() == pre.keys@.len(),
            post.list_prev@ == pre.list_prev@,
            post.order@ == pre.order@.drop_last(),
            ({
                let l = pre.order@.len() - 1;
                if l == 0 {
                    &&& post.list_next@ == pre.list_next@
                    &&& post.list_header == None::<usize>
                    &&& post.list_tail == None::<usize>
                } else {
                    &&& post.list_next@ == pre.list_next@.update(
                        (pre.order@[l - 1]) as int,
                        None::<usize>,
                    )
                    &&& post.list_header == pre.list_header
                    &&& post.list_tail == Some(pre.order@[l - 1])
                }
            }),
        ensures
            post.list_wf(),
    {
        let ord = pre.order@;
        let l = ord.len() as int - 1;
        let no = post.order@;
        assert forall|q: int| 0 <= q < no.len() implies post.list_next@[(#[trigger] no[q]) as int]
            == (if q == no.len() - 1 {
            None::<usize>
        } else {
            Some(no[q + 1])
        }) by {
            assert(no[q] == ord[q]);
            if q < no.len() - 1 {
                assert(no[q] != ord[l - 1]);
                assert(no[q] != ord[l]);
            }
        }
        assert forall|q: int| 0 <= q < no.len() implies post.list_prev@[(#[trigger] no[q]) as int]
            == (if q == 0 {
            None::<usize>
        } else {
            Some(no[q - 1])
        }) by {
            assert(no[q] == ord[q]);
        }
    }

    /// The relation between a cache and its successor in which the
    /// recency tail `e` (sitting at position `j` of its bucket chain)
    /// has been unlinked from that chain.
    spec fn tail_unlink_rel(pre: Self, post: Self, j: int) -> bool {
        let l = pre.order@.len() - 1;
        let e = pre.order@[l as int];
        let b = pre.bucket_of_slot(e as int);
        let ch = pre.chains@[b];
        &&& pre.lens_ok()
        &&& pre.hash_indices@.len() >= 1
        &&& pre.order@.len() > 0
        &&& pre.order@.no_duplicates()
        &&& (forall|p: int| 0 <= p < pre.order@.len() ==> (#[trigger] pre.order@[p]) < pre.keys@.len())
        &&& pre.chains@.len() == pre.hash_indices@.len()
        &&& pre.chain_wf(b)
        &&& post.keys@ == pre.keys@
        &&& post.order@ == pre.order@.drop_last()
        &&& 0 <= j < ch.len() && ch[j] == e
        &&& post.chains@ == pre.chains@.update(b, ch.remove(j))
        &&& post.hash_next@ == (if j > 0 {
            pre.hash_next@.update(
                (ch[j - 1]) as int,
                if j == ch.len() - 1 {
                    None::<usize>
                } else {
                    Some(ch[j + 1])
                },
            )
        } else {
            pre.hash_next@
        })
        &&& post.hash_prev@ == (if j < ch.len() - 1 {
            pre.hash_prev@.update(
                (ch[j + 1]) as int,
                if j == 0 {
                    None::<usize>
                } else {
                    Some(ch[j - 1])
                },
            )
        } else {
            pre.hash_prev@
        })
        &&& post.hash_indices@ == (if j == 0 {
            pre.hash_indices@.update(
                b,
                if j == ch.len() - 1 {
                    None::<usize>
                } else {
                    Some(ch[j + 1])
                },
            )
        } else {
            pre.hash_indices@
        })
    }

    /// One bucket of the successor cache is still well formed.
    proof fn lemma_tail_unlink_chain_one(pre: Self, post: Self, j: int, b2: int)
        requires
            Self::tail_unlink_rel(pre, post, j),
            0 <= b2 < post.chains@.len(),
            pre.chain_wf(b2),
        ensures
            post.chain_wf(b2),
    {
        let ord = pre.order@;
        let l = ord.len() as int - 1;
        let e = ord[l];
        let b = pre.bucket_of_slot(e as int);
        let ch = pre.chains@[b];
        let no = post.order@;
        let nch = ch.remove(j);
        ch.remove_ensures(j);
        assert(post.hash_indices@.len() == pre.hash_indices@.len());
        let ch2 = post.chains@[b2];
        if b2 != b {
            assert(ch2 == pre.chains@[b2]);
            assert forall|j2: int| 0 <= j2 < ch2.len() implies post.order@.contains(
                #[trigger] ch2[j2],
            ) by {
                assert(ord.contains(ch2[j2]));
                let r = choose|r: int| 0 <= r < ord.len() && ord[r] == ch2[j2];
                assert(pre.bucket_of_slot((ch2[j2]) as int) == b2);
                assert(ch2[j2] != e);
                assert(r != l);
                assert(no[r] == ch2[j2]);
            }
            assert forall|j2: int| 0 <= j2 < ch2.len() implies ch2[j2] != e && (j > 0 ==> ch2[j2]
                != ch[j - 1]) && (j < ch.len() - 1 ==> ch2[j2] != ch[j + 1]) by {
                assert(pre.bucket_of_slot((ch2[j2]) as int) == b2);
                if j > 0 {
                    assert(pre.bucket_of_slot((ch[j - 1]) as int) == b);
                }
                if j < ch.len() - 1 {
                    assert(pre.bucket_of_slot((ch[j + 1]) as int) == b);
                }
            }
        } else {
            assert(ch2 == nch);
            assert forall|i: int| 0 <= i < nch.len() implies #[trigger] nch[i] == (if i < j {
                ch[i]
            } else {
                ch[i + 1]
            }) by {}
            assert forall|i1: int, i2: int| 0 <= i1 < i2 < nch.len() implies nch[i1] != nch[i2] by {
                let r1 = if i1 < j {
                    i1
                } else {
                    i1 + 1
                };
                let r2 = if i2 < j {
                    i2
                } else {
                    i2 + 1
                };
                assert(nch[i1] == ch[r1]);
                assert(nch[i2] == ch[r2]);
                assert(r1 != r2);
            }
            assert forall|i: int| 0 <= i < nch.len() implies post.order@.contains(
                #[trigger] nch[i],
            ) by {
                let r = if i < j {
                    i
                } else {
                    i + 1
                };
                assert(nch[i] == ch[r]);
                assert(ord.contains(ch[r]));
                let rr = choose|rr: int| 0 <= rr < ord.len() && ord[rr] == ch[r];
                assert(ch[r] != e);
                assert(rr != l);
                assert(no[rr] == ch[r]);
            }
            assert forall|i: int| 0 <= i < nch.len() implies post.hash_prev@[(
            #[trigger] nch[i]) as int] == (if i == 0 {
                None::<usize>
            } else {
                Some(nch[i - 1])
            }) by {
                let r = if i < j {
                    i
                } else {
                    i + 1
                };
                assert(nch[i] == ch[r]);
                assert(r != j);
            }
            assert forall|i: int| 0 <= i < nch.len() implies post.hash_next@[(
            #[trigger] nch[i]) as int] == (if i == nch.len() - 1 {
                None::<usize>
            } else {
                Some(nch[i + 1])
            }) by {
                let r = if i < j {
                    i
                } else {
                    i + 1
                };
                assert(nch[i] == ch[r]);
                assert(r != j);
            }
        }
    }

    /// One surviving entry of the successor cache still sits on the
    /// chain of its own bucket.
    proof fn lemma_tail_membership_one(pre: Self, post: Self, j: int, q: int)
        requires
            Self::tail_unlink_rel(pre, post, j),
            0 <= q < post.order@.len(),
            pre.chains@[pre.bucket_of_slot((pre.order@[q]) as int)].contains(pre.order@[q]),
        ensures
            post.chains@[post.bucket_of_slot((post.order@[q]) as int)].contains(post.order@[q]),
    {
        let ord = pre.order@;
        let l = ord.len() as int - 1;
        let e = ord[l];
        let b = pre.bucket_of_slot(e as int);
        let ch = pre.chains@[b];
        let no = post.order@;
        let nch = ch.remove(j);
        ch.remove_ensures(j);
        assert(no[q] == ord[q]);
        let b2 = pre.bucket_of_slot((ord[q]) as int);
        assert(post.bucket_of_slot((no[q]) as int) == b2);
        if b2 == b {
            let jj = choose|jj: int| 0 <= jj < ch.len() && ch[jj] == ord[q];
            assert(ord[q] != e);
            assert(jj != j);
            if jj < j {
                assert(nch[jj] == ord[q]);
            } else {
                assert(nch[jj - 1] == ord[q]);
            }
        }
    }

    /// After the recency tail is unlinked from its bucket chain, every
    /// chain is still well formed and every surviving entry still sits
    /// on the chain of its own bucket.
    proof fn lemma_tail_unlink_chain(pre: Self, post: Self, j: int)
        requires
            Self::tail_unlink_rel(pre, post, j),
            pre.index_wf(),
        ensures
            post.index_wf(),
    {
        assert(post.chains@.len() == post.hash_indices@.len());
        assert forall|b2: int| 0 <= b2 < post.chains@.len() implies #[trigger] post.chain_wf(
            b2,
        ) by {
            Self::lemma_tail_unlink_chain_one(pre, post, j, b2);
        }
        assert forall|q: int| 0 <= q < post.order@.len() implies post.chains@[post.bucket_of_slot(
            (#[trigger] post.order@[q]) as int,
        )].contains(post.order@[q]) by {
            Self::lemma_tail_membership_one(pre, post, j, q);
        }
    }

    /// Unlinks the least-recently-used entry (the recency tail) from
    /// both the recency list and its bucket chain, and returns its slot
    /// to the free list. Adjusting the size counter is the caller's
    /// business.
    #[verifier::rlimit(100)]
    fn remove_list_tail(&mut self)
        requires
            old(self).structure_ok(),
            old(self).order@.len() > 0,
        ensures
            final(self).structure_ok(),
            final(self).order@ == old(self).order@.drop_last(),
            final(self)@ == old(self)@.drop_last(),
            final(self).keys@ == old(self).keys@,
            final(self).vals@ == old(self).vals@,
            final(self).hash_indices@.len() == old(self).hash_indices@.len(),
            final(self).total_size == old(self).total_size,
            final(self).max_size == old(self).max_size,
    {
        let ghost ord = self.order@;
        let ghost l = ord.len() as int - 1;
        let e = self.list_tail.unwrap();
        proof {
            assert(e == ord[l]);
        }
        // unlink from the recency list
        let pr = self.list_prev[e];
        match pr {
            Some(prv) => {
                proof {
                    if l == 0 {
                        assert(self.list_prev@[(ord[0]) as int] == None::<usize>);
                        assert(false);
                    }
                    assert(prv == ord[l - 1]);
                }
                self.list_next[prv] = None;
                self.list_tail = Some(prv);
            },
            None => {
                proof {
                    if l != 0 {
                        assert(self.list_prev@[(ord[l]) as int] == Some(ord[l - 1]));
                        assert(false);
                    }
                }
                self.list_tail = None;
                self.list_header = None;
            },
        }
        // unlink from its bucket chain
        let ghost b = self.bucket_of_slot(e as int);
        let ghost ch = self.chains@[b];
        proof {
            assert(self.chains@[old(self).bucket_of_slot((old(self).order@[l]) as int)].contains(
                old(self).order@[l],
            ));
            assert(old(self).chain_wf(b));
        }
        let ghost j = choose|j: int| 0 <= j < ch.len() && ch[j] == e;
        proof {
            assert(0 <= j < ch.len() && ch[j] == e);
        }
        let hp = self.hash_prev[e];
        let hn = self.hash_next[e];
        proof {
            assert(hp == (if j == 0 {
                None::<usize>
            } else {
                Some(ch[j - 1])
            }));
            assert(hn == (if j == ch.len() - 1 {
                None::<usize>
            } else {
                Some(ch[j + 1])
            }));
        }
        match hp {
            Some(hpv) => {
                self.hash_next[hpv] = hn;
            },
            None => {
                let hkey = self.keys[e].key_hash();
                let bb = (hkey % (self.hash_indices.len() as u64)) as usize;
                proof {
                    assert(bb as int == b);
                }
                self.hash_indices[bb] = hn;
            },
        }
        if let Some(hnx) = hn {
            self.hash_prev[hnx] = hp;
        }
        self.free_slots.push(e);
        proof {
            self.order@ = ord.drop_last();
            self.chains@ = old(self).chains@.update(b, ch.remove(j));
            let no = self.order@;
            Self::lemma_tail_unlink_list(*old(self), *self);
            Self::lemma_tail_unlink_chain(*old(self), *self, j);
            // the freed slot is dead; the free list is still duplicate-free
            assert forall|i: int| 0 <= i < self.free_slots@.len() implies !self.order@.contains(
                #[trigger] self.free_slots@[i],
            ) by {
                if self.order@.contains(self.free_slots@[i]) {
                    let r = choose|r: int| 0 <= r < no.len() && no[r] == self.free_slots@[i];
                    assert(ord[r] == self.free_slots@[i]);
                    if i < old(self).free_slots@.len() {
                        assert(ord.contains(self.free_slots@[i]));
                        assert(false);
                    } else {
                        assert(self.free_slots@[i] == e);
                        assert(false);
                    }
                }
            }
            assert(self.free_slots@.no_duplicates()) by {
                assert forall|i1: int, i2: int|
                    0 <= i1 < i2 < self.free_slots@.len() implies self.free_slots@[i1]
                    != self.free_slots@[i2] by {
                    if i2 == self.free_slots@.len() - 1 {
                        assert(self.free_slots@[i2] == e);
                        if self.free_slots@[i1] == e {
                            assert(ord.contains(e));
                            assert(false);
                        }
                    }
                }
            }
            assert forall|q1: int, q2: int| 0 <= q1 < q2 < no.len() implies self.keys@[(
            #[trigger] no[q1]) as int].key_model() != self.keys@[(#[trigger] no[q2]) as int].key_model() by {
                assert(no[q1] == ord[q1]);
                assert(no[q2] == ord[q2]);
            }
            assert(self.structure_ok());
            assert(self@ =~= old(self)@.drop_last());
        }
    }

    /// A cache whose structures are consistent binds each key at most
    /// once.
    pub proof fn lemma_view_distinct(&self)
        requires
            self.wf(),
        ensures
            distinct_keys(self@),
    {
        assert forall|i: int, j: int| 0 <= i < j < self@.len() implies (#[trigger] self@[i]).0 != (
        #[trigger] self@[j]).0 by {
            assert(self.keys@[(self.order@[i]) as int].key_model() != self.keys@[(
            self.order@[j]) as int].key_model());
        }
    }

    /// Rewriting the payload of a dead slot, or growing every column by
    /// one row, disturbs neither the structures nor the abstraction.
    proof fn lemma_alloc_preserves(pre: Self, mid: Self, s: usize)
        requires
            pre.structure_ok(),
            !pre.order@.contains(s),
            (s as int) < mid.keys@.len(),
            mid.lens_ok(),
            mid.keys@.len() >= pre.keys@.len(),
            forall|i: int|
                0 <= i < pre.keys@.len() && i != s as int ==> #[trigger] mid.keys@[i]
                    == pre.keys@[i],
            forall|i: int|
                0 <= i < pre.keys@.len() && i != s as int ==> #[trigger] mid.vals@[i]
                    == pre.vals@[i],
            forall|i: int|
                0 <= i < pre.keys@.len() && i != s as int ==> #[trigger] mid.list_prev@[i]
                    == pre.list_prev@[i],
            forall|i: int|
                0 <= i < pre.keys@.len() && i != s as int ==> #[trigger] mid.list_next@[i]
                    == pre.list_next@[i],
            forall|i: int|
                0 <= i < pre.keys@.len() && i != s as int ==> #[trigger] mid.hash_prev@[i]
                    == pre.hash_prev@[i],
            forall|i: int|
                0 <= i < pre.keys@.len() && i != s as int ==> #[trigger] mid.hash_next@[i]
                    == pre.hash_next@[i],
            mid.list_header == pre.list_header,
            mid.list_tail == pre.list_tail,
            mid.hash_indices@ == pre.hash_indices@,
            mid.order@ == pre.order@,
            mid.chains@ == pre.chains@,
            mid.max_size == pre.max_size,
            mid.free_slots@.is_prefix_of(pre.free_slots@),
        ensures
            mid.structure_ok(),
            mid@ == pre@,
    {
        let ord = pre.order@;
        assert forall|p: int| 0 <= p < ord.len() implies (#[trigger] ord[p]) != s by {}
        assert forall|b: int| 0 <= b < mid.chains@.len() implies #[trigger] mid.chain_wf(b) by {
            assert(pre.chain_wf(b));
            let ch = mid.chains@[b];
            assert forall|j: int| 0 <= j < ch.len() implies (#[trigger] ch[j]) != s by {
                assert(ord.contains(ch[j]));
                let r = choose|r: int| 0 <= r < ord.len() && ord[r] == ch[j];
            }
            assert forall|j: int| 0 <= j < ch.len() implies mid.bucket_of_slot(
                (#[trigger] ch[j]) as int,
            ) == b by {
                assert(ch[j] != s);
                assert(mid.keys@[(ch[j]) as int] == pre.keys@[(ch[j]) as int]);
            }
        }
        assert(mid.list_wf());
        assert(mid.index_wf());
        assert(mid.free_wf());
        assert(mid.keys_unique());
        assert(mid@ =~= pre@);
    }

    /// Linking a fresh slot `s` at the head of the recency list and at
    /// the head of its bucket chain yields consistent structures again,
    /// provided `s`'s key is not yet bound.
    #[verifier::rlimit(100)]
    proof fn lemma_insert_front(mid: Self, post: Self, s: usize, b: int)
        requires
            mid.structure_ok(),
            !mid.order@.contains(s),
            !mid.free_slots@.contains(s),
            (s as int) < mid.keys@.len(),
            b == mid.bucket_of_slot(s as int),
            forall|p: int|
                0 <= p < mid.order@.len() ==> mid.keys@[(#[trigger] mid.order@[p]) as int].key_model()
                    != mid.keys@[s as int].key_model(),
            post.keys@ == mid.keys@,
            post.vals@ == mid.vals@,
            post.free_slots@ == mid.free_slots@,
            post.max_size == mid.max_size,
            post.order@ == seq![s] + mid.order@,
            post.chains@ == mid.chains@.update(b, seq![s] + mid.chains@[b]),
            post.hash_indices@ == mid.hash_indices@.update(b, Some(s)),
            post.list_header == Some(s),
            post.list_tail == (if mid.order@.len() == 0 {
                Some(s)
            } else {
                mid.list_tail
            }),
            post.list_prev@ == (if mid.order@.len() == 0 {
                mid.list_prev@
            } else {
                mid.list_prev@.update((mid.order@[0]) as int, Some(s))
            }).update(s as int, None::<usize>),
            post.list_next@ == mid.list_next@.update(
                s as int,
                (if mid.order@.len() == 0 {
                    None::<usize>
                } else {
                    Some(mid.order@[0])
                }),
            ),
            post.hash_prev@ == (if mid.chains@[b].len() == 0 {
                mid.hash_prev@
            } else {
                mid.hash_prev@.update((mid.chains@[b][0]) as int, Some(s))
            }).update(s as int, None::<usize>),
            post.hash_next@ == mid.hash_next@.update(
                s as int,
                (if mid.chains@[b].len() == 0 {
                    None::<usize>
                } else {
                    Some(mid.chains@[b][0])
                }),
            ),
        ensures
            post.structure_ok(),
    {
        let ord = mid.order@;
        let no = post.order@;
        let ch = mid.chains@[b];
        let nch = seq![s] + ch;
        assert(mid.chain_wf(b));
        assert forall|p: int| 0 <= p < ord.len() implies (#[trigger] ord[p]) != s by {}
        assert forall|j: int| 0 <= j < ch.len() implies (#[trigger] ch[j]) != s by {
            assert(ord.contains(ch[j]));
            let r = choose|r: int| 0 <= r < ord.len() && ord[r] == ch[j];
        }
        // the recency list gained `s` at its head
        assert forall|q: int| 0 <= q < no.len() implies post.list_prev@[(#[trigger] no[q]) as int]
            == (if q == 0 {
            None::<usize>
        } else {
            Some(no[q - 1])
        }) by {
            if q >= 2 {
                assert(no[q] == ord[q - 1]);
                assert(no[q] != s);
                assert(no[q] != ord[0]);
            }
        }
        assert forall|q: int| 0 <= q < no.len() implies post.list_next@[(#[trigger] no[q]) as int]
            == (if q == no.len() - 1 {
            None::<usize>
        } else {
            Some(no[q + 1])
        }) by {
            if q >= 1 {
                assert(no[q] == ord[q - 1]);
                assert(no[q] != s);
            }
        }
        assert(no.no_duplicates());
        assert(post.list_wf());
        // the bucket chains gained `s` at the head of chain `b`
        assert(post.hash_indices@.len() == mid.hash_indices@.len());
        assert forall|b2: int| 0 <= b2 < post.chains@.len() implies #[trigger] post.chain_wf(
            b2,
        ) by {
            assert(mid.chain_wf(b2));
            if b2 != b {
                let ch2 = post.chains@[b2];
                assert(ch2 == mid.chains@[b2]);
                assert forall|j2: int| 0 <= j2 < ch2.len() implies (#[trigger] ch2[j2]) != s && (
                ch.len() > 0 ==> ch2[j2] != ch[0]) && post.order@.contains(ch2[j2]) by {
                    assert(ord.contains(ch2[j2]));
                    let r = choose|r: int| 0 <= r < ord.len() && ord[r] == ch2[j2];
                    assert(no[r + 1] == ch2[j2]);
                    assert(mid.bucket_of_slot((ch2[j2]) as int) == b2);
                    if ch.len() > 0 {
                        assert(mid.bucket_of_slot((ch[0]) as int) == b);
                    }
                }
            } else {
                assert(post.chains@[b2] == nch);
                assert forall|j2: int| 0 <= j2 < nch.len() implies (if j2 == 0 {
                    nch[j2] == s
                } else {
                    nch[j2] == ch[j2 - 1]
                }) by {}
                assert(nch.no_duplicates());
                assert forall|j2: int| 0 <= j2 < nch.len() implies post.order@.contains(
                    #[trigger] nch[j2],
                ) by {
                    if j2 == 0 {
                        assert(no[0] == s);
                    } else {
                        assert(ord.contains(ch[j2 - 1]));
                        let r = choose|r: int| 0 <= r < ord.len() && ord[r] == ch[j2 - 1];
                        assert(no[r + 1] == ch[j2 - 1]);
                    }
                }
                assert forall|j2: int| 0 <= j2 < nch.len() implies post.bucket_of_slot(
                    (#[trigger] nch[j2]) as int,
                ) == b2 by {
                    if j2 > 0 {
                        assert(mid.bucket_of_slot((ch[j2 - 1]) as int) == b);
                    }
                }
                assert forall|j2: int| 0 <= j2 < nch.len() implies post.hash_prev@[(
                #[trigger] nch[j2]) as int] == (if j2 == 0 {
                    None::<usize>
                } else {
                    Some(nch[j2 - 1])
                }) by {
                    if j2 >= 2 {
                        assert(nch[j2] == ch[j2 - 1]);
                        assert(nch[j2] != s);
                        assert(nch[j2] != ch[0]);
                    }
                }
                assert forall|j2: int| 0 <= j2 < nch.len() implies post.hash_next@[(
                #[trigger] nch[j2]) as int] == (if j2 == nch.len() - 1 {
                    None::<usize>
                } else {
                    Some(nch[j2 + 1])
                }) by {
                    if j2 >= 1 {
                        assert(nch[j2] == ch[j2 - 1]);
                        assert(nch[j2] != s);
                    }
                }
            }
        }
        // every live entry still sits on the chain of its bucket
        assert forall|q: int| 0 <= q < no.len() implies post.chains@[post.bucket_of_slot(
            (#[trigger] no[q]) as int,
        )].contains(no[q]) by {
            if q == 0 {
                assert(nch[0] == s);
            } else {
                let x = ord[q - 1];
                assert(mid.chains@[mid.bucket_of_slot((mid.order@[q - 1]) as int)].contains(
                    mid.order@[q - 1],
                ));
                let bx = mid.bucket_of_slot(x as int);
                assert(post.bucket_of_slot(x as int) == bx);
                if bx == b {
                    let jj = choose|jj: int| 0 <= jj < ch.len() && ch[jj] == x;
                    assert(nch[jj + 1] == x);
                } else {
                    assert(post.chains@[bx] == mid.chains@[bx]);
                }
            }
        }
        assert(post.index_wf());
        // the free list is untouched and `s` is no longer free
        assert forall|i: int| 0 <= i < post.free_slots@.len() implies !post.order@.contains(
            #[trigger] post.free_slots@[i],
        ) by {
            if post.order@.contains(post.free_slots@[i]) {
                let r = choose|r: int| 0 <= r < no.len() && no[r] == post.free_slots@[i];
                if r == 0 {
                    assert(mid.free_slots@.contains(s));
                } else {
                    assert(ord[r - 1] == post.free_slots@[i]);
                    assert(ord.contains(post.free_slots@[i]));
                }
                assert(false);
            }
        }
        assert(post.free_wf());
        // the fresh key is bound once
        assert forall|q1: int, q2: int| 0 <= q1 < q2 < no.len() implies post.keys@[(
        #[trigger] no[q1]) as int].key_model() != post.keys@[(#[trigger] no[q2]) as int].key_model() by {
            if q1 == 0 {
                assert(no[q2] == ord[q2 - 1]);
            } else {
                assert(no[q1] == ord[q1 - 1]);
                assert(no[q2] == ord[q2 - 1]);
            }
        }
        assert(post.keys_unique());
    }

    /// Two caches that agree on every structural field have the same
    /// structural health: rewriting a value or the size counter alone
    /// cannot break the links.
    proof fn lemma_same_structure(pre: Self, post: Self)
        requires
            pre.structure_ok(),
            post.keys@ == pre.keys@,
            post.list_prev@ == pre.list_prev@,
            post.list_next@ == pre.list_next@,
            post.hash_prev@ == pre.hash_prev@,
            post.hash_next@ == pre.hash_next@,
            post.list_header == pre.list_header,
            post.list_tail == pre.list_tail,
            post.hash_indices@ == pre.hash_indices@,
            post.free_slots@ == pre.free_slots@,
            post.order@ == pre.order@,
            post.chains@ == pre.chains@,
            post.max_size == pre.max_size,
            post.vals@.len() == pre.vals@.len(),
        ensures
            post.structure_ok(),
    {
        assert forall|b: int| 0 <= b < post.chains@.len() implies #[trigger] post.chain_wf(b) by {
            assert(pre.chain_wf(b));
        }
        assert(post.lens_ok());
        assert(post.list_wf());
        assert(post.index_wf());
        assert(post.free_wf());
        assert(post.keys_unique());
    }

    /// Finds a home for a new entry: a reclaimed slot from the free
    /// list when one exists, a fresh row appended to every column
    /// otherwise. The slot is dead: nothing is linked yet.
    fn allocate_slot(&mut self, key: K, val: V) -> (s: usize)
        requires
            old(self).structure_ok(),
        ensures
            final(self).structure_ok(),
            (s as int) < final(self).keys@.len(),
            !final(self).order@.contains(s),
            !final(self).free_slots@.contains(s),
            final(self).keys@[s as int] == key,
            final(self).vals@[s as int] == val,
            final(self).keys@.len() == final(self).vals@.len(),
            final(self).order@ == old(self).order@,
            final(self).chains@ == old(self).chains@,
            final(self).hash_indices@ == old(self).hash_indices@,
            final(self).list_header == old(self).list_header,
            final(self).list_tail == old(self).list_tail,
            final(self).max_size == old(self).max_size,
            final(self).total_size == old(self).total_size,
            forall|p: int|
                0 <= p < old(self).order@.len() ==> final(self).keys@[(#[trigger] old(
                    self,
                ).order@[p]) as int] == old(self).keys@[(old(self).order@[p]) as int],
            final(self)@ == old(self)@,
    {
        let ghost pre = *old(self);
        let s = match self.free_slots.pop() {
            Some(f) => {
                proof {
                    assert(!pre.order@.contains(f));
                    assert((f as int) < self.keys@.len());
                    if self.free_slots@.contains(f) {
                        let i = choose|i: int|
                            0 <= i < self.free_slots@.len() && self.free_slots@[i] == f;
                        assert(pre.free_slots@[i] == pre.free_slots@[pre.free_slots@.len() - 1]);
                        assert(false);
                    }
                }
                self.keys[f] = key;
                self.vals[f] = val;
                f
            },
            None => {
                let f = self.keys.len();
                proof {
                    if pre.order@.contains(f) {
                        let r = choose|r: int| 0 <= r < pre.order@.len() && pre.order@[r] == f;
                        assert(false);
                    }
                }
                self.keys.push(key);
                self.vals.push(val);
                self.list_prev.push(None);
                self.list_next.push(None);
                self.hash_prev.push(None);
                self.hash_next.push(None);
                f
            },
        };
        proof {
            assert(self.free_slots@.is_prefix_of(pre.free_slots@)) by {
                assert(self.free_slots@ =~= pre.free_slots@.subrange(
                    0,
                    self.free_slots@.len() as int,
                ));
            }
            Self::lemma_alloc_preserves(pre, *self, s);
            assert forall|p: int|
                0 <= p < pre.order@.len() implies self.keys@[(#[trigger] pre.order@[p]) as int]
                == pre.keys@[(pre.order@[p]) as int] by {
                assert(pre.order@[p] != s);
            }
        }
        s
    }

    /// Links the dead slot `s` in at the head of the recency list and
    /// at the head of bucket `b_idx`'s chain, making it live.
    #[verifier::rlimit(100)]
    fn link_front(&mut self, s: usize, b_idx: usize)
        requires
            old(self).structure_ok(),
            !old(self).order@.contains(s),
            !old(self).free_slots@.contains(s),
            (s as int) < old(self).keys@.len(),
            (b_idx as int) == old(self).bucket_of_slot(s as int),
            forall|p: int|
                0 <= p < old(self).order@.len() ==> old(self).keys@[(#[trigger] old(
                    self,
                ).order@[p]) as int].key_model() != old(self).keys@[s as int].key_model(),
        ensures
            final(self).structure_ok(),
            final(self).order@ == seq![s] + old(self).order@,
            final(self).keys@ == old(self).keys@,
            final(self).vals@ == old(self).vals@,
            final(self).total_size == old(self).total_size,
            final(self).max_size == old(self).max_size,
            final(self).hash_indices@.len() == old(self).hash_indices@.len(),
            final(self)@ == seq![
                (old(self).keys@[s as int].key_model(), old(self).vals@[s as int]),
            ] + old(self)@,
    {
        let ghost mid = *old(self);
        proof {
            assert((b_idx as int) < self.hash_indices@.len());
        }
        // make the new entry the recency head
        let old_head = self.list_header;
        match old_head {
            Some(h0) => {
                self.list_prev[h0] = Some(s);
            },
            None => {
                self.list_tail = Some(s);
            },
        }
        self.list_prev[s] = None;
        self.list_next[s] = old_head;
        self.list_header = Some(s);
        // file it at the head of its bucket chain
        let old_chain_head = self.hash_indices[b_idx];
        match old_chain_head {
            Some(c0) => {
                proof {
                    assert(mid.chain_wf(b_idx as int));
                    assert(c0 == mid.chains@[b_idx as int][0]);
                    assert(mid.order@.contains(c0));
                }
                self.hash_prev[c0] = Some(s);
            },
            None => {
            },
        }
        self.hash_next[s] = old_chain_head;
        self.hash_prev[s] = None;
        self.hash_indices[b_idx] = Some(s);
        proof {
            self.order@ = seq![s] + mid.order@;
            self.chains@ = mid.chains@.update(b_idx as int, seq![s] + mid.chains@[b_idx as int]);
            assert(mid.chain_wf(b_idx as int));
            Self::lemma_insert_front(mid, *self, s, b_idx as int);
            assert(self@ =~= seq![(mid.keys@[s as int].key_model(), mid.vals@[s as int])] + mid@);
        }
    }

    /// Settles the size bookkeeping after one entry was linked in:
    /// when the cache was already full the recency tail is evicted,
    /// otherwise the counter grows.
    #[verifier::rlimit(100)]
    #[verifier::spinoff_prover]
    fn enforce_capacity(&mut self)
        requires
            old(self).structure_ok(),
            old(self).order@.len() == old(self).total_size + 1,
            old(self).total_size <= old(self).max_size,
        ensures
            final(self).wf(),
            final(self).capacity_spec() == old(self).capacity_spec(),
            final(self).bucket_count_spec() == old(self).bucket_count_spec(),
            old(self)@.len() > old(self).max_size ==> final(self)@ == old(self)@.drop_last(),
            old(self)@.len() <= old(self).max_size ==> final(self)@ == old(self)@,
    {
        if self.total_size >= self.max_size {
            proof {
                assert(old(self)@.len() == old(self).order@.len());
                assert(old(self)@.len() > old(self).max_size);
            }
            self.remove_list_tail();
        } else {
            let ghost linked = *self;
            self.total_size = self.total_size + 1;
            proof {
                Self::lemma_same_structure(linked, *self);
            }
        }
    }

    /// Inserts an entry for a key that is not yet bound: a slot is
    /// allocated, linked at the recency head and at the head of its
    /// bucket chain, and the recency tail is evicted when the cache was
    /// already full.
    #[verifier::rlimit(100)]
    fn insert_absent(&mut self, key: K, val: V)
        requires
            old(self).wf(),
            !contains_key(old(self)@, key.key_model()),
        ensures
            final(self).wf(),
            final(self)@ == after_set(
                old(self)@,
                key.key_model(),
                val,
                old(self).capacity_spec(),
            ),
            final(self).capacity_spec() == old(self).capacity_spec(),
            final(self).bucket_count_spec() == old(self).bucket_count_spec(),
    {
        let ghost pre = *old(self);
        let h = key.key_hash();
        let b_idx = (h % (self.hash_indices.len() as u64)) as usize;
        let s = self.allocate_slot(key, val);
        proof {
            assert(b_idx as int == self.bucket_of_slot(s as int));
            assert forall|p: int|
                0 <= p < self.order@.len() implies self.keys@[(
            #[trigger] self.order@[p]) as int].key_model() != self.keys@[s as int].key_model() by {
                if self.keys@[(self.order@[p]) as int].key_model() == key.key_model() {
                    assert(pre@[p].0 == key.key_model());
                    assert(contains_key(pre@, key.key_model()));
                    assert(false);
                }
            }
        }
        self.link_front(s, b_idx);
        proof {
            assert(self@ =~= seq![(key.key_model(), val)] + pre@);
        }
        let ghost linked = *self;
        self.enforce_capacity();
        proof {
            if pre@.len() >= pre.max_size {
                assert(linked@ =~= seq![(key.key_model(), val)] + pre@);
                assert(self@ =~= seq![(key.key_model(), val)] + pre@.drop_last());
            }
            assert(self@ == after_set(pre@, key.key_model(), val, pre.capacity_spec()));
        }
    }

    /// Binds `val` to `key`. A present key is overwritten and promoted
    /// to most-recently-used; an absent key is inserted at the head,
    /// evicting the least-recently-used entry when the cache was
    /// already full. The size never changes on an overwrite and never
    /// exceeds the capacity.
    #[verifier::rlimit(100)]
    pub fn set(&mut self, key: K, val: V)
        requires
            old(self).wf(),
        ensures
            final(self).wf(),
            final(self)@ == after_set(
                old(self)@,
                key.key_model(),
                val,
                old(self).capacity_spec(),
            ),
            final(self).capacity_spec() == old(self).capacity_spec(),
            final(self).bucket_count_spec() == old(self).bucket_count_spec(),
    {
        let found = self.find_node_by_key(&key);
        match found {
            Some(s) => {
                let ghost p = old(self).order@.index_of(s);
                self.move_node_to_list_head(s);
                proof {
                    assert(self.order@[0] == s);
                    assert((s as int) < self.vals@.len());
                }
                let ghost moved = *self;
                self.vals[s] = val;
                proof {
                    Self::lemma_same_structure(moved, *self);
                    assert forall|q: int| 1 <= q < self.order@.len() implies (
                    #[trigger] self.order@[q]) != s by {}
                    old(self).lemma_view_distinct();
                    lemma_key_index_at(old(self)@, p);
                    assert(old(self)@[p].0 == key.key_model());
                    assert(contains_key(old(self)@, key.key_model()));
                    assert(key_index(old(self)@, key.key_model()) == p);
                    assert(self@ =~= after_set(
                        old(self)@,
                        key.key_model(),
                        val,
                        old(self).capacity_spec(),
                    ));
                }
            },
            None => {
                self.insert_absent(key, val);
            },
        }
    }

    /// Looks `key` up. On a hit the entry is promoted to
    /// most-recently-used and a clone of its value is returned; on a
    /// miss, `None` comes back and nothing whatsoever changes.
    pub fn try_get(&mut self, key: &K) -> (r: Option<V>) where V: Clone
        requires
            old(self).wf(),
        ensures
            final(self).wf(),
            final(self)@ == after_get(old(self)@, key.key_model()),
            final(self).capacity_spec() == old(self).capacity_spec(),
            final(self).bucket_count_spec() == old(self).bucket_count_spec(),
            match r {
                Some(v) => contains_key(old(self)@, key.key_model()) && cloned(
                    old(self)@[key_index(old(self)@, key.key_model())].1,
                    v,
                ),
                None => !contains_key(old(self)@, key.key_model()) && *final(self) == *old(self),
            },
    {
        match self.find_node_by_key(key) {
            Some(s) => {
                let ghost p = old(self).order@.index_of(s);
                self.move_node_to_list_head(s);
                let v = self.vals[s].clone();
                proof {
                    old(self).lemma_view_distinct();
                    lemma_key_index_at(old(self)@, p);
                    assert(self@ == promote_at(old(self)@, p));
                    assert(self@ == after_get(old(self)@, key.key_model()));
                    assert(cloned(old(self)@[p].1, v));
                }
                Some(v)
            },
            None => None,
        }
    }

    /// Looks `key` up. On a hit the entry is promoted to
    /// most-recently-used and `then` is called with a borrow of its
    /// value; on a miss `then` is never called and nothing changes.
    pub fn get<F: Fn(&V)>(&mut self, key: &K, then: F)
        requires
            old(self).wf(),
            forall|v: &V| call_requires(then, (v,)),
        ensures
            final(self).wf(),
            final(self)@ == after_get(old(self)@, key.key_model()),
            final(self).capacity_spec() == old(self).capacity_spec(),
            final(self).bucket_count_spec() == old(self).bucket_count_spec(),
            !contains_key(old(self)@, key.key_model()) ==> *final(self) == *old(self),
    {
        match self.find_node_by_key(key) {
            Some(s) => {
                let ghost p = old(self).order@.index_of(s);
                self.move_node_to_list_head(s);
                proof {
                    old(self).lemma_view_distinct();
                    lemma_key_index_at(old(self)@, p);
                    assert(self@ == after_get(old(self)@, key.key_model()));
                    assert((s as int) < self.vals@.len());
                }
                then(&self.vals[s]);
            },
            None => {
            },
        }
    }

    /// The keys currently held, from most- to least-recently used, by
    /// walking the recency links from the head.
    pub fn recency_keys(&self) -> (ks: Vec<K>)
        requires
            self.wf(),
        ensures
            ks@.len() == self@.len(),
            forall|i: int| 0 <= i < ks@.len() ==> (#[trigger] ks@[i]).key_model() == self@[i].0,
    {
        let ghost ord = self.order@;
        let mut ks: Vec<K> = Vec::new();
        let mut cur = self.list_header;
        let ghost mut q: int = 0;
        loop
            invariant
                self.wf(),
                ord == self.order@,
                0 <= q <= ord.len(),
                ks@.len() == q,
                cur == (if q == ord.len() {
                    None::<usize>
                } else {
                    Some(ord[q])
                }),
                forall|i: int| 0 <= i < q ==> (#[trigger] ks@[i]).key_model() == self@[i].0,
            decreases ord.len() - q,
        {
            match cur {
                None => {
                    return ks;
                },
                Some(s) => {
                    proof {
                        assert((s as int) < self.keys@.len());
                    }
                    ks.push(self.keys[s].key_dup());
                    cur = self.list_next[s];
                    proof {
                        q = q + 1;
                    }
                },
            }
        }
    }

    /// The number of entries currently held.
    pub fn size(&self) -> (n: usize)
        requires
            self.wf(),
        ensures
            n == self@.len(),
    {
        self.total_size
    }

    /// The configured capacity.
    pub fn capacity(&self) -> (n: usize)
        ensures
            n == self.capacity_spec(),
    {
        self.max_size
    }
}


/// Capacity invariant: however `set` has been called, a well-formed
/// cache never holds more entries than its capacity.
pub proof fn lemma_capacity_invariant<K: CacheKey, V>(c: &LRUCache<K, V>)
    requires
        c.wf(),
    ensures
        c@.len() <= c.capacity_spec(),
{
}

/// One `set` keeps the entry count within the capacity.
pub proof fn lemma_set_bounds_size<A, V>(s: Seq<(A, V)>, k: A, v: V, cap: nat)
    requires
        s.len() <= cap,
        cap >= 1,
    ensures
        after_set(s, k, v, cap).len() <= cap,
{
    if contains_key(s, k) {
        let j = key_index(s, k);
        assert(0 <= j < s.len());
    }
}

/// Overwriting a bound key never changes the number of entries, and
/// always makes that key the most recent one.
pub proof fn lemma_overwrite_preserves_size<A, V>(s: Seq<(A, V)>, k: A, v: V, cap: nat)
    requires
        contains_key(s, k),
    ensures
        after_set(s, k, v, cap).len() == s.len(),
        after_set(s, k, v, cap)[0] == (k, v),
{
    let j = key_index(s, k);
    assert(0 <= j < s.len());
}

/// Round trip: right after `set(k, v)`, a lookup of `k` yields exactly
/// `v`, whatever the cache held before.
pub proof fn lemma_round_trip<A, V>(s: Seq<(A, V)>, k: A, v: V, cap: nat)
    requires
        distinct_keys(s),
        cap >= 1,
    ensures
        lookup_in(after_set(s, k, v, cap), k) == Some(v),
{
    let t = after_set(s, k, v, cap);
    assert(t[0] == (k, v));
    assert(contains_key(t, k)) by {
        assert(0 <= 0 < t.len() && t[0].0 == k);
    }
    let j = key_index(t, k);
    assert(0 <= j < t.len() && t[j].0 == k);
    if j != 0 {
        if contains_key(s, k) {
            let ki = key_index(s, k);
            assert(0 <= ki < s.len() && s[ki].0 == k);
            s.remove_ensures(ki);
            let r = if j - 1 < ki {
                j - 1
            } else {
                j
            };
            assert(t[j] == s[r]);
            assert(r != ki);
            if r < ki {
                assert(s[r].0 != s[ki].0);
            } else {
                assert(s[ki].0 != s[r].0);
            }
            assert(false);
        } else if s.len() < cap {
            assert(t[j] == s[j - 1]);
            assert(0 <= j - 1 < s.len() && s[j - 1].0 == k);
            assert(false);
        } else {
            assert(t[j] == s[j - 1]);
            assert(0 <= j - 1 < s.len() && s[j - 1].0 == k);
            assert(false);
        }
    }
}

/// Promotion on read: with capacity 2 and distinct keys `a`, `b`, `c`,
/// the calls `set(a, _); set(b, _); get(a); set(c, _)` evict `b`, not
/// `a`, because the read promoted `a` over `b`.
pub proof fn lemma_promotion_on_read<A, V>(a: A, b: A, c: A, va: V, vb: V, vc: V)
    requires
        a != b,
        a != c,
        b != c,
    ensures
        ({
            let s1 = after_set(Seq::<(A, V)>::empty(), a, va, 2);
            let s2 = after_set(s1, b, vb, 2);
            let s3 = after_get(s2, a);
            let s4 = after_set(s3, c, vc, 2);
            s4 == seq![(c, vc), (a, va)]
        }),
{
    let s0 = Seq::<(A, V)>::empty();
    let s1 = after_set(s0, a, va, 2);
    assert(!contains_key(s0, a));
    assert(s1 =~= seq![(a, va)]);
    let s2 = after_set(s1, b, vb, 2);
    assert(!contains_key(s1, b)) by {
        if contains_key(s1, b) {
            let j = choose|j: int| 0 <= j < s1.len() && s1[j].0 == b;
            assert(j == 0);
        }
    }
    assert(s2 =~= seq![(b, vb), (a, va)]);
    let s3 = after_get(s2, a);
    assert(contains_key(s2, a)) by {
        assert(0 <= 1 < s2.len() && s2[1].0 == a);
    }
    let j2 = key_index(s2, a);
    assert(0 <= j2 < s2.len() && s2[j2].0 == a);
    assert(j2 == 1);
    assert(s3 =~= seq![(a, va), (b, vb)]);
    let s4 = after_set(s3, c, vc, 2);
    assert(!contains_key(s3, c)) by {
        if contains_key(s3, c) {
            let j = choose|j: int| 0 <= j < s3.len() && s3[j].0 == c;
            assert(j == 0 || j == 1);
        }
    }
    assert(s4 =~= seq![(c, vc), (a, va)]);
}

} // verus!
