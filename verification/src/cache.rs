//! The response cache: content-addressed entries with TTL-bounded reads and
//! size-capped eviction of the oldest entries by modification time.
//!
//! The cache itself is an in-memory index of entries; identifiers come from
//! a deterministic fingerprint over an operation name and its significant
//! parameters. Freshness is computed at read time from the current time and
//! the entry's modification time; no entry stores an expiry of its own.

use vstd::prelude::*;
use vstd::slice::slice_index_get;
use vstd::string::StringSliceAdditionalSpecFns;
use crate::pool::sat_add64;

verus! {

/// Most entries the cache retains after a write.
pub const CACHE_CAP: usize = 50;

/// Offset basis of the 64-bit FNV-1a hash.
pub const FNV_OFFSET: u64 = 0xcbf29ce484222325;

/// Prime of the 64-bit FNV-1a hash.
pub const FNV_PRIME: u64 = 0x100000001b3;

/// Byte that separates the hashed parts, so that part boundaries matter.
pub const FNV_SEPARATOR: u8 = 0xff;

/// One FNV-1a round: fold one byte into the running hash.
pub open spec fn fnv_step(h: u64, b: u8) -> u64 {
    (h ^ (b as u64)).wrapping_mul(FNV_PRIME)
}

/// Folds a byte sequence into the running hash, front to back.
pub open spec fn fnv_bytes(h: u64, bs: Seq<u8>) -> u64
    decreases bs.len(),
{
    if bs.len() == 0 {
        h
    } else {
        fnv_bytes(fnv_step(h, bs[0]), bs.drop_first())
    }
}

/// Folds a sequence of parts into the running hash, each part followed by
/// the separator byte.
pub open spec fn fnv_parts(h: u64, parts: Seq<Seq<u8>>) -> u64
    decreases parts.len(),
{
    if parts.len() == 0 {
        h
    } else {
        fnv_parts(fnv_step(fnv_bytes(h, parts[0]), FNV_SEPARATOR), parts.drop_first())
    }
}

/// The fingerprint of an operation: the FNV-1a hash of its name and ordered
/// significant parameters, as byte sequences.
pub open spec fn fingerprint_of(parts: Seq<Seq<u8>>) -> u64 {
    fnv_parts(FNV_OFFSET, parts)
}

proof fn lemma_fnv_bytes_snoc(h: u64, s: Seq<u8>, b: u8)
    ensures
        fnv_bytes(h, s.push(b)) == fnv_step(fnv_bytes(h, s), b),
    decreases s.len(),
{
    if s.len() == 0 {
        let sp = s.push(b);
        assert(sp.len() == 1);
        assert(sp[0] == b);
        assert(sp.drop_first() =~= Seq::<u8>::empty());
        assert(fnv_bytes(h, sp) == fnv_bytes(fnv_step(h, b), sp.drop_first()));
        assert(fnv_bytes(fnv_step(h, b), sp.drop_first()) == fnv_step(h, b));
        assert(fnv_bytes(h, s) == h);
    } else {
        assert(s.push(b)[0] == s[0]);
        assert(s.push(b).drop_first() =~= s.drop_first().push(b));
        lemma_fnv_bytes_snoc(fnv_step(h, s[0]), s.drop_first(), b);
    }
}

proof fn lemma_fnv_parts_snoc(h: u64, parts: Seq<Seq<u8>>, p: Seq<u8>)
    ensures
        fnv_parts(h, parts.push(p)) == fnv_step(fnv_bytes(fnv_parts(h, parts), p), FNV_SEPARATOR),
    decreases parts.len(),
{
    if parts.len() == 0 {
        let sp = parts.push(p);
        assert(sp.len() == 1);
        assert(sp[0] == p);
        assert(sp.drop_first() =~= Seq::<Seq<u8>>::empty());
        assert(fnv_parts(h, sp) == fnv_parts(fnv_step(fnv_bytes(h, p), FNV_SEPARATOR), sp.drop_first()));
        assert(fnv_parts(fnv_step(fnv_bytes(h, p), FNV_SEPARATOR), sp.drop_first())
            == fnv_step(fnv_bytes(h, p), FNV_SEPARATOR));
        assert(fnv_parts(h, parts) == h);
    } else {
        assert(parts.push(p)[0] == parts[0]);
        assert(parts.push(p).drop_first() =~= parts.drop_first().push(p));
        lemma_fnv_parts_snoc(fnv_step(fnv_bytes(h, parts[0]), FNV_SEPARATOR), parts.drop_first(), p);
    }
}

/// The nibble of `h` rendered at position `i` of its 16-digit hex form,
/// most significant first.
pub open spec fn nibble64(h: u64, i: int) -> u8 {
    ((h >> (((15 - i) * 4) as u64)) & 0xf) as u8
}

/// One hex digit, lower case.
pub open spec fn hex_digit_char(n: u8) -> char {
    if n == 0 { '0' }
    else if n == 1 { '1' }
    else if n == 2 { '2' }
    else if n == 3 { '3' }
    else if n == 4 { '4' }
    else if n == 5 { '5' }
    else if n == 6 { '6' }
    else if n == 7 { '7' }
    else if n == 8 { '8' }
    else if n == 9 { '9' }
    else if n == 10 { 'a' }
    else if n == 11 { 'b' }
    else if n == 12 { 'c' }
    else if n == 13 { 'd' }
    else if n == 14 { 'e' }
    else { 'f' }
}

/// The 16-digit, zero-padded, lower-case hex form of `h`.
pub open spec fn hex16_of(h: u64) -> Seq<char> {
    Seq::new(16, |i: int| hex_digit_char(nibble64(h, i)))
}

/// Appends one hex digit to a string.
pub(crate) fn push_hex_digit(s: &mut String, n: u8)
    requires
        n < 16,
    ensures
        final(s)@ == old(s)@ + seq![hex_digit_char(n)],
{
    if n == 0 { s.append("0"); proof { reveal_strlit("0"); assert(s@ =~= old(s)@ + seq![hex_digit_char(n)]); } }
    else if n == 1 { s.append("1"); proof { reveal_strlit("1"); assert(s@ =~= old(s)@ + seq![hex_digit_char(n)]); } }
    else if n == 2 { s.append("2"); proof { reveal_strlit("2"); assert(s@ =~= old(s)@ + seq![hex_digit_char(n)]); } }
    else if n == 3 { s.append("3"); proof { reveal_strlit("3"); assert(s@ =~= old(s)@ + seq![hex_digit_char(n)]); } }
    else if n == 4 { s.append("4"); proof { reveal_strlit("4"); assert(s@ =~= old(s)@ + seq![hex_digit_char(n)]); } }
    else if n == 5 { s.append("5"); proof { reveal_strlit("5"); assert(s@ =~= old(s)@ + seq![hex_digit_char(n)]); } }
    else if n == 6 { s.append("6"); proof { reveal_strlit("6"); assert(s@ =~= old(s)@ + seq![hex_digit_char(n)]); } }
    else if n == 7 { s.append("7"); proof { reveal_strlit("7"); assert(s@ =~= old(s)@ + seq![hex_digit_char(n)]); } }
    else if n == 8 { s.append("8"); proof { reveal_strlit("8"); assert(s@ =~= old(s)@ + seq![hex_digit_char(n)]); } }
    else if n == 9 { s.append("9"); proof { reveal_strlit("9"); assert(s@ =~= old(s)@ + seq![hex_digit_char(n)]); } }
    else if n == 10 { s.append("a"); proof { reveal_strlit("a"); assert(s@ =~= old(s)@ + seq![hex_digit_char(n)]); } }
    else if n == 11 { s.append("b"); proof { reveal_strlit("b"); assert(s@ =~= old(s)@ + seq![hex_digit_char(n)]); } }
    else if n == 12 { s.append("c"); proof { reveal_strlit("c"); assert(s@ =~= old(s)@ + seq![hex_digit_char(n)]); } }
    else if n == 13 { s.append("d"); proof { reveal_strlit("d"); assert(s@ =~= old(s)@ + seq![hex_digit_char(n)]); } }
    else if n == 14 { s.append("e"); proof { reveal_strlit("e"); assert(s@ =~= old(s)@ + seq![hex_digit_char(n)]); } }
    else { s.append("f"); proof { reveal_strlit("f"); assert(s@ =~= old(s)@ + seq![hex_digit_char(n)]); } }
}

/// Renders `h` as its 16-digit, zero-padded, lower-case hex form.
pub fn hex16(h: u64) -> (r: String)
    ensures
        r@ == hex16_of(h),
{
    let mut r = String::new();
    let mut i: usize = 0;
    while i < 16
        invariant
            i <= 16,
            r@.len() == i,
            forall|j: int| 0 <= j < i ==> r@[j] == hex16_of(h)[j],
        decreases 16 - i,
    {
        let shift: u64 = ((15 - i) as u64) * 4;
        let x: u64 = h >> shift;
        proof {
            assert(x & 0xf < 16) by (bit_vector);
        }
        let nib: u8 = (x & 0xf) as u8;
        proof {
            assert(shift == ((15 - i as int) * 4) as u64);
            assert(nib == nibble64(h, i as int));
        }
        push_hex_digit(&mut r, nib);
        i += 1;
    }
    proof {
        assert(r@ =~= hex16_of(h));
    }
    r
}

/// Builds the cache identifier for an operation: the hex form of the
/// fingerprint over the given parts — the operation name followed by its
/// ordered significant parameters.
pub fn cache_key(parts: &[&str]) -> (r: String)
    ensures
        r@ == hex16_of(fingerprint_of(parts@.map_values(|p: &str| p.spec_bytes()))),
{
    let ghost all = parts@.map_values(|p: &str| p.spec_bytes());
    let mut h: u64 = FNV_OFFSET;
    let mut j: usize = 0;
    while j < parts.len()
        invariant
            j <= parts@.len(),
            all == parts@.map_values(|p: &str| p.spec_bytes()),
            h == fnv_parts(FNV_OFFSET, all.take(j as int)),
        decreases parts@.len() - j,
    {
        let part: &str = *slice_index_get(parts, j);
        let bytes: &[u8] = part.as_bytes();
        let mut k: usize = 0;
        let ghost h_in = h;
        while k < bytes.len()
            invariant
                k <= bytes@.len(),
                bytes@ == parts@[j as int].spec_bytes(),
                j < parts@.len(),
                h == fnv_bytes(h_in, bytes@.take(k as int)),
            decreases bytes@.len() - k,
        {
            let b: u8 = *slice_index_get(bytes, k);
            proof {
                lemma_fnv_bytes_snoc(h_in, bytes@.take(k as int), b);
                assert(bytes@.take(k + 1int) =~= bytes@.take(k as int).push(b));
            }
            h = (h ^ (b as u64)).wrapping_mul(FNV_PRIME);
            k += 1;
        }
        proof {
            assert(bytes@.take(bytes@.len() as int) =~= bytes@);
            lemma_fnv_parts_snoc(FNV_OFFSET, all.take(j as int), all[j as int]);
            assert(all.take(j + 1int) =~= all.take(j as int).push(all[j as int]));
        }
        h = (h ^ (FNV_SEPARATOR as u64)).wrapping_mul(FNV_PRIME);
        j += 1;
    }
    proof {
        assert(all.take(all.len() as int) =~= all);
    }
    hex16(h)
}

/// One cached response: its identifier, the stored payload, and the instant
/// it was last written. The modification instant serves both freshness and
/// eviction ordering.
#[derive(Debug, Clone, PartialEq)]
pub struct CacheEntry {
    pub id: String,
    pub payload: String,
    pub modified: u64,
}

/// No two entries share an identifier.
spec fn unique_ids(s: Seq<CacheEntry>) -> bool {
    forall|i: int, j: int| 0 <= i < j < s.len() ==> s[i].id@ != s[j].id@
}

/// The first position holding `id`, or `-1` when none does.
spec fn find_id(s: Seq<CacheEntry>, id: Seq<char>) -> int
    decreases s.len(),
{
    if s.len() == 0 {
        -1
    } else if s[0].id@ == id {
        0
    } else {
        let r = find_id(s.drop_first(), id);
        if r == -1 {
            -1
        } else {
            r + 1
        }
    }
}

proof fn lemma_find_id_props(s: Seq<CacheEntry>, id: Seq<char>)
    ensures
        find_id(s, id) >= -1,
        find_id(s, id) == -1 ==> forall|i: int| 0 <= i < s.len() ==> (#[trigger] s[i]).id@ != id,
        find_id(s, id) >= 0 ==> {
            &&& 0 <= find_id(s, id) < s.len()
            &&& s[find_id(s, id)].id@ == id
            &&& forall|i: int| 0 <= i < find_id(s, id) ==> (#[trigger] s[i]).id@ != id
        },
    decreases s.len(),
{
    if s.len() > 0 && s[0].id@ != id {
        lemma_find_id_props(s.drop_first(), id);
        let r = find_id(s.drop_first(), id);
        if r == -1 {
            assert forall|i: int| 0 <= i < s.len() implies (#[trigger] s[i]).id@ != id by {
                if i > 0 {
                    assert(s.drop_first()[i - 1] == s[i]);
                }
            }
        } else {
            assert(s.drop_first()[r] == s[r + 1]);
            assert forall|i: int| 0 <= i < r + 1 implies (#[trigger] s[i]).id@ != id by {
                if i > 0 {
                    assert(s.drop_first()[i - 1] == s[i]);
                }
            }
        }
    }
}

/// With unique identifiers, any position holding `id` is the one `find_id`
/// names.
proof fn lemma_unique_find(s: Seq<CacheEntry>, id: Seq<char>, w: int)
    requires
        unique_ids(s),
        0 <= w < s.len(),
        s[w].id@ == id,
    ensures
        find_id(s, id) == w,
{
    lemma_find_id_props(s, id);
    let f = find_id(s, id);
    if f == -1 {
        assert(s[w].id@ != id);
    } else {
        if f < w {
            assert(s[f].id@ == s[w].id@);
        } else if f > w {
            assert(s[w].id@ != id);
        }
    }
}

/// The modification instant an identifier carries just after the write of
/// `id` at `now`, before any eviction: `now` for the written identifier,
/// the stored instant for the rest.
pub open spec fn modified_after_write(c: ResponseCache, y: Seq<char>, id: Seq<char>, now: u64) -> u64 {
    if y == id {
        now
    } else {
        c.modified_of(y)
    }
}

/// The response cache: a capped index of cached responses, addressed by
/// fingerprint identifier.
#[derive(Debug)]
pub struct ResponseCache {
    entries: Vec<CacheEntry>,
}

impl ResponseCache {
    /// How many entries the cache holds.
    pub closed spec fn count(&self) -> nat {
        self.entries@.len()
    }

    /// Whether an entry with this identifier is present.
    pub closed spec fn contains(&self, id: Seq<char>) -> bool {
        find_id(self.entries@, id) >= 0
    }

    /// The payload stored under `id`.
    pub closed spec fn payload_of(&self, id: Seq<char>) -> Seq<char> {
        self.entries@[find_id(self.entries@, id)].payload@
    }

    /// The instant `id` was last written.
    pub closed spec fn modified_of(&self, id: Seq<char>) -> u64 {
        self.entries@[find_id(self.entries@, id)].modified
    }

    /// Well-formedness: identifiers are unique and the cap is respected.
    pub closed spec fn wf(&self) -> bool {
        unique_ids(self.entries@) && self.entries@.len() <= CACHE_CAP
    }

    /// An empty cache.
    pub fn new() -> (r: ResponseCache)
        ensures
            r.wf(),
            r.count() == 0,
            forall|x: Seq<char>| !r.contains(x),
    {
        ResponseCache { entries: Vec::new() }
    }

    /// How many entries the cache holds.
    pub fn len(&self) -> (r: usize)
        ensures
            r == self.count(),
    {
        self.entries.len()
    }

    /// Looks `id` up at time `now`: the stored payload comes back exactly
    /// when an entry exists and its age does not exceed `ttl_secs`; a
    /// missing entry and a stale one are both a miss.
    pub fn get(&self, id: &str, now: u64, ttl_secs: u64) -> (r: Option<String>)
        requires
            self.wf(),
        ensures
            r is Some <==> (self.contains(id@)
                && now <= sat_add64(self.modified_of(id@), ttl_secs)),
            r matches Some(p) ==> p@ == self.payload_of(id@),
    {
        let idstr = String::from_str(id);
        let n = self.entries.len();
        let mut i: usize = 0;
        while i < n
            invariant
                self.wf(),
                n == self.entries@.len(),
                i <= n,
                idstr@ == id@,
                forall|j: int| 0 <= j < i ==> (#[trigger] self.entries@[j]).id@ != id@,
            decreases n - i,
        {
            if self.entries[i].id == idstr {
                proof {
                    lemma_unique_find(self.entries@, id@, i as int);
                }
                if now <= crate::pool::sat_add_u64(self.entries[i].modified, ttl_secs) {
                    return Some(self.entries[i].payload.clone());
                } else {
                    return None;
                }
            }
            i += 1;
        }
        proof {
            lemma_find_id_props(self.entries@, id@);
            if find_id(self.entries@, id@) >= 0 {
                assert(self.entries@[find_id(self.entries@, id@)].id@ == id@);
            }
        }
        None
    }

    /// Writes `payload` under `id` with modification instant `now`,
    /// overwriting any previous entry; then, if the cache has grown past its
    /// cap, evicts the entry with the oldest modification instant. Every
    /// surviving entry other than the written one is unchanged, anything
    /// evicted is at least as old as everything kept, and the fresh write
    /// itself survives whenever the clock has not gone backwards.
    pub fn put(&mut self, id: &str, payload: &str, now: u64)
        requires
            old(self).wf(),
        ensures
            final(self).wf(),
            forall|x: Seq<char>| final(self).contains(x) ==> x == id@ || old(self).contains(x),
            final(self).contains(id@) ==> final(self).payload_of(id@) == payload@
                && final(self).modified_of(id@) == now,
            forall|x: Seq<char>| final(self).contains(x) && x != id@
                ==> old(self).contains(x)
                    && final(self).payload_of(x) == old(self).payload_of(x)
                    && final(self).modified_of(x) == old(self).modified_of(x),
            final(self).count() == (if old(self).contains(id@) {
                old(self).count() as int
            } else if old(self).count() < CACHE_CAP {
                old(self).count() as int + 1
            } else {
                CACHE_CAP as int
            }),
            forall|x: Seq<char>, y: Seq<char>|
                final(self).contains(x) && (y == id@ || old(self).contains(y))
                    && !final(self).contains(y)
                ==> modified_after_write(*old(self), y, id@, now)
                    <= modified_after_write(*old(self), x, id@, now),
            (forall|y: Seq<char>| old(self).contains(y) ==> old(self).modified_of(y) <= now)
                ==> final(self).contains(id@),
    {
        let ghost pre = *self;
        let idstr = String::from_str(id);
        let entry = CacheEntry { id: idstr, payload: String::from_str(payload), modified: now };
        let ghost ge = entry;
        let n = self.entries.len();
        let mut i: usize = 0;
        while i < n
            invariant
                *self == pre,
                pre == *old(self),
                pre.wf(),
                n == self.entries@.len(),
                i <= n,
                entry.id@ == id@,
                entry.payload@ == payload@,
                entry.modified == now,
                ge == entry,
                forall|j: int| 0 <= j < i ==> (#[trigger] self.entries@[j]).id@ != id@,
            decreases n - i,
        {
            if self.entries[i].id == entry.id {
                proof {
                    lemma_unique_find(pre.entries@, id@, i as int);
                }
                self.entries[i] = entry;
                proof {
                    lemma_after_overwrite(pre, *self, ge, i as int);
                }
                return;
            }
            i += 1;
        }
        proof {
            lemma_find_id_props(pre.entries@, id@);
            if find_id(pre.entries@, id@) >= 0 {
                assert(pre.entries@[find_id(pre.entries@, id@)].id@ == id@);
            }
            assert(!pre.contains(id@));
        }
        self.entries.push(entry);
        let ghost s1 = self.entries@;
        if self.entries.len() > CACHE_CAP {
            let len = self.entries.len();
            let mut m: usize = 0;
            let mut t: usize = 1;
            while t < len
                invariant
                    self.entries@ == s1,
                    len == s1.len(),
                    m < t <= len,
                    forall|j: int| 0 <= j < t ==> s1[m as int].modified <= (#[trigger] s1[j]).modified,
                    forall|j: int| 0 <= j < m ==> (#[trigger] s1[j]).modified > s1[m as int].modified,
                decreases len - t,
            {
                if self.entries[t].modified < self.entries[m].modified {
                    m = t;
                }
                t += 1;
            }
            self.entries.remove(m);
            proof {
                lemma_after_evict(pre, *self, ge, m as int);
            }
        } else {
            proof {
                lemma_after_push(pre, *self, ge);
            }
        }
    }
}

/// Locates the entry behind a `contains` fact and relates the lookup
/// functions to it.
proof fn lemma_contains_index(c: ResponseCache, x: Seq<char>) -> (w: int)
    requires
        c.contains(x),
    ensures
        0 <= w < c.entries@.len(),
        c.entries@[w].id@ == x,
        find_id(c.entries@, x) == w,
        c.payload_of(x) == c.entries@[w].payload@,
        c.modified_of(x) == c.entries@[w].modified,
{
    lemma_find_id_props(c.entries@, x);
    find_id(c.entries@, x)
}

/// Overwriting the entry at `i` with one that carries the same identifier
/// leaves every other entry, and the entry count, unchanged.
proof fn lemma_after_overwrite(pre: ResponseCache, post: ResponseCache, e: CacheEntry, i: int)
    requires
        pre.wf(),
        0 <= i < pre.entries@.len(),
        pre.entries@[i].id@ == e.id@,
        post.entries@ == pre.entries@.update(i, e),
    ensures
        post.wf(),
        pre.contains(e.id@),
        post.contains(e.id@),
        post.payload_of(e.id@) == e.payload@,
        post.modified_of(e.id@) == e.modified,
        post.count() == pre.count(),
        forall|x: Seq<char>| #[trigger] post.contains(x) ==> x == e.id@ || pre.contains(x),
        forall|x: Seq<char>| #[trigger] post.contains(x) && x != e.id@
            ==> pre.contains(x) && post.payload_of(x) == pre.payload_of(x)
                && post.modified_of(x) == pre.modified_of(x),
        forall|y: Seq<char>| #[trigger] pre.contains(y) ==> post.contains(y),
{
    assert(unique_ids(post.entries@)) by {
        assert forall|a: int, b: int| 0 <= a < b < post.entries@.len()
            implies post.entries@[a].id@ != post.entries@[b].id@ by {
            assert(post.entries@[a].id@ == pre.entries@[a].id@);
            assert(post.entries@[b].id@ == pre.entries@[b].id@);
        }
    }
    lemma_unique_find(pre.entries@, e.id@, i);
    lemma_unique_find(post.entries@, e.id@, i);
    assert forall|x: Seq<char>| #[trigger] post.contains(x)
        implies (x == e.id@ || pre.contains(x))
            && (x != e.id@ ==> pre.contains(x) && post.payload_of(x) == pre.payload_of(x)
                && post.modified_of(x) == pre.modified_of(x)) by {
        let w = lemma_contains_index(post, x);
        if x != e.id@ {
            assert(w != i);
            assert(post.entries@[w] == pre.entries@[w]);
            lemma_unique_find(pre.entries@, x, w);
        }
    }
    assert forall|y: Seq<char>| #[trigger] pre.contains(y) implies post.contains(y) by {
        let w = lemma_contains_index(pre, y);
        if w == i {
            assert(y == e.id@);
        } else {
            assert(post.entries@[w] == pre.entries@[w]);
            lemma_unique_find(post.entries@, y, w);
        }
    }
}

/// Appending an entry with a new identifier keeps every old entry and adds
/// the new one.
proof fn lemma_after_push(pre: ResponseCache, post: ResponseCache, e: CacheEntry)
    requires
        pre.wf(),
        forall|j: int| 0 <= j < pre.entries@.len() ==> (#[trigger] pre.entries@[j]).id@ != e.id@,
        post.entries@ == pre.entries@.push(e),
    ensures
        unique_ids(post.entries@),
        !pre.contains(e.id@),
        post.contains(e.id@),
        post.payload_of(e.id@) == e.payload@,
        post.modified_of(e.id@) == e.modified,
        post.count() == pre.count() as int + 1,
        forall|x: Seq<char>| #[trigger] post.contains(x) ==> x == e.id@ || pre.contains(x),
        forall|x: Seq<char>| #[trigger] post.contains(x) && x != e.id@
            ==> pre.contains(x) && post.payload_of(x) == pre.payload_of(x)
                && post.modified_of(x) == pre.modified_of(x),
        forall|y: Seq<char>| #[trigger] pre.contains(y) ==> post.contains(y),
{
    let n = pre.entries@.len() as int;
    assert(unique_ids(post.entries@)) by {
        assert forall|a: int, b: int| 0 <= a < b < post.entries@.len()
            implies post.entries@[a].id@ != post.entries@[b].id@ by {
            assert(post.entries@[a] == pre.entries@[a]);
            if b < n {
                assert(post.entries@[b] == pre.entries@[b]);
            }
        }
    }
    assert(!pre.contains(e.id@)) by {
        lemma_find_id_props(pre.entries@, e.id@);
        if find_id(pre.entries@, e.id@) >= 0 {
            assert(pre.entries@[find_id(pre.entries@, e.id@)].id@ == e.id@);
        }
    }
    lemma_unique_find(post.entries@, e.id@, n);
    assert forall|x: Seq<char>| #[trigger] post.contains(x)
        implies (x == e.id@ || pre.contains(x))
            && (x != e.id@ ==> pre.contains(x) && post.payload_of(x) == pre.payload_of(x)
                && post.modified_of(x) == pre.modified_of(x)) by {
        let w = lemma_contains_index(post, x);
        if w < n {
            assert(post.entries@[w] == pre.entries@[w]);
            lemma_unique_find(pre.entries@, x, w);
            assert(x != e.id@);
        } else {
            assert(x == e.id@);
        }
    }
    assert forall|y: Seq<char>| #[trigger] pre.contains(y) implies post.contains(y) by {
        let w = lemma_contains_index(pre, y);
        assert(post.entries@[w] == pre.entries@[w]);
        lemma_unique_find(post.entries@, y, w);
    }
}

/// After appending a fresh entry to a full cache and removing the entry
/// with the oldest modification instant, every kept entry is unchanged and
/// at least as young as the dropped one; the fresh entry itself survives
/// unless every older entry was strictly younger than it.
proof fn lemma_after_evict(pre: ResponseCache, post: ResponseCache, e: CacheEntry, m: int)
    requires
        pre.wf(),
        pre.entries@.len() == CACHE_CAP,
        forall|j: int| 0 <= j < pre.entries@.len() ==> (#[trigger] pre.entries@[j]).id@ != e.id@,
        0 <= m < pre.entries@.len() + 1,
        post.entries@ == pre.entries@.push(e).remove(m),
        forall|j: int| 0 <= j < pre.entries@.len() + 1
            ==> pre.entries@.push(e)[m].modified <= (#[trigger] pre.entries@.push(e)[j]).modified,
        forall|j: int| 0 <= j < m
            ==> (#[trigger] pre.entries@.push(e)[j]).modified > pre.entries@.push(e)[m].modified,
    ensures
        post.wf(),
        post.count() == CACHE_CAP,
        forall|x: Seq<char>| #[trigger] post.contains(x) ==> x == e.id@ || pre.contains(x),
        post.contains(e.id@) ==> post.payload_of(e.id@) == e.payload@
            && post.modified_of(e.id@) == e.modified,
        forall|x: Seq<char>| #[trigger] post.contains(x) && x != e.id@
            ==> pre.contains(x) && post.payload_of(x) == pre.payload_of(x)
                && post.modified_of(x) == pre.modified_of(x),
        forall|x: Seq<char>, y: Seq<char>|
            #[trigger] post.contains(x) && (y == e.id@ || pre.contains(y))
                && !(#[trigger] post.contains(y))
            ==> modified_after_write(pre, y, e.id@, e.modified)
                <= modified_after_write(pre, x, e.id@, e.modified),
        (forall|y: Seq<char>| #[trigger] pre.contains(y) ==> pre.modified_of(y) <= e.modified)
            ==> post.contains(e.id@),
{
    let s0 = pre.entries@;
    let s1 = s0.push(e);
    let s2 = post.entries@;
    let n = s0.len() as int;
    assert(s2 =~= s1.subrange(0, m) + s1.subrange(m + 1, n + 1));
    assert(s2.len() == n);
    assert(forall|j: int| 0 <= j < m ==> #[trigger] s2[j] == s1[j]);
    assert(forall|j: int| m <= j < n ==> #[trigger] s2[j] == s1[j + 1]);
    assert(unique_ids(s1)) by {
        assert forall|a: int, b: int| 0 <= a < b < s1.len() implies s1[a].id@ != s1[b].id@ by {
            assert(s1[a] == s0[a]);
            if b < n {
                assert(s1[b] == s0[b]);
            }
        }
    }
    assert(unique_ids(s2)) by {
        assert forall|a: int, b: int| 0 <= a < b < s2.len() implies s2[a].id@ != s2[b].id@ by {
            let a1: int = if a < m { a } else { a + 1 };
            let b1: int = if b < m { b } else { b + 1 };
            assert(s2[a] == s1[a1]);
            assert(s2[b] == s1[b1]);
        }
    }
    if m < n {
        assert(s2[n - 1] == s1[n]);
        lemma_unique_find(s2, e.id@, n - 1);
        assert(post.contains(e.id@));
        assert(post.payload_of(e.id@) == e.payload@);
        assert(post.modified_of(e.id@) == e.modified);
    } else {
        assert(s2 =~= s0);
        lemma_find_id_props(s0, e.id@);
        if find_id(s0, e.id@) >= 0 {
            assert(s0[find_id(s0, e.id@)].id@ == e.id@);
        }
        assert(!post.contains(e.id@));
    }
    assert forall|x: Seq<char>| #[trigger] post.contains(x)
        implies (x == e.id@ || pre.contains(x))
            && (x != e.id@ ==> pre.contains(x) && post.payload_of(x) == pre.payload_of(x)
                && post.modified_of(x) == pre.modified_of(x)) by {
        let w = lemma_contains_index(post, x);
        let w1: int = if w < m { w } else { w + 1 };
        assert(s2[w] == s1[w1]);
        if w1 < n {
            assert(s1[w1] == s0[w1]);
            lemma_unique_find(s0, x, w1);
            assert(x != e.id@);
        } else {
            assert(x == e.id@);
        }
    }
    assert forall|x: Seq<char>, y: Seq<char>|
        #[trigger] post.contains(x) && (y == e.id@ || pre.contains(y))
            && !(#[trigger] post.contains(y))
        implies modified_after_write(pre, y, e.id@, e.modified)
            <= modified_after_write(pre, x, e.id@, e.modified) by {
        let wx = lemma_contains_index(post, x);
        let wx1: int = if wx < m { wx } else { wx + 1 };
        assert(s2[wx] == s1[wx1]);
        if x != e.id@ {
            assert(s1[wx1] == s0[wx1]);
            lemma_unique_find(s0, x, wx1);
            assert(modified_after_write(pre, x, e.id@, e.modified) == s1[wx1].modified);
        } else {
            assert(modified_after_write(pre, x, e.id@, e.modified) == s1[wx1].modified);
        }
        if y == e.id@ {
            assert(m == n) by {
                if m < n {
                    assert(post.contains(e.id@));
                }
            }
            assert(modified_after_write(pre, y, e.id@, e.modified) == s1[m].modified);
        } else {
            let wy = lemma_contains_index(pre, y);
            assert(s1[wy] == s0[wy]);
            assert(wy == m) by {
                if wy != m {
                    let wy2: int = if wy < m { wy } else { wy - 1 };
                    assert(s2[wy2] == s1[wy]);
                    lemma_unique_find(s2, y, wy2);
                }
            }
            assert(modified_after_write(pre, y, e.id@, e.modified) == s1[m].modified);
        }
        assert(s1[m].modified <= s1[wx1].modified);
    }
    if forall|y: Seq<char>| #[trigger] pre.contains(y) ==> pre.modified_of(y) <= e.modified {
        if m == n {
            assert(s1[0] == s0[0]);
            lemma_unique_find(s0, s0[0].id@, 0);
            assert(pre.contains(s0[0].id@));
            assert(pre.modified_of(s0[0].id@) == s0[0].modified);
            assert(s1[0].modified > s1[m].modified);
            assert(false);
        }
    }
}

} // verus!
