//! Where a key lies in the backend, and between which two keys a range of it
//! lies.
//!
//! A backend keeps many maps in a few ordered keyspaces, the areas. Each map
//! has a prefix of eight bytes, and each of its keys is stored behind that
//! prefix. A range over one map thus becomes a range over stored keys, and an
//! end that is open or closed on the map's side becomes one that the
//! keyspace understands: a lower end that is met, an upper end that is not.

use vstd::prelude::*;
use crate::basic::ord_key::{bytes_lt, differ_at, lemma_bytes_lt_asymmetric, lemma_bytes_lt_total};
use crate::common::ende::{be_bytes, be_value, u64_from_be_bytes, u64_to_be_bytes};
use crate::common::{above, below, KeyBound, PreBytes, RESERVED_ID_CNT, within};

verus! {

/// Number of areas: keyspaces of the backend that share no key.
pub const DATA_SET_NUM: usize = 8;

/// Key of the meta cell that holds the greatest length of a key ever stored.
pub const META_KEY_MAX_KEYLEN: [u8; 1] = [255];

/// Key of the meta cell that holds the next branch identifier.
pub const META_KEY_BRANCH_ID: [u8; 1] = [254];

/// Key of the meta cell that holds the next version identifier.
pub const META_KEY_VERSION_ID: [u8; 1] = [253];

/// Key of the meta cell that holds the next prefix.
pub const META_KEY_PREFIX_ALLOCATOR: [u8; 1] = [0];

/// The first prefix that is handed out.
pub const INITIAL_PREFIX: u64 = RESERVED_ID_CNT + 1;

/// The first branch or version identifier that is handed out.
pub const INITIAL_ID: u64 = RESERVED_ID_CNT;

/// One gibibyte.
pub const GB: u64 = 0x4000_0000;

/// `n` bytes of the greatest value.
pub open spec fn high_bytes(n: nat) -> Seq<u8> {
    Seq::new(n, |i: int| 255u8)
}

/// The stored key from which a range starts: no stored key of the map below
/// it is within the bound, every one from it on is.
pub open spec fn lower_key(prefix: Seq<u8>, lower: KeyBound<'_>) -> Seq<u8> {
    match lower {
        KeyBound::Included(l) => prefix + l@,
        KeyBound::Excluded(l) => prefix + l@ + seq![0u8],
        KeyBound::Unbounded => prefix,
    }
}

/// The stored key before which a range ends. Without an upper bound it is a
/// key that no key of the map exceeds whose length is at most `max_keylen`.
pub open spec fn upper_key(prefix: Seq<u8>, upper: KeyBound<'_>, max_keylen: nat) -> Seq<u8> {
    match upper {
        KeyBound::Included(h) => prefix + h@ + seq![0u8],
        KeyBound::Excluded(h) => prefix + h@,
        KeyBound::Unbounded => prefix + high_bytes(max_keylen),
    }
}

/// Behind one prefix, keys are ordered as they are without it.
pub proof fn lemma_prefix_keeps_order(p: Seq<u8>, a: Seq<u8>, b: Seq<u8>)
    ensures
        bytes_lt(p + a, p + b) <==> bytes_lt(a, b),
{
    let n = p.len() as int;
    if bytes_lt(a, b) {
        let i = choose|i: int| #[trigger] differ_at(a, b, i);
        assert forall|j: int| 0 <= j < i implies a[j] == b[j] by {
            assert(a.subrange(0, i)[j] == b.subrange(0, i)[j]);
        }
        assert((p + a).subrange(0, n + i) =~= (p + b).subrange(0, n + i));
        assert(differ_at(p + a, p + b, n + i));
    }
    if bytes_lt(p + a, p + b) {
        let j = choose|j: int| #[trigger] differ_at(p + a, p + b, j);
        assert(j >= n);
        let i = j - n;
        assert forall|x: int| 0 <= x < i implies a[x] == b[x] by {
            assert((p + a).subrange(0, j)[n + x] == (p + b).subrange(0, j)[n + x]);
        }
        assert(a.subrange(0, i) =~= b.subrange(0, i));
        if i < a.len() {
            assert((p + a)[j] == a[i]);
            assert((p + b)[j] == b[i]);
        }
        assert(differ_at(a, b, i));
    }
}

/// A key with a zero byte behind it is the next key: the keys below it are
/// the key itself and the keys below the key.
pub proof fn lemma_zero_byte_is_next(k: Seq<u8>, l: Seq<u8>)
    ensures
        bytes_lt(k, l + seq![0u8]) <==> (k == l || bytes_lt(k, l)),
{
    let z = l + seq![0u8];
    let n = l.len() as int;
    if k == l {
        assert(k.subrange(0, n) =~= z.subrange(0, n));
        assert(differ_at(k, z, n));
    }
    if bytes_lt(k, l) {
        let i = choose|i: int| #[trigger] differ_at(k, l, i);
        assert(k.subrange(0, i) =~= z.subrange(0, i)) by {
            assert forall|x: int| 0 <= x < i implies k[x] == z[x] by {
                assert(k.subrange(0, i)[x] == l.subrange(0, i)[x]);
            }
        }
        assert(differ_at(k, z, i));
    }
    if bytes_lt(k, z) {
        let i = choose|i: int| #[trigger] differ_at(k, z, i);
        assert forall|x: int| 0 <= x < i implies k[x] == z[x] by {
            assert(k.subrange(0, i)[x] == z.subrange(0, i)[x]);
        }
        if i < n {
            assert(k.subrange(0, i) =~= l.subrange(0, i));
            assert(differ_at(k, l, i));
        } else {
            assert(i == k.len());
            assert(k =~= l);
        }
    }
}

/// A stored key of the map lies at or above `lower_key` exactly if the key
/// is within the lower bound.
pub proof fn law_lower_bound(prefix: Seq<u8>, lower: KeyBound<'_>, key: Seq<u8>)
    ensures
        above(key, lower) <==> !bytes_lt(prefix + key, lower_key(prefix, lower)),
{
    match lower {
        KeyBound::Included(l) => {
            lemma_prefix_keeps_order(prefix, key, l@);
        },
        KeyBound::Excluded(l) => {
            assert(prefix + l@ + seq![0u8] =~= prefix + (l@ + seq![0u8]));
            lemma_prefix_keeps_order(prefix, key, l@ + seq![0u8]);
            lemma_zero_byte_is_next(key, l@);
            lemma_bytes_lt_total(key, l@);
            if bytes_lt(l@, key) {
                lemma_bytes_lt_asymmetric(l@, key);
            }
        },
        KeyBound::Unbounded => {
            assert(prefix + Seq::<u8>::empty() =~= prefix);
            lemma_prefix_keeps_order(prefix, key, Seq::empty());
            assert(!bytes_lt(key, Seq::<u8>::empty()));
        },
    }
}

/// Where there is an upper bound, a stored key of the map lies below
/// `upper_key` exactly if the key is within the upper bound.
pub proof fn law_upper_bound(prefix: Seq<u8>, upper: KeyBound<'_>, max_keylen: nat, key: Seq<u8>)
    requires
        !(upper is Unbounded),
    ensures
        below(key, upper) <==> bytes_lt(prefix + key, upper_key(prefix, upper, max_keylen)),
{
    match upper {
        KeyBound::Included(h) => {
            assert(prefix + h@ + seq![0u8] =~= prefix + (h@ + seq![0u8]));
            lemma_prefix_keeps_order(prefix, key, h@ + seq![0u8]);
            lemma_zero_byte_is_next(key, h@);
            lemma_bytes_lt_total(key, h@);
            if bytes_lt(h@, key) {
                lemma_bytes_lt_asymmetric(h@, key);
            }
        },
        KeyBound::Excluded(h) => {
            lemma_prefix_keeps_order(prefix, key, h@);
        },
        KeyBound::Unbounded => {},
    }
}

/// What a range over the stored keys holds is what the range over the map's
/// keys holds: a stored key of the map lies at or above `lower_key` and,
/// where there is an upper bound, below `upper_key`, exactly if the key is
/// within the bounds.
pub proof fn law_range_bounds(
    prefix: Seq<u8>,
    lower: KeyBound<'_>,
    upper: KeyBound<'_>,
    max_keylen: nat,
    key: Seq<u8>,
)
    requires
        !(upper is Unbounded),
    ensures
        within(key, lower, upper) <==> (!bytes_lt(prefix + key, lower_key(prefix, lower))
            && bytes_lt(prefix + key, upper_key(prefix, upper, max_keylen))),
{
    law_lower_bound(prefix, lower, key);
    law_upper_bound(prefix, upper, max_keylen, key);
}

/// Of two stored keys with different prefixes of one length, the one with
/// the smaller prefix comes first.
pub proof fn lemma_prefix_decides(p: Seq<u8>, q: Seq<u8>, a: Seq<u8>, b: Seq<u8>)
    requires
        p.len() == q.len(),
        bytes_lt(p, q),
    ensures
        bytes_lt(p + a, q + b),
{
    let i = choose|i: int| #[trigger] differ_at(p, q, i);
    assert((p + a).subrange(0, i) =~= p.subrange(0, i));
    assert((q + b).subrange(0, i) =~= q.subrange(0, i));
    assert(differ_at(p + a, q + b, i));
}

/// A stored key that lies between two stored keys of one map is a key of
/// that map: it stands behind the map's prefix.
pub proof fn lemma_between_has_prefix(p: Seq<u8>, stored: Seq<u8>, lo: Seq<u8>, hi: Seq<u8>)
    requires
        stored.len() >= p.len(),
        !bytes_lt(stored, p + lo),
        !bytes_lt(p + hi, stored),
    ensures
        stored.subrange(0, p.len() as int) == p,
{
    let n = p.len() as int;
    let q = stored.subrange(0, n);
    let t = stored.skip(n);
    assert(stored =~= q + t);
    lemma_bytes_lt_total(q, p);
    if bytes_lt(q, p) {
        lemma_prefix_decides(q, p, t, lo);
    }
    if bytes_lt(p, q) {
        lemma_prefix_decides(p, q, hi, t);
    }
}

/// Where a range has no upper bound, the walk backwards starts from a key
/// that no stored key of the map exceeds, as long as no key is longer than
/// the greatest length observed; and every stored key of a map with a
/// greater prefix lies beyond it.
pub proof fn law_upper_sentinel(prefix: Seq<u8>, other: Seq<u8>, max_keylen: nat, key: Seq<u8>)
    requires
        key.len() <= max_keylen,
    ensures
        !bytes_lt(prefix + high_bytes(max_keylen), prefix + key),
        other.len() == prefix.len() && bytes_lt(prefix, other) ==> bytes_lt(
            prefix + high_bytes(max_keylen),
            other + key,
        ),
{
    let top = high_bytes(max_keylen);
    lemma_prefix_keeps_order(prefix, top, key);
    if bytes_lt(top, key) {
        let i = choose|i: int| #[trigger] differ_at(top, key, i);
        assert(top[i] == 255u8);
    }
    if other.len() == prefix.len() && bytes_lt(prefix, other) {
        lemma_prefix_decides(prefix, other, top, key);
    }
}

/// Number of areas.
pub fn area_count() -> (r: usize)
    ensures
        r == DATA_SET_NUM,
{
    DATA_SET_NUM
}

/// The area in which the map with this prefix lies.
pub fn area_idx(meta_prefix: &PreBytes) -> (r: usize)
    ensures
        r == meta_prefix@[0] as int % 8,
        r < DATA_SET_NUM,
{
    (meta_prefix[0] % 8) as usize
}

// Puts `src` behind what `dst` holds.
fn append(dst: &mut Vec<u8>, src: &[u8])
    ensures
        final(dst)@ == old(dst)@ + src@,
{
    let mut i: usize = 0;
    assert(dst@ =~= old(dst)@ + src@.subrange(0, 0));
    while i < src.len()
        invariant
            i <= src.len(),
            dst@ == old(dst)@ + src@.subrange(0, i as int),
        decreases src.len() - i,
    {
        dst.push(src[i]);
        assert(dst@ =~= old(dst)@ + src@.subrange(0, i + 1));
        i = i + 1;
    }
    assert(src@.subrange(0, src@.len() as int) =~= src@);
}

/// The key under which the backend stores `key` of the map with this prefix.
pub fn full_key(meta_prefix: &PreBytes, key: &[u8]) -> (r: Vec<u8>)
    ensures
        r@ == meta_prefix@ + key@,
{
    let mut r: Vec<u8> = Vec::new();
    append(&mut r, meta_prefix.as_slice());
    append(&mut r, key);
    assert(r@ =~= meta_prefix@ + key@);
    r
}

/// The map's key in a stored key: what stands behind the prefix.
pub fn strip_prefix(stored: &[u8]) -> (r: Vec<u8>)
    requires
        stored@.len() >= 8,
    ensures
        r@ == stored@.skip(8),
{
    let mut r: Vec<u8> = Vec::new();
    let mut i: usize = 8;
    assert(r@ =~= stored@.subrange(8, 8));
    while i < stored.len()
        invariant
            8 <= i <= stored.len(),
            r@ == stored@.subrange(8, i as int),
        decreases stored.len() - i,
    {
        r.push(stored[i]);
        assert(r@ =~= stored@.subrange(8, i + 1));
        i = i + 1;
    }
    assert(stored@.subrange(8, stored@.len() as int) =~= stored@.skip(8));
    r
}

/// A stored key that no key of the map exceeds: the prefix and as many
/// bytes of the greatest value as the longest key ever stored has.
pub fn get_upper_bound_value(meta_prefix: &PreBytes, max_keylen: usize) -> (r: Vec<u8>)
    ensures
        r@ == meta_prefix@ + high_bytes(max_keylen as nat),
{
    let mut r: Vec<u8> = Vec::new();
    append(&mut r, meta_prefix.as_slice());
    let mut i: usize = 0;
    assert(r@ =~= meta_prefix@ + high_bytes(0));
    while i < max_keylen
        invariant
            i <= max_keylen,
            r@ == meta_prefix@ + high_bytes(i as nat),
        decreases max_keylen - i,
    {
        r.push(255);
        assert(r@ =~= meta_prefix@ + high_bytes((i + 1) as nat));
        i = i + 1;
    }
    r
}

/// The stored key from which a range over the map starts.
pub fn range_lower(meta_prefix: &PreBytes, lower: KeyBound<'_>) -> (r: Vec<u8>)
    ensures
        r@ == lower_key(meta_prefix@, lower),
{
    match lower {
        KeyBound::Included(lo) => full_key(meta_prefix, lo),
        KeyBound::Excluded(lo) => {
            let mut r = full_key(meta_prefix, lo);
            r.push(0);
            r
        },
        KeyBound::Unbounded => {
            let r = full_key(meta_prefix, &[]);
            assert(r@ =~= meta_prefix@);
            r
        },
    }
}

/// The stored key before which a range over the map ends.
pub fn range_upper(meta_prefix: &PreBytes, upper: KeyBound<'_>, max_keylen: usize) -> (r: Vec<u8>)
    ensures
        r@ == upper_key(meta_prefix@, upper, max_keylen as nat),
{
    match upper {
        KeyBound::Included(hi) => {
            let mut r = full_key(meta_prefix, hi);
            r.push(0);
            r
        },
        KeyBound::Excluded(hi) => full_key(meta_prefix, hi),
        KeyBound::Unbounded => get_upper_bound_value(meta_prefix, max_keylen),
    }
}

/// The greatest key length observed once a key of length `key_len` was stored.
pub fn observe_keylen(max_keylen: usize, key_len: usize) -> (r: usize)
    ensures
        r >= max_keylen,
        r >= key_len,
        r == max_keylen || r == key_len,
{
    if key_len > max_keylen {
        key_len
    } else {
        max_keylen
    }
}

/// One step of an allocator: the identifier that the counter cell holds is
/// handed out, and the cell is to hold the next one. Nothing is handed out
/// once the counter has reached its end.
pub fn alloc_from_cell(cell: &[u8; 8]) -> (r: Option<(u64, [u8; 8])>)
    ensures
        match r {
            Some(step) => step.0 == be_value(cell@) && step.0 < u64::MAX && step.1@ == be_bytes(
                (step.0 + 1) as u64,
            ),
            None => be_value(cell@) == u64::MAX,
        },
{
    let id = u64_from_be_bytes(cell);
    if id == u64::MAX {
        None
    } else {
        Some((id, u64_to_be_bytes(id + 1)))
    }
}

/// What a counter cell holds at first.
pub fn initial_cell(first: u64) -> (r: [u8; 8])
    ensures
        r@ == be_bytes(first),
{
    u64_to_be_bytes(first)
}

/// The size of the cache that all maps share: a fifth of a gibibyte for each
/// thread that the machine runs at once, rounded down to whole gibibytes,
/// and no less than one gibibyte nor more than twelve.
pub fn cache_capacity(parallelism: u32) -> (r: u64)
    ensures
        GB <= r <= 12 * GB,
        r == cache_capacity_of(parallelism),
{
    let share: u64 = (parallelism as u64 * 2 / 10) * GB;
    let capped = if share > 12 * GB {
        12 * GB
    } else {
        share
    };
    if capped < GB {
        GB
    } else {
        capped
    }
}

/// The size of the shared cache for a number of threads.
pub open spec fn cache_capacity_of(parallelism: u32) -> int {
    let share = (parallelism as int * 2 / 10) * GB;
    if share > 12 * GB {
        12 * GB
    } else if share < GB {
        GB as int
    } else {
        share
    }
}

} // verus!
