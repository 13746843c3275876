//! A small chained hash map with `u64` keys for the boot-time library.
//!
//! Entries live in buckets; a key's bucket is its FNV-1a hash, taken over
//! the key's eight little-endian bytes from a per-map seed, reduced modulo
//! the bucket count. The table doubles its bucket count whenever the load
//! factor reaches three quarters.

use vstd::arithmetic::div_mod::lemma_mod_bound;
use vstd::prelude::*;

verus! {

/// One FNV-1a round: fold one byte into the running hash.
pub open spec fn fnv_step(h: u64, b: u8) -> u64 {
    ((((h ^ (b as u64)) as nat) * 0x100000001b3) % 0x1_0000_0000_0000_0000) as u64
}

/// FNV-1a over a byte sequence, from the running hash `h`.
pub open spec fn fnv_bytes(h: u64, bytes: Seq<u8>) -> u64
    decreases bytes.len(),
{
    if bytes.len() == 0 {
        h
    } else {
        fnv_step(fnv_bytes(h, bytes.drop_last()), bytes.last())
    }
}

/// The eight bytes of a key, least significant first.
pub open spec fn key_bytes(k: u64) -> Seq<u8> {
    Seq::new(8, |i: int| ((k >> ((8 * i) as u64)) & 0xff) as u8)
}

/// The full hash of a key under a seed.
pub open spec fn hash_of(seed: u64, k: u64) -> u64 {
    fnv_bytes(seed, key_bytes(k))
}

/// The bucket a key belongs to in a table of `cap` buckets.
pub open spec fn slot_of(seed: u64, k: u64, cap: int) -> int {
    hash_of(seed, k) as int % cap
}

/// The first value stored under `k` in one bucket, scanning from the front.
pub open spec fn find<V>(b: Seq<(u64, V)>, k: u64) -> Option<V>
    decreases b.len(),
{
    if b.len() == 0 {
        None
    } else if b.first().0 == k {
        Some(b.first().1)
    } else {
        find(b.drop_first(), k)
    }
}

/// No key occurs twice within one bucket.
pub open spec fn bucket_keys_unique<V>(b: Seq<(u64, V)>) -> bool {
    forall|j1: int, j2: int| 0 <= j1 < j2 < b.len() ==> (#[trigger] b[j1]).0 != (#[trigger] b[j2]).0
}

/// The bucket structure is sound: `cap` buckets, every entry sits in the
/// bucket its key hashes to, and no bucket holds a key twice.
pub open spec fn buckets_wf<V>(seed: u64, cap: int, bs: Seq<Seq<(u64, V)>>) -> bool {
    &&& 0 < cap
    &&& bs.len() == cap
    &&& forall|i: int| 0 <= i < bs.len() ==> bucket_keys_unique(#[trigger] bs[i])
    &&& forall|i: int, j: int|
        0 <= i < bs.len() && 0 <= j < bs[i].len() ==> slot_of(seed, (#[trigger] bs[i][j]).0, cap)
            == i
}

/// The mapping a bucket structure stores: a key is present when its own
/// bucket holds it, and maps to the value found there.
pub open spec fn map_of<V>(seed: u64, cap: int, bs: Seq<Seq<(u64, V)>>) -> Map<u64, V> {
    Map::new(
        |k: u64| 0 < cap && bs.len() == cap && find(bs[slot_of(seed, k, cap)], k) is Some,
        |k: u64| find(bs[slot_of(seed, k, cap)], k).unwrap(),
    )
}

/// A key is found in a bucket exactly when some entry carries it.
proof fn lemma_find_some_iff_exists<V>(b: Seq<(u64, V)>, k: u64)
    ensures
        find(b, k) is Some <==> exists|j: int| 0 <= j < b.len() && (#[trigger] b[j]).0 == k,
    decreases b.len(),
{
    if b.len() > 0 {
        lemma_find_some_iff_exists(b.drop_first(), k);
        if b.first().0 == k {
            assert(b[0].0 == k);
        } else if find(b, k) is Some {
            let j = choose|j: int| 0 <= j < b.drop_first().len() && b.drop_first()[j].0 == k;
            assert(b[j + 1].0 == k);
        } else if exists|j: int| 0 <= j < b.len() && (#[trigger] b[j]).0 == k {
            let j = choose|j: int| 0 <= j < b.len() && (#[trigger] b[j]).0 == k;
            assert(b.drop_first()[j - 1].0 == k);
        }
    }
}

/// In a bucket without repeated keys, `find` returns the value of the
/// entry that carries the key.
proof fn lemma_find_at<V>(b: Seq<(u64, V)>, k: u64, j: int)
    requires
        bucket_keys_unique(b),
        0 <= j < b.len(),
        b[j].0 == k,
    ensures
        find(b, k) == Some(b[j].1),
    decreases b.len(),
{
    if b.first().0 == k {
        assert(j == 0);
    } else {
        assert(bucket_keys_unique(b.drop_first()));
        lemma_find_at(b.drop_first(), k, j - 1);
    }
}

/// Appending an entry changes `find` only for that entry's key, and only
/// when the key was absent.
proof fn lemma_find_push<V>(b: Seq<(u64, V)>, e: (u64, V), k: u64)
    ensures
        find(b.push(e), k) == (if find(b, k) is Some {
            find(b, k)
        } else if e.0 == k {
            Some(e.1)
        } else {
            None
        }),
    decreases b.len(),
{
    if b.len() == 0 {
        assert(b.push(e).first() == e);
        assert(b.push(e).drop_first() =~= Seq::<(u64, V)>::empty());
        assert(find(b.push(e).drop_first(), k) is None);
    } else {
        assert(b.push(e).first() == b.first());
        assert(b.push(e).drop_first() =~= b.drop_first().push(e));
        lemma_find_push(b.drop_first(), e, k);
        if b.first().0 == k {
            assert(find(b.push(e), k) == Some(b.first().1));
            assert(find(b, k) == Some(b.first().1));
        } else {
            assert(find(b.push(e), k) == find(b.drop_first().push(e), k));
            assert(find(b, k) == find(b.drop_first(), k));
        }
    }
}

/// Overwriting the value of the entry that carries `k` rebinds `k` and
/// leaves every other key's lookup unchanged.
proof fn lemma_find_update<V>(b: Seq<(u64, V)>, j: int, k: u64, v: V)
    requires
        bucket_keys_unique(b),
        0 <= j < b.len(),
        b[j].0 == k,
    ensures
        find(b.update(j, (k, v)), k) == Some(v),
        forall|k2: u64| k2 != k ==> #[trigger] find(b.update(j, (k, v)), k2) == find(b, k2),
        bucket_keys_unique(b.update(j, (k, v))),
        forall|jj: int| 0 <= jj < b.len() ==> (#[trigger] b.update(j, (k, v))[jj]).0 == b[jj].0,
    decreases b.len(),
{
    let b2 = b.update(j, (k, v));
    if j == 0 {
        assert(b2.first() == (k, v));
        assert(b2.drop_first() =~= b.drop_first());
    } else {
        assert(b.first().0 != k);
        assert(b2.first() == b.first());
        assert(b2.drop_first() =~= b.drop_first().update(j - 1, (k, v)));
        assert(bucket_keys_unique(b.drop_first()));
        lemma_find_update(b.drop_first(), j - 1, k, v);
        assert forall|k2: u64| k2 != k implies #[trigger] find(b2, k2) == find(b, k2) by {
            assert(find(b2.drop_first(), k2) == find(b.drop_first(), k2));
        }
    }
}

/// A key's bucket index lies within the table.
proof fn lemma_slot_range(seed: u64, k: u64, cap: int)
    requires
        0 < cap,
    ensures
        0 <= slot_of(seed, k, cap) < cap,
{
    lemma_mod_bound(hash_of(seed, k) as int, cap);
}

/// Replacing the bucket of `key` with one that binds `key` to `value` and
/// looks up every other key as before turns the stored mapping into the
/// old mapping with `key` rebound.
proof fn lemma_map_of_update_bucket<V>(
    seed: u64,
    cap: int,
    bs: Seq<Seq<(u64, V)>>,
    idx: int,
    b2: Seq<(u64, V)>,
    key: u64,
    value: V,
)
    requires
        buckets_wf(seed, cap, bs),
        idx == slot_of(seed, key, cap),
        find(b2, key) == Some(value),
        forall|k2: u64| k2 != key ==> #[trigger] find(b2, k2) == find(bs[idx], k2),
        bucket_keys_unique(b2),
        forall|jj: int| 0 <= jj < b2.len() ==> slot_of(seed, (#[trigger] b2[jj]).0, cap) == idx,
    ensures
        buckets_wf(seed, cap, bs.update(idx, b2)),
        map_of(seed, cap, bs.update(idx, b2)) == map_of(seed, cap, bs).insert(key, value),
{
    let bs2 = bs.update(idx, b2);
    lemma_slot_range(seed, key, cap);
    assert forall|i: int| 0 <= i < bs2.len() implies bucket_keys_unique(#[trigger] bs2[i]) by {
        if i != idx {
            assert(bs2[i] == bs[i]);
        }
    }
    assert forall|i: int, j: int|
        0 <= i < bs2.len() && 0 <= j < bs2[i].len() implies slot_of(
        seed,
        (#[trigger] bs2[i][j]).0,
        cap,
    ) == i by {
        if i != idx {
            assert(bs2[i] == bs[i]);
        }
    }
    assert forall|k2: u64| k2 != key implies #[trigger] find(bs2[slot_of(seed, k2, cap)], k2)
        == find(bs[slot_of(seed, k2, cap)], k2) by {
        lemma_slot_range(seed, k2, cap);
        let s = slot_of(seed, k2, cap);
        if s == idx {
            assert(find(b2, k2) == find(bs[idx], k2));
        } else {
            assert(bs2[s] == bs[s]);
        }
    }
    assert(find(bs2[slot_of(seed, key, cap)], key) == Some(value));
    assert(map_of(seed, cap, bs2) =~= map_of(seed, cap, bs).insert(key, value));
}

/// The filling table is structurally sound for `ncap` buckets: right
/// length, no repeated key in a bucket, every entry in the bucket its key
/// hashes to.
#[verifier::opaque]
spec fn new_table_sound<V>(seed: u64, ncap: int, ns: Seq<Seq<(u64, V)>>) -> bool {
    &&& ns.len() == ncap
    &&& forall|x: int| 0 <= x < ncap ==> bucket_keys_unique(#[trigger] ns[x])
    &&& forall|x: int, y: int|
        0 <= x < ncap && 0 <= y < ns[x].len() ==> slot_of(seed, (#[trigger] ns[x][y]).0, ncap)
            == x
}

/// What the filling table answers so far, while old buckets before `i` are
/// fully moved and bucket `i` is moved from position `cur` on: lookups of
/// keys from moved material agree with the old table, all other lookups
/// miss.
#[verifier::opaque]
spec fn carried_over<V>(
    seed: u64,
    cap: int,
    ncap: int,
    orig: Seq<Seq<(u64, V)>>,
    i: int,
    cur: int,
    ns: Seq<Seq<(u64, V)>>,
) -> bool {
    forall|k: u64|
        #![trigger slot_of(seed, k, ncap)]
        (slot_of(seed, k, cap) < i ==> find(ns[slot_of(seed, k, ncap)], k) == find(
            orig[slot_of(seed, k, cap)],
            k,
        )) && (slot_of(seed, k, cap) == i ==> find(ns[slot_of(seed, k, ncap)], k) == find(
            orig[i].skip(cur),
            k,
        )) && (slot_of(seed, k, cap) > i ==> find(ns[slot_of(seed, k, ncap)], k) is None)
}

/// A table of empty buckets is sound and has carried nothing over yet.
proof fn lemma_fresh_table<V>(seed: u64, cap: int, ncap: int, orig: Seq<Seq<(u64, V)>>, ns: Seq<
    Seq<(u64, V)>,
>)
    requires
        0 < cap,
        ncap == 2 * cap,
        orig.len() == cap,
        ns.len() == ncap,
        forall|x: int| 0 <= x < ncap ==> (#[trigger] ns[x]).len() == 0,
    ensures
        new_table_sound(seed, ncap, ns),
        carried_over(seed, cap, ncap, orig, 0, orig[0].len() as int, ns),
{
    reveal(new_table_sound);
    reveal(carried_over);
    assert(orig[0].skip(orig[0].len() as int) =~= Seq::<(u64, V)>::empty());
    assert forall|k: u64| #![trigger slot_of(seed, k, ncap)] find(
        ns[slot_of(seed, k, ncap)],
        k,
    ) is None by {
        lemma_slot_range(seed, k, ncap);
        assert(ns[slot_of(seed, k, ncap)].len() == 0);
    }
}

/// Moving the entry `orig[i][cur - 1]` from its old bucket into its new
/// bucket keeps the filling table sound and extends what has been carried
/// over to the suffix of the old bucket from `cur - 1` on.
proof fn lemma_move_entry<V>(
    seed: u64,
    cap: int,
    ncap: int,
    orig: Seq<Seq<(u64, V)>>,
    i: int,
    cur: int,
    ns: Seq<Seq<(u64, V)>>,
)
    requires
        ncap == 2 * cap,
        0 <= i < cap,
        buckets_wf(seed, cap, orig),
        1 <= cur <= orig[i].len(),
        new_table_sound(seed, ncap, ns),
        carried_over(seed, cap, ncap, orig, i, cur, ns),
    ensures
        0 <= slot_of(seed, orig[i][cur - 1].0, ncap) < ncap,
        find(ns[slot_of(seed, orig[i][cur - 1].0, ncap)], orig[i][cur - 1].0) is None,
        ({
            let e = orig[i][cur - 1];
            let ti = slot_of(seed, e.0, ncap);
            let ns2 = ns.update(ti, ns[ti].push(e));
            &&& new_table_sound(seed, ncap, ns2)
            &&& carried_over(seed, cap, ncap, orig, i, cur - 1, ns2)
        }),
{
    reveal(new_table_sound);
    reveal(carried_over);
    let e = orig[i][cur - 1];
    let ti = slot_of(seed, e.0, ncap);
    lemma_slot_range(seed, e.0, ncap);
    assert(slot_of(seed, e.0, cap) == i);
    assert(bucket_keys_unique(orig[i]));
    lemma_find_some_iff_exists(orig[i].skip(cur), e.0);
    assert forall|j: int|
        0 <= j < orig[i].skip(cur).len() implies (#[trigger] orig[i].skip(cur)[j]).0 != e.0 by {
        assert(orig[i].skip(cur)[j] == orig[i][j + cur]);
    }
    assert(find(orig[i].skip(cur), e.0) is None);
    assert(find(ns[ti], e.0) is None);
    let b2 = ns[ti].push(e);
    let ns2 = ns.update(ti, b2);
    lemma_find_some_iff_exists(ns[ti], e.0);
    assert forall|j1: int, j2: int|
        0 <= j1 < j2 < b2.len() implies (#[trigger] b2[j1]).0 != (#[trigger] b2[j2]).0 by {
        if j2 == ns[ti].len() {
            assert(b2[j1] == ns[ti][j1]);
            assert(b2[j2] == e);
        } else {
            assert(b2[j1] == ns[ti][j1]);
            assert(b2[j2] == ns[ti][j2]);
        }
    }
    assert forall|x: int| 0 <= x < ncap implies bucket_keys_unique(#[trigger] ns2[x]) by {
        if x != ti {
            assert(ns2[x] == ns[x]);
        }
    }
    assert forall|x: int, y: int|
        0 <= x < ncap && 0 <= y < ns2[x].len() implies slot_of(
        seed,
        (#[trigger] ns2[x][y]).0,
        ncap,
    ) == x by {
        if x == ti {
            if y < ns[ti].len() {
                assert(ns2[x][y] == ns[x][y]);
            } else {
                assert(ns2[x][y] == e);
            }
        } else {
            assert(ns2[x] == ns[x]);
        }
    }
    assert forall|k: u64|
        #![trigger slot_of(seed, k, ncap)]
        (slot_of(seed, k, cap) < i ==> find(ns2[slot_of(seed, k, ncap)], k) == find(
            orig[slot_of(seed, k, cap)],
            k,
        )) && (slot_of(seed, k, cap) == i ==> find(ns2[slot_of(seed, k, ncap)], k) == find(
            orig[i].skip(cur - 1),
            k,
        )) && (slot_of(seed, k, cap) > i ==> find(ns2[slot_of(seed, k, ncap)], k) is None) by {
        lemma_slot_range(seed, k, cap);
        lemma_slot_range(seed, k, ncap);
        let s = slot_of(seed, k, cap);
        let tk = slot_of(seed, k, ncap);
        lemma_find_push(ns[ti], e, k);
        if k == e.0 {
            assert(tk == ti);
            assert(orig[i].skip(cur - 1).first() == e);
            assert(find(orig[i].skip(cur - 1), k) == Some(e.1));
            assert(find(ns2[tk], k) == Some(e.1));
        } else {
            if tk == ti {
                assert(find(ns2[tk], k) == find(ns[tk], k));
            } else {
                assert(ns2[tk] == ns[tk]);
            }
            if s == i {
                assert(orig[i].skip(cur - 1).drop_first() =~= orig[i].skip(cur));
                assert(orig[i].skip(cur - 1).first() == e);
                assert(find(orig[i].skip(cur - 1), k) == find(orig[i].skip(cur), k));
            }
        }
    }
}

/// Once bucket `i` is fully moved, everything up to bucket `i + 1` has
/// been carried over.
proof fn lemma_finish_bucket<V>(
    seed: u64,
    cap: int,
    ncap: int,
    orig: Seq<Seq<(u64, V)>>,
    i: int,
    ns: Seq<Seq<(u64, V)>>,
)
    requires
        ncap == 2 * cap,
        0 <= i < cap,
        orig.len() == cap,
        carried_over(seed, cap, ncap, orig, i, 0, ns),
    ensures
        carried_over(
            seed,
            cap,
            ncap,
            orig,
            i + 1,
            if i + 1 < cap {
                orig[i + 1].len() as int
            } else {
                0
            },
            ns,
        ),
{
    reveal(carried_over);
    assert(orig[i].skip(0) =~= orig[i]);
    if i + 1 < cap {
        assert(orig[i + 1].skip(orig[i + 1].len() as int) =~= Seq::<(u64, V)>::empty());
    }
}

/// When every old bucket has been moved, the filling table is a sound
/// bucket structure that stores exactly the old mapping.
proof fn lemma_resize_done<V>(
    seed: u64,
    cap: int,
    ncap: int,
    orig: Seq<Seq<(u64, V)>>,
    ns: Seq<Seq<(u64, V)>>,
)
    requires
        ncap == 2 * cap,
        buckets_wf(seed, cap, orig),
        new_table_sound(seed, ncap, ns),
        carried_over(seed, cap, ncap, orig, cap, 0, ns),
    ensures
        buckets_wf(seed, ncap, ns),
        map_of(seed, ncap, ns) == map_of(seed, cap, orig),
{
    reveal(new_table_sound);
    reveal(carried_over);
    assert forall|k: u64|
        #[trigger] map_of(seed, ncap, ns).contains_key(k) <==> map_of(
        seed,
        cap,
        orig,
    ).contains_key(k) by {
        lemma_slot_range(seed, k, cap);
        lemma_slot_range(seed, k, ncap);
    }
    assert forall|k: u64| map_of(seed, cap, orig).contains_key(k) implies #[trigger] map_of(
        seed,
        ncap,
        ns,
    )[k] == map_of(seed, cap, orig)[k] by {
        lemma_slot_range(seed, k, cap);
        lemma_slot_range(seed, k, ncap);
    }
    assert(map_of(seed, ncap, ns) =~= map_of(seed, cap, orig));
}

/// The bucket views of a bucket vector.
pub open spec fn views_of<V>(buckets: Vec<Vec<(u64, V)>>) -> Seq<Seq<(u64, V)>> {
    buckets@.map_values(|b: Vec<(u64, V)>| b@)
}

/// All entries of the buckets from position `(bi, ii)` on, in bucket
/// order.
pub open spec fn flatten_from<V>(bs: Seq<Seq<(u64, V)>>, bi: int, ii: int) -> Seq<(u64, V)>
    decreases bs.len() - bi,
{
    if bi < 0 || bi >= bs.len() {
        Seq::empty()
    } else {
        bs[bi].skip(ii) + flatten_from(bs, bi + 1, 0)
    }
}

/// Entry `j` of the flattened tail comes from one of its buckets.
proof fn lemma_flatten_mem<V>(bs: Seq<Seq<(u64, V)>>, bi: int, j: int)
    requires
        0 <= bi <= bs.len(),
        0 <= j < flatten_from(bs, bi, 0).len(),
    ensures
        exists|x: int, y: int|
            bi <= x < bs.len() && 0 <= y < bs[x].len() && (#[trigger] bs[x][y]) == flatten_from(
                bs,
                bi,
                0,
            )[j],
    decreases bs.len() - bi,
{
    let f = flatten_from(bs, bi, 0);
    let frec = flatten_from(bs, bi + 1, 0);
    let blen = bs[bi].len() as int;
    assert(bs[bi].skip(0) =~= bs[bi]);
    assert(f == bs[bi] + frec);
    if j < blen {
        assert(bs[bi][j] == f[j]);
    } else {
        lemma_flatten_mem(bs, bi + 1, j - blen);
        let (x, y) = choose|x: int, y: int|
            bi + 1 <= x < bs.len() && 0 <= y < bs[x].len() && (#[trigger] bs[x][y])
                == flatten_from(bs, bi + 1, 0)[j - blen];
        assert(bs[x][y] == f[j]);
    }
}

/// The entry at `(x, y)` appears in the flattened tail from `bi` on.
proof fn lemma_flatten_complete<V>(bs: Seq<Seq<(u64, V)>>, bi: int, x: int, y: int)
    requires
        0 <= bi <= bs.len(),
        bi <= x < bs.len(),
        0 <= y < bs[x].len(),
    ensures
        exists|j: int|
            0 <= j < flatten_from(bs, bi, 0).len() && (#[trigger] flatten_from(bs, bi, 0)[j])
                == bs[x][y],
    decreases bs.len() - bi,
{
    let f = flatten_from(bs, bi, 0);
    let frec = flatten_from(bs, bi + 1, 0);
    let blen = bs[bi].len() as int;
    assert(bs[bi].skip(0) =~= bs[bi]);
    assert(f == bs[bi] + frec);
    if x == bi {
        assert(f[y] == bs[x][y]);
    } else {
        lemma_flatten_complete(bs, bi + 1, x, y);
        let j = choose|j: int|
            0 <= j < flatten_from(bs, bi + 1, 0).len() && (#[trigger] flatten_from(
                bs,
                bi + 1,
                0,
            )[j]) == bs[x][y];
        assert(f[blen + j] == frec[j]);
        assert(flatten_from(bs, bi, 0)[blen + j] == bs[x][y]);
    }
}

/// In a sound bucket structure, two different positions of the flattened
/// tail carry different keys.
proof fn lemma_flatten_distinct<V>(seed: u64, cap: int, bs: Seq<Seq<(u64, V)>>, bi: int, j1: int, j2: int)
    requires
        buckets_wf(seed, cap, bs),
        0 <= bi <= bs.len(),
        0 <= j1 < j2 < flatten_from(bs, bi, 0).len(),
    ensures
        (flatten_from(bs, bi, 0)[j1]).0 != (flatten_from(bs, bi, 0)[j2]).0,
    decreases bs.len() - bi,
{
    let f = flatten_from(bs, bi, 0);
    let frec = flatten_from(bs, bi + 1, 0);
    let blen = bs[bi].len() as int;
    assert(bs[bi].skip(0) =~= bs[bi]);
    assert(f == bs[bi] + frec);
    if j2 < blen {
        assert(f[j1] == bs[bi][j1]);
        assert(f[j2] == bs[bi][j2]);
        assert(bucket_keys_unique(bs[bi]));
    } else if j1 >= blen {
        assert(f[j1] == frec[j1 - blen]);
        assert(f[j2] == frec[j2 - blen]);
        lemma_flatten_distinct(seed, cap, bs, bi + 1, j1 - blen, j2 - blen);
    } else {
        assert(f[j1] == bs[bi][j1]);
        assert(f[j2] == frec[j2 - blen]);
        lemma_flatten_mem(bs, bi + 1, j2 - blen);
        let (x, y) = choose|x: int, y: int|
            bi + 1 <= x < bs.len() && 0 <= y < bs[x].len() && (#[trigger] bs[x][y])
                == flatten_from(bs, bi + 1, 0)[j2 - blen];
        assert(slot_of(seed, (bs[x][y]).0, cap) == x);
        assert(slot_of(seed, (bs[bi][j1]).0, cap) == bi);
    }
}

/// The FNV-1a hasher: a running hash, started from a seed.
struct SimpleHasher {
    hash: u64,
}

impl SimpleHasher {
    fn new(seed: u64) -> (r: Self)
        ensures
            r.hash == seed,
    {
        Self { hash: seed }
    }

    /// Fold `bytes` into the running hash, one FNV-1a round per byte.
    fn write(&mut self, bytes: &[u8])
        ensures
            final(self).hash == fnv_bytes(old(self).hash, bytes@),
    {
        let ghost h0 = self.hash;
        let mut j: usize = 0;
        while j < bytes.len()
            invariant
                j <= bytes@.len(),
                self.hash == fnv_bytes(h0, bytes@.take(j as int)),
            decreases bytes@.len() - j,
        {
            proof {
                assert(bytes@.take(j + 1).drop_last() =~= bytes@.take(j as int));
                assert(bytes@.take(j + 1).last() == bytes@[j as int]);
            }
            self.hash = (self.hash ^ (bytes[j] as u64)).wrapping_mul(0x100000001b3);
            j = j + 1;
        }
        proof {
            assert(bytes@.take(bytes@.len() as int) =~= bytes@);
        }
    }

    fn finish(&self) -> (r: u64)
        ensures
            r == self.hash,
    {
        self.hash
    }
}

/// Compute the seeded FNV-1a hash of a key's eight little-endian bytes.
fn hash_u64(seed: u64, key: u64) -> (r: u64)
    ensures
        r == hash_of(seed, key),
{
    let mut hasher = SimpleHasher::new(seed);
    let mut kb: Vec<u8> = Vec::new();
    let mut i: usize = 0;
    while i < 8
        invariant
            i <= 8,
            kb@.len() == i,
            kb@ == key_bytes(key).take(i as int),
        decreases 8 - i,
    {
        let b = ((key >> (8 * (i as u64))) & 0xff) as u8;
        kb.push(b);
        proof {
            assert(kb@ =~= key_bytes(key).take(i + 1));
        }
        i = i + 1;
    }
    proof {
        assert(key_bytes(key).take(8) =~= key_bytes(key));
    }
    hasher.write(kb.as_slice());
    hasher.finish()
}

/// A chained hash map from `u64` keys to values of type `V`.
pub struct HashMap<V> {
    seed: u64,
    buckets: Vec<Vec<(u64, V)>>,
    capacity: usize,
    len: usize,
}

impl<V> HashMap<V> {
    /// The bucket views of the table.
    pub closed spec fn bseq(self) -> Seq<Seq<(u64, V)>> {
        views_of(self.buckets)
    }

    /// The mapping this table currently stores.
    pub closed spec fn view(self) -> Map<u64, V> {
        map_of(self.seed, self.capacity as int, self.bseq())
    }

    /// The table is well formed: sound bucket structure, a finite mapping,
    /// an accurate entry count, and a bucket count in step with the load.
    pub closed spec fn wf(self) -> bool {
        &&& buckets_wf(self.seed, self.capacity as int, self.bseq())
        &&& self@.dom().finite()
        &&& self.len == self@.dom().len()
        &&& self.capacity <= 3 * self.len + 16
    }

    /// An empty table with sixteen buckets.
    pub fn new() -> (r: Self)
        ensures
            r.wf(),
            r@ == Map::<u64, V>::empty(),
    {
        let mut buckets: Vec<Vec<(u64, V)>> = Vec::new();
        let mut i: usize = 0;
        while i < 16
            invariant
                buckets@.len() == i,
                i <= 16,
                forall|t: int| 0 <= t < i ==> (#[trigger] buckets@[t])@.len() == 0,
            decreases 16 - i,
        {
            buckets.push(Vec::new());
            i = i + 1;
        }
        let r = Self { seed: 0xcbf29ce484222325, buckets, capacity: 16, len: 0 };
        proof {
            assert forall|k: u64| !r@.dom().contains(k) by {
                lemma_mod_bound(hash_of(r.seed, k) as int, 16);
            }
            assert(r@.dom() =~= Set::<u64>::empty());
            assert(r@ =~= Map::<u64, V>::empty());
        }
        r
    }

    /// Number of entries stored.
    pub fn len(&self) -> (r: usize)
        requires
            self.wf(),
        ensures
            r == self@.dom().len(),
    {
        self.len
    }

    /// The bucket index of `key`: its seeded FNV-1a hash, reduced modulo
    /// the bucket count.
    fn hash_key(&self, key: u64) -> (r: u64)
        requires
            self.capacity > 0,
        ensures
            r == slot_of(self.seed, key, self.capacity as int),
            r < self.capacity,
    {
        let hash_value = hash_u64(self.seed, key);
        proof {
            lemma_mod_bound(hash_value as int, self.capacity as int);
        }
        hash_value % (self.capacity as u64)
    }

    /// Double the bucket count and rehash every entry into its new bucket.
    /// The stored mapping is unchanged.
    /// Double the bucket count and rehash every entry into its new bucket.
    /// The stored mapping is unchanged.
    #[verifier::rlimit(100)]
    fn resize(&mut self)
        requires
            old(self).wf(),
            4 * old(self).len >= 3 * old(self).capacity,
            old(self).len < 0x1000_0000,
        ensures
            final(self).wf(),
            final(self)@ == old(self)@,
            final(self).seed == old(self).seed,
            final(self).len == old(self).len,
    {
        let ghost pre = *self;
        let ghost orig = pre.bseq();
        let ghost cap = pre.capacity as int;
        let new_capacity = self.capacity * 2;
        let ghost ncap = new_capacity as int;
        let mut new_buckets: Vec<Vec<(u64, V)>> = Vec::new();
        let mut t: usize = 0;
        while t < new_capacity
            invariant
                new_buckets@.len() == t,
                t <= new_capacity,
                forall|x: int| 0 <= x < t ==> (#[trigger] new_buckets@[x])@.len() == 0,
            decreases new_capacity - t,
        {
            new_buckets.push(Vec::new());
            t = t + 1;
        }
        proof {
            assert forall|x: int|
                0 <= x < ncap implies (#[trigger] views_of(new_buckets)[x]).len() == 0 by {
                assert(new_buckets@[x]@.len() == 0);
            }
            lemma_fresh_table(pre.seed, cap, ncap, orig, views_of(new_buckets));
        }
        let cap_e = self.capacity;
        let mut i: usize = 0;
        while i < cap_e
            invariant
                pre.wf(),
                cap_e == pre.capacity,
                cap == pre.capacity as int,
                0 < cap,
                ncap == 2 * cap,
                ncap == new_capacity as int,
                orig == pre.bseq(),
                i <= cap_e,
                self.seed == pre.seed,
                self.capacity == pre.capacity,
                self.len == pre.len,
                self.buckets@.len() == cap,
                new_buckets@.len() == ncap,
                forall|ii: int| i <= ii < cap ==> #[trigger] self.bseq()[ii] == orig[ii],
                new_table_sound(pre.seed, ncap, views_of(new_buckets)),
                carried_over(
                    pre.seed,
                    cap,
                    ncap,
                    orig,
                    i as int,
                    if (i as int) < cap {
                        orig[i as int].len() as int
                    } else {
                        0
                    },
                    views_of(new_buckets),
                ),
            decreases cap_e - i,
        {
            while self.buckets[i].len() > 0
                invariant
                    pre.wf(),
                    cap_e == pre.capacity,
                    cap == pre.capacity as int,
                    (i as int) < cap,
                    ncap == 2 * cap,
                    ncap == new_capacity as int,
                    orig == pre.bseq(),
                    self.seed == pre.seed,
                    self.capacity == pre.capacity,
                    self.len == pre.len,
                    self.buckets@.len() == cap,
                    new_buckets@.len() == ncap,
                    self.bseq()[i as int].len() <= orig[i as int].len(),
                    self.bseq()[i as int] == orig[i as int].take(
                        self.bseq()[i as int].len() as int,
                    ),
                    forall|ii: int| i < ii < cap ==> #[trigger] self.bseq()[ii] == orig[ii],
                    new_table_sound(pre.seed, ncap, views_of(new_buckets)),
                    carried_over(
                        pre.seed,
                        cap,
                        ncap,
                        orig,
                        i as int,
                        self.bseq()[i as int].len() as int,
                        views_of(new_buckets),
                    ),
                decreases self.bseq()[i as int].len(),
            {
                let ghost cur = self.bseq()[i as int].len() as int;
                let ghost nsold = views_of(new_buckets);
                let ghost bsnap = self.bseq();
                proof {
                    assert(orig[i as int].take(cur).len() == cur);
                    lemma_move_entry(pre.seed, cap, ncap, orig, i as int, cur, nsold);
                }
                let e = self.buckets[i].pop().unwrap();
                proof {
                    assert(e == orig[i as int][cur - 1]);
                    assert(self.bseq()[i as int] =~= orig[i as int].take(cur - 1));
                }
                let ti = (hash_u64(self.seed, e.0) % (new_capacity as u64)) as usize;
                proof {
                    lemma_mod_bound(hash_of(pre.seed, e.0) as int, ncap);
                    assert(ti as int == slot_of(pre.seed, e.0, ncap));
                }
                new_buckets[ti].push(e);
                proof {
                    assert(views_of(new_buckets) =~= nsold.update(
                        ti as int,
                        nsold[ti as int].push(e),
                    ));
                    assert forall|ii: int| i < ii < cap implies #[trigger] self.bseq()[ii]
                        == orig[ii] by {
                        assert(self.bseq()[ii] == bsnap[ii]);
                    }
                }
            }
            proof {
                lemma_finish_bucket(
                    pre.seed,
                    cap,
                    ncap,
                    orig,
                    i as int,
                    views_of(new_buckets),
                );
                assert forall|ii: int| i + 1 <= ii < cap implies #[trigger] self.bseq()[ii]
                    == orig[ii] by {}
            }
            i = i + 1;
        }
        self.buckets = new_buckets;
        self.capacity = new_capacity;
        proof {
            lemma_resize_done(pre.seed, cap, ncap, orig, self.bseq());
            assert(self@ == pre@);
            assert(self@.dom() =~= pre@.dom());
        }
    }

    /// Insert `key -> value`: overwrite the stored value when the key is
    /// already present, append a new entry to the key's bucket otherwise.
    pub fn insert(&mut self, key: u64, value: V)
        requires
            old(self).wf(),
            old(self)@.dom().len() < 0x1000_0000,
        ensures
            final(self).wf(),
            final(self)@ == old(self)@.insert(key, value),
    {
        if self.len * 4 >= self.capacity * 3 {
            self.resize();
        }
        let ghost pre = *self;
        let idx = self.hash_key(key) as usize;
        let ghost bs = pre.bseq();
        let ghost b = bs[idx as int];
        let blen = self.buckets[idx].len();
        let mut j: usize = 0;
        let mut pos: Option<usize> = None;
        while j < blen
            invariant
                j <= blen,
                blen == b.len(),
                b == self.bseq()[idx as int],
                idx < self.buckets@.len(),
                pos matches Some(p) ==> p < blen && b[p as int].0 == key,
                pos is None ==> forall|jj: int| 0 <= jj < j ==> (#[trigger] b[jj]).0 != key,
            decreases blen - j,
        {
            if pos.is_none() && self.buckets[idx][j].0 == key {
                pos = Some(j);
            }
            j = j + 1;
        }
        if let Some(p) = pos {
            self.buckets[idx][p] = (key, value);
            proof {
                let b2 = b.update(p as int, (key, value));
                lemma_find_at(b, key, p as int);
                lemma_find_update(b, p as int, key, value);
                assert(self.bseq() =~= bs.update(idx as int, b2));
                assert forall|jj: int| 0 <= jj < b2.len() implies slot_of(
                    pre.seed,
                    (#[trigger] b2[jj]).0,
                    pre.capacity as int,
                ) == idx by {
                    assert(b2[jj].0 == b[jj].0);
                    assert(bs[idx as int][jj] == b[jj]);
                }
                lemma_map_of_update_bucket(
                    pre.seed,
                    pre.capacity as int,
                    bs,
                    idx as int,
                    b2,
                    key,
                    value,
                );
                assert(self@ == pre@.insert(key, value));
                assert(pre@.contains_key(key));
                assert(self@.dom() =~= pre@.dom());
            }
            return;
        }
        proof {
            lemma_find_some_iff_exists(b, key);
            assert(find(b, key) is None);
            assert(!pre@.contains_key(key));
        }
        self.buckets[idx].push((key, value));
        self.len = self.len + 1;
        proof {
            let b2 = b.push((key, value));
            assert forall|k2: u64| k2 != key implies #[trigger] find(b2, k2) == find(b, k2) by {
                lemma_find_push(b, (key, value), k2);
            }
            lemma_find_push(b, (key, value), key);
            assert(find(b2, key) == Some(value));
            assert forall|j1: int, j2: int| 0 <= j1 < j2 < b2.len() implies (#[trigger] b2[j1]).0
                != (#[trigger] b2[j2]).0 by {
                if j2 == b.len() {
                    assert(b2[j1] == b[j1]);
                    assert(b2[j2] == (key, value));
                } else {
                    assert(b2[j1] == b[j1]);
                    assert(b2[j2] == b[j2]);
                }
            }
            assert forall|jj: int| 0 <= jj < b2.len() implies slot_of(
                pre.seed,
                (#[trigger] b2[jj]).0,
                pre.capacity as int,
            ) == idx by {
                if jj < b.len() {
                    assert(b2[jj] == b[jj]);
                    assert(bs[idx as int][jj] == b[jj]);
                } else {
                    assert(b2[jj] == (key, value));
                }
            }
            assert(self.bseq() =~= bs.update(idx as int, b2));
            lemma_map_of_update_bucket(
                pre.seed,
                pre.capacity as int,
                bs,
                idx as int,
                b2,
                key,
                value,
            );
            assert(self@ == pre@.insert(key, value));
            assert(self@.dom() == pre@.dom().insert(key));
        }
    }

    /// A cursor over all entries, bucket by bucket. It yields every stored
    /// entry exactly once, in an order determined by the seed.
    pub fn iter<'a>(&'a self) -> (r: Iter<'a, V>)
        requires
            self.wf(),
        ensures
            r.wf(),
            forall|j: int|
                0 <= j < r.remaining().len() ==> self@.contains_pair(
                    (#[trigger] r.remaining()[j]).0,
                    r.remaining()[j].1,
                ),
            forall|j1: int, j2: int|
                0 <= j1 < j2 < r.remaining().len() ==> (#[trigger] r.remaining()[j1]).0 != (
                #[trigger] r.remaining()[j2]).0,
            forall|k: u64|
                #[trigger] self@.contains_key(k) ==> exists|j: int|
                    0 <= j < r.remaining().len() && (#[trigger] r.remaining()[j]).0 == k,
    {
        let r = Iter { buckets: &self.buckets, bucket_index: 0, item_index: 0 };
        proof {
            let bs = self.bseq();
            let cap = self.capacity as int;
            let rem = flatten_from(bs, 0, 0);
            assert(bs[0].skip(0) =~= bs[0]);
            assert(r.remaining() == rem);
            assert forall|j: int|
                0 <= j < rem.len() implies self@.contains_pair(
                (#[trigger] rem[j]).0,
                rem[j].1,
            ) by {
                lemma_flatten_mem(bs, 0, j);
                let (x, y) = choose|x: int, y: int|
                    0 <= x < bs.len() && 0 <= y < bs[x].len() && (#[trigger] bs[x][y])
                        == flatten_from(bs, 0, 0)[j];
                assert(slot_of(self.seed, (bs[x][y]).0, cap) == x);
                lemma_find_at(bs[x], (bs[x][y]).0, y);
            }
            assert forall|j1: int, j2: int|
                0 <= j1 < j2 < rem.len() implies (#[trigger] rem[j1]).0 != (
            #[trigger] rem[j2]).0 by {
                lemma_flatten_distinct(self.seed, cap, bs, 0, j1, j2);
            }
            assert forall|k: u64| #[trigger] self@.contains_key(k) implies exists|j: int|
                0 <= j < rem.len() && (#[trigger] rem[j]).0 == k by {
                lemma_slot_range(self.seed, k, cap);
                let s = slot_of(self.seed, k, cap);
                lemma_find_some_iff_exists(bs[s], k);
                let y = choose|y: int| 0 <= y < bs[s].len() && (#[trigger] bs[s][y]).0 == k;
                lemma_flatten_complete(bs, 0, s, y);
                let j = choose|j: int|
                    0 <= j < flatten_from(bs, 0, 0).len() && (#[trigger] flatten_from(
                        bs,
                        0,
                        0,
                    )[j]) == bs[s][y];
                assert(0 <= j < rem.len() && (rem[j]).0 == k);
            }
        }
        r
    }
}

/// A cursor over the entries of a `HashMap`, walking its buckets in order.
pub struct Iter<'a, V> {
    buckets: &'a Vec<Vec<(u64, V)>>,
    bucket_index: usize,
    item_index: usize,
}

impl<'a, V> Iter<'a, V> {
    /// The entries not yet yielded, in the order they will come.
    pub closed spec fn remaining(self) -> Seq<(u64, V)> {
        flatten_from(views_of(*self.buckets), self.bucket_index as int, self.item_index as int)
    }

    /// The cursor points at a valid position: inside the current bucket,
    /// or one past the last bucket with the item index reset.
    pub closed spec fn wf(self) -> bool {
        &&& (self.bucket_index as int) <= views_of(*self.buckets).len()
        &&& ((self.bucket_index as int) < views_of(*self.buckets).len() ==> (
        self.item_index as int) <= views_of(*self.buckets)[self.bucket_index as int].len())
        &&& ((self.bucket_index as int) == views_of(*self.buckets).len() ==> self.item_index == 0)
    }

    /// Yield the next entry and advance, or report that the walk is over.
    pub fn next(&mut self) -> (r: Option<(u64, &'a V)>)
        requires
            old(self).wf(),
        ensures
            final(self).wf(),
            old(self).remaining().len() == 0 ==> r is None && final(self).remaining()
                == old(self).remaining(),
            old(self).remaining().len() > 0 ==> (r matches Some(p) && p.0
                == old(self).remaining().first().0 && *p.1 == old(self).remaining().first().1)
                && final(self).remaining() == old(self).remaining().drop_first(),
    {
        while self.bucket_index < self.buckets.len()
            invariant
                self.buckets == old(self).buckets,
                self.wf(),
                self.remaining() == old(self).remaining(),
            decreases self.buckets@.len() - self.bucket_index,
        {
            let bi = self.bucket_index;
            let ii = self.item_index;
            let ghost bs = views_of(*self.buckets);
            if ii < self.buckets[bi].len() {
                let entry = &self.buckets[bi][ii];
                proof {
                    assert(bs[bi as int].skip(ii as int).len() > 0);
                    assert(self.remaining().first() == bs[bi as int].skip(ii as int)[0]);
                    assert(bs[bi as int].skip(ii as int)[0] == bs[bi as int][ii as int]);
                }
                self.item_index = ii + 1;
                proof {
                    assert(bs[bi as int].skip(ii + 1) =~= bs[bi as int].skip(
                        ii as int,
                    ).drop_first());
                    assert(self.remaining() =~= old(self).remaining().drop_first());
                }
                return Some((entry.0, &entry.1));
            } else {
                proof {
                    assert(bs[bi as int].skip(ii as int) =~= Seq::<(u64, V)>::empty());
                    assert(flatten_from(bs, bi as int, ii as int) =~= flatten_from(
                        bs,
                        bi + 1,
                        0,
                    ));
                }
                self.bucket_index = bi + 1;
                self.item_index = 0;
            }
        }
        proof {
            assert(self.remaining().len() == 0);
        }
        None
    }
}

} // verus!
