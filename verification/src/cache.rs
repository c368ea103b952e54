//! A sector cache in front of a device.
use vstd::prelude::*;
use lru::LruCache;
use crate::block_device::{BlockDevice, BlockDeviceError};
use crate::bytes;

verus! {

/// The cache of `lru` that evicts what was used least recently.
#[verifier::external_type_specification]
#[verifier::external_body]
#[verifier::reject_recursive_types(K)]
#[verifier::reject_recursive_types(V)]
#[verifier::reject_recursive_types(S)]
pub struct ExLruCache<K, V, S>(LruCache<K, V, S>);

/// The hasher that `lru` uses by default.
#[verifier::external_type_specification]
#[verifier::external_body]
pub struct ExDefaultHasher(lru::DefaultHasher);

/// What a cache holds, the most recently used entry first.
pub uninterp spec fn held(c: LruCache<u64, [u8; 512]>) -> Seq<(u64, [u8; 512])>;

/// How many entries a cache can hold.
pub uninterp spec fn room(c: LruCache<u64, [u8; 512]>) -> nat;

/// Position of the first entry for `k`; the length if there is none.
pub open spec fn entry_index(s: Seq<(u64, [u8; 512])>, k: u64) -> int
    decreases s.len(),
{
    if s.len() == 0 {
        0
    } else if s[0].0 == k {
        0
    } else {
        1 + entry_index(s.skip(1), k)
    }
}

proof fn lemma_entry_index(s: Seq<(u64, [u8; 512])>, k: u64)
    ensures
        0 <= entry_index(s, k) <= s.len(),
        entry_index(s, k) < s.len() ==> s[entry_index(s, k)].0 == k,
        forall|i: int| 0 <= i < entry_index(s, k) ==> (#[trigger] s[i]).0 != k,
    decreases s.len(),
{
    if s.len() > 0 && s[0].0 != k {
        let t = s.skip(1);
        lemma_entry_index(t, k);
        assert forall|i: int| 0 <= i < entry_index(s, k) implies (#[trigger] s[i]).0 != k by {
            if i > 0 {
                assert(t[i - 1] == s[i]);
            }
        }
    }
}

/// Calls `LruCache::new`: an empty cache for `cap` entries. The table that it
/// reserves, of fewer than 64 bytes for each entry, has to be addressable.
#[verifier::external_body]
fn lru_new(cap: usize) -> (c: LruCache<u64, [u8; 512]>)
    requires
        0 < cap <= isize::MAX / 64,
    ensures
        held(c) == Seq::<(u64, [u8; 512])>::empty(),
        room(c) == cap,
{
    LruCache::new(std::num::NonZeroUsize::new(cap).unwrap())
}

/// Calls `LruCache::get`: the value of the entry for `k`, which becomes the
/// most recently used.
#[verifier::external_body]
fn lru_get(c: &mut LruCache<u64, [u8; 512]>, k: u64) -> (r: Option<[u8; 512]>)
    ensures
        room(*final(c)) == room(*old(c)),
        ({
            let s = held(*old(c));
            let i = entry_index(s, k);
            if i < s.len() {
                r == Some(s[i].1) && held(*final(c)) == seq![s[i]] + s.remove(i)
            } else {
                r is None && held(*final(c)) == s
            }
        }),
{
    c.get(&k).copied()
}

/// Calls `LruCache::put`: the entry for `k` becomes the most recently used, with
/// the value `v`. A new entry pushes the least recently used one out of a cache
/// that is full.
#[verifier::external_body]
fn lru_put(c: &mut LruCache<u64, [u8; 512]>, k: u64, v: [u8; 512])
    ensures
        room(*final(c)) == room(*old(c)),
        ({
            let s = held(*old(c));
            let i = entry_index(s, k);
            held(*final(c)) == seq![(k, v)] + (if i < s.len() {
                s.remove(i)
            } else if s.len() == room(*old(c)) {
                s.drop_last()
            } else {
                s
            })
        }),
{
    c.put(k, v);
}

/// Calls `LruCache::pop`: the entry for `k` is taken out.
#[verifier::external_body]
fn lru_pop(c: &mut LruCache<u64, [u8; 512]>, k: u64)
    ensures
        room(*final(c)) == room(*old(c)),
        ({
            let s = held(*old(c));
            let i = entry_index(s, k);
            held(*final(c)) == (if i < s.len() {
                s.remove(i)
            } else {
                s
            })
        }),
{
    c.pop(&k);
}

/// Whether each cached sector is what the device holds.
pub open spec fn coherent(s: Seq<(u64, [u8; 512])>, disk: Seq<u8>) -> bool {
    forall|i: int|
        0 <= i < s.len() ==> 512 * (#[trigger] s[i]).0 + 512 <= disk.len() && s[i].1@
            == disk.subrange(512 * s[i].0, 512 * s[i].0 + 512)
}

/// No two entries are for one sector.
pub open spec fn distinct(s: Seq<(u64, [u8; 512])>) -> bool {
    forall|i: int, j: int|
        0 <= i < j < s.len() ==> (#[trigger] s[i]).0 != (#[trigger] s[j]).0
}

/// A device with a cache of its sectors in front.
pub struct CachedBlockDevice<D: BlockDevice> {
    inner: D,
    cache: LruCache<u64, [u8; 512]>,
}

impl<D: BlockDevice> CachedBlockDevice<D> {
    /// The device behind the cache.
    pub closed spec fn device(&self) -> D {
        self.inner
    }

    /// The cached sectors, the most recently used first.
    pub closed spec fn cached(&self) -> Seq<(u64, [u8; 512])> {
        held(self.cache)
    }

    /// How many sectors can be cached.
    pub closed spec fn capacity(&self) -> nat {
        room(self.cache)
    }

    /// The cache agrees with the device, and is no larger than it may be.
    pub closed spec fn wf(&self) -> bool {
        &&& coherent(held(self.cache), self.inner.bytes())
        &&& distinct(held(self.cache))
        &&& held(self.cache).len() <= room(self.cache)
        &&& room(self.cache) > 0
    }

    /// Put an empty cache for `cache_size` sectors in front of a device.
    pub fn new(inner: D, cache_size: usize) -> (r: Self)
        requires
            0 < cache_size <= isize::MAX / 64,
        ensures
            r.wf(),
            r.device() == inner,
            r.cached() == Seq::<(u64, [u8; 512])>::empty(),
            r.capacity() == cache_size,
    {
        CachedBlockDevice { inner, cache: lru_new(cache_size) }
    }

    /// Read a sector, from the cache if it is there. The result is that of a
    /// read from the device, and the sector is cached afterwards.
    pub fn read_sector(&mut self, sector_index: u64, buf: &mut [u8; 512]) -> (r: Result<
        (),
        BlockDeviceError,
    >)
        requires
            old(self).wf(),
        ensures
            final(self).wf(),
            final(self).device() == old(self).device(),
            final(self).capacity() == old(self).capacity(),
            r is Ok ==> sector_index < old(self).device().bytes().len() / 512 && final(buf)@
                == old(self).device().bytes().subrange(
                512 * sector_index,
                512 * sector_index + 512,
            ),
            r is Ok ==> final(self).cached().len() > 0 && final(self).cached()[0].0
                == sector_index,
            r is Err ==> final(self).cached() == old(self).cached(),
            sector_index >= old(self).device().bytes().len() / 512 ==> r == Err::<
                (),
                BlockDeviceError,
            >(
                BlockDeviceError::OutOfRange(
                    sector_index,
                    (old(self).device().bytes().len() / 512) as u64,
                ),
            ),
            old(self).device().reliable() && sector_index < old(self).device().bytes().len() / 512
                ==> r is Ok,
    {
        let ghost s = held(self.cache);
        proof {
            lemma_entry_index(s, sector_index);
        }
        match lru_get(&mut self.cache, sector_index) {
            Some(v) => {
                *buf = v;
                proof {
                    let i = entry_index(s, sector_index);
                    lemma_moved(s, i, s[i], self.inner.bytes());
                    let n = self.inner.bytes().len() as int;
                    assert(512 * sector_index + 512 <= n);
                }
                return Ok(());
            },
            None => {},
        }
        match self.inner.read_sector(sector_index, buf) {
            Ok(()) => {},
            Err(e) => {
                return Err(e);
            },
        }
        lru_put(&mut self.cache, sector_index, *buf);
        proof {
            let keep = if s.len() == room(self.cache) {
                s.drop_last()
            } else {
                s
            };
            assert(held(self.cache) =~= seq![(sector_index, *buf)] + keep);
            assert forall|i: int| 0 <= i < keep.len() implies keep[i] == s[i] by {}
            lemma_pushed(keep, (sector_index, *buf), self.inner.bytes());
        }
        Ok(())
    }

    pub fn sector_count(&self) -> (n: u64)
        ensures
            self.device().bytes().len() == 512 * n,
    {
        self.inner.sector_count()
    }

    /// Write a sector through to the device. What is cached of it is dropped
    /// first, and replaced once the device has taken it.
    pub fn write_sector(&mut self, sector_index: u64, buf: &[u8; 512]) -> (r: Result<
        (),
        BlockDeviceError,
    >)
        requires
            old(self).wf(),
        ensures
            final(self).wf(),
            final(self).capacity() == old(self).capacity(),
            final(self).device().reliable() == old(self).device().reliable(),
            r is Ok ==> sector_index < old(self).device().bytes().len() / 512 && final(self).device().bytes() == bytes::put(
                old(self).device().bytes(),
                512 * sector_index,
                buf@,
            ),
            sector_index >= old(self).device().bytes().len() / 512 ==> r == Err::<
                (),
                BlockDeviceError,
            >(
                BlockDeviceError::OutOfRange(
                    sector_index,
                    (old(self).device().bytes().len() / 512) as u64,
                ),
            ),
            old(self).device().reliable() && sector_index < old(self).device().bytes().len() / 512
                ==> r is Ok,
    {
        let ghost s = held(self.cache);
        let ghost disk = self.inner.bytes();
        proof {
            lemma_entry_index(s, sector_index);
        }
        lru_pop(&mut self.cache, sector_index);
        let ghost t = held(self.cache);
        let r = self.inner.write_sector(sector_index, buf);
        proof {
            lemma_dropped(s, sector_index, disk, self.inner.bytes());
        }
        match r {
            Ok(()) => {
                proof {
                    lemma_entry_index(t, sector_index);
                }
                lru_put(&mut self.cache, sector_index, *buf);
                proof {
                    let keep = if t.len() == room(self.cache) {
                        t.drop_last()
                    } else {
                        t
                    };
                    assert(held(self.cache) =~= seq![(sector_index, *buf)] + keep);
                    assert forall|i: int| 0 <= i < keep.len() implies keep[i] == t[i] by {}
                    assert(buf@ =~= self.inner.bytes().subrange(
                        512 * sector_index,
                        512 * sector_index + 512,
                    ));
                    lemma_pushed(keep, (sector_index, *buf), self.inner.bytes());
                }
                Ok(())
            },
            Err(e) => Err(e),
        }
    }

    /// Flush the device.
    pub fn flush(&mut self) -> (r: Result<(), BlockDeviceError>)
        requires
            old(self).wf(),
        ensures
            final(self).wf(),
            final(self).capacity() == old(self).capacity(),
            final(self).cached() == old(self).cached(),
            final(self).device().bytes() == old(self).device().bytes(),
            final(self).device().reliable() == old(self).device().reliable(),
            r is Ok ==> final(self).device().synced(),
            old(self).device().reliable() ==> r is Ok,
    {
        self.inner.flush()
    }
}

/// Moving an entry to the front keeps the cache sound.
proof fn lemma_moved(
    s: Seq<(u64, [u8; 512])>,
    i: int,
    e: (u64, [u8; 512]),
    disk: Seq<u8>,
)
    requires
        0 <= i < s.len(),
        e == s[i],
        coherent(s, disk),
        distinct(s),
    ensures
        coherent(seq![e] + s.remove(i), disk),
        distinct(seq![e] + s.remove(i)),
        (seq![e] + s.remove(i)).len() == s.len(),
        (seq![e] + s.remove(i))[0] == e,
{
    let t = seq![e] + s.remove(i);
    assert forall|j: int| 0 <= j < t.len() implies 512 * (#[trigger] t[j]).0 + 512 <= disk.len()
        && t[j].1@ == disk.subrange(512 * t[j].0, 512 * t[j].0 + 512) by {
        if j > 0 {
            if j - 1 < i {
                assert(t[j] == s[j - 1]);
            } else {
                assert(t[j] == s[j]);
            }
        }
    }
}

/// A fresh entry in front keeps the cache sound.
proof fn lemma_pushed(s: Seq<(u64, [u8; 512])>, e: (u64, [u8; 512]), disk: Seq<u8>)
    requires
        coherent(s, disk),
        distinct(s),
        forall|i: int| 0 <= i < s.len() ==> (#[trigger] s[i]).0 != e.0,
        512 * e.0 + 512 <= disk.len(),
        e.1@ == disk.subrange(512 * e.0, 512 * e.0 + 512),
    ensures
        coherent(seq![e] + s, disk),
        distinct(seq![e] + s),
{
    let t = seq![e] + s;
    assert forall|j: int| 0 <= j < t.len() implies 512 * (#[trigger] t[j]).0 + 512 <= disk.len()
        && t[j].1@ == disk.subrange(512 * t[j].0, 512 * t[j].0 + 512) by {
        if j > 0 {
            assert(t[j] == s[j - 1]);
        }
    }
}

/// Without its entry for `k`, the cache stays sound when sector `k` changes.
proof fn lemma_dropped(s: Seq<(u64, [u8; 512])>, k: u64, disk: Seq<u8>, disk2: Seq<u8>)
    requires
        coherent(s, disk),
        distinct(s),
        disk2.len() == disk.len(),
        forall|i: int|
            0 <= i < disk.len() && !(512 * k <= i < 512 * k + 512) ==> disk2[i] == disk[i],
    ensures
        ({
            let i = entry_index(s, k);
            let t = if i < s.len() {
                s.remove(i)
            } else {
                s
            };
            &&& coherent(t, disk2)
            &&& distinct(t)
            &&& t.len() <= s.len()
            &&& forall|j: int| 0 <= j < t.len() ==> (#[trigger] t[j]).0 != k
        }),
{
    lemma_entry_index(s, k);
    let i = entry_index(s, k);
    let t = if i < s.len() {
        s.remove(i)
    } else {
        s
    };
    assert forall|j: int| 0 <= j < t.len() implies (#[trigger] t[j]).0 != k && 512 * t[j].0 + 512
        <= disk2.len() && t[j].1@ == disk2.subrange(512 * t[j].0, 512 * t[j].0 + 512) by {
        let o = if j < i {
            j
        } else {
            j + 1
        };
        if i < s.len() {
            assert(t[j] == s[o]);
            assert(s[i].0 == k);
            assert(s[o].0 != k);
            assert(disk2.subrange(512 * s[o].0, 512 * s[o].0 + 512) =~= disk.subrange(
                512 * s[o].0,
                512 * s[o].0 + 512,
            ));
        } else {
            assert(s[j].0 != k);
            assert(disk2.subrange(512 * s[j].0, 512 * s[j].0 + 512) =~= disk.subrange(
                512 * s[j].0,
                512 * s[j].0 + 512,
            ));
        }
    }
}

} // verus!
