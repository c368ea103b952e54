//! Bits in a byte string: bit `k` is bit `k % 8` of byte `k / 8`.
use vstd::prelude::*;

verus! {

/// Whether bit `k` is set.
pub open spec fn bit(s: Seq<u8>, k: int) -> bool {
    s[k / 8] & (1u8 << ((k % 8) as u8)) != 0
}

/// `s` with bit `k` set.
pub open spec fn with_bit(s: Seq<u8>, k: int) -> Seq<u8> {
    s.update(k / 8, s[k / 8] | (1u8 << ((k % 8) as u8)))
}

/// `s` with bit `k` cleared.
pub open spec fn without_bit(s: Seq<u8>, k: int) -> Seq<u8> {
    s.update(k / 8, s[k / 8] & !(1u8 << ((k % 8) as u8)))
}

/// `s` with the `n` bits from `k` on set.
pub open spec fn with_run(s: Seq<u8>, k: int, n: int) -> Seq<u8>
    decreases n,
{
    if n <= 0 {
        s
    } else {
        with_bit(with_run(s, k, n - 1), k + n - 1)
    }
}

/// Whether the `n` bits from `k` on are all clear.
pub open spec fn run_clear(s: Seq<u8>, k: int, n: int) -> bool {
    forall|i: int| k <= i < k + n ==> !#[trigger] bit(s, i)
}

pub open spec fn is_first_clear(s: Seq<u8>, k: int) -> bool {
    &&& 0 <= k < 8 * s.len()
    &&& !bit(s, k)
    &&& forall|j: int| 0 <= j < k ==> #[trigger] bit(s, j)
}

/// The lowest bit that is clear.
pub open spec fn first_clear(s: Seq<u8>) -> Option<u32> {
    if exists|k: int| is_first_clear(s, k) {
        Some((choose|k: int| is_first_clear(s, k)) as u32)
    } else {
        None
    }
}

/// Whether bit `k` starts the lowest run of `n` clear bits among the first
/// `limit` bits.
pub open spec fn is_first_run(s: Seq<u8>, n: int, limit: int, k: int) -> bool {
    &&& 0 <= k
    &&& k + n <= limit
    &&& k + n <= 8 * s.len()
    &&& run_clear(s, k, n)
    &&& forall|j: int| 0 <= j < k ==> !#[trigger] run_clear(s, j, n)
}

/// Where the lowest run of `n` clear bits among the first `limit` bits starts.
pub open spec fn first_run(s: Seq<u8>, n: int, limit: int) -> Option<u32> {
    if exists|k: int| is_first_run(s, n, limit, k) {
        Some((choose|k: int| is_first_run(s, n, limit, k)) as u32)
    } else {
        None
    }
}

proof fn lemma_masks(x: u8, a: u8, b: u8)
    requires
        a < 8,
        b < 8,
    ensures
        (x | (1u8 << a)) & (1u8 << b) != 0 <==> a == b || x & (1u8 << b) != 0,
        (x & !(1u8 << a)) & (1u8 << b) != 0 <==> a != b && x & (1u8 << b) != 0,
        x & (1u8 << a) != 0 ==> x | (1u8 << a) == x,
        x & (1u8 << a) == 0 ==> x & !(1u8 << a) == x,
        x & (1u8 << a) == 0 ==> (x | (1u8 << a)) & !(1u8 << a) == x,
{
    assert(((x | (1u8 << a)) & (1u8 << b) != 0) == (a == b || x & (1u8 << b) != 0))
        by (bit_vector)
        requires
            a < 8,
            b < 8,
    ;
    assert(((x & !(1u8 << a)) & (1u8 << b) != 0) == (a != b && x & (1u8 << b) != 0))
        by (bit_vector)
        requires
            a < 8,
            b < 8,
    ;
    assert(x & (1u8 << a) != 0 ==> x | (1u8 << a) == x) by (bit_vector)
        requires
            a < 8,
    ;
    assert(x & (1u8 << a) == 0 ==> x & !(1u8 << a) == x) by (bit_vector)
        requires
            a < 8,
    ;
    assert(x & (1u8 << a) == 0 ==> (x | (1u8 << a)) & !(1u8 << a) == x) by (bit_vector)
        requires
            a < 8,
    ;
}

/// Setting or clearing a bit changes that bit and no other, and does nothing
/// where the bit already is as asked; clearing undoes setting.
pub proof fn lemma_bit(s: Seq<u8>, k: int, j: int)
    requires
        0 <= k < 8 * s.len(),
        0 <= j < 8 * s.len(),
    ensures
        bit(with_bit(s, k), j) == (j == k || bit(s, j)),
        bit(without_bit(s, k), j) == (j != k && bit(s, j)),
        bit(s, k) ==> with_bit(s, k) == s,
        !bit(s, k) ==> without_bit(s, k) == s,
        !bit(s, k) ==> without_bit(with_bit(s, k), k) == s,
{
    lemma_masks(s[k / 8], (k % 8) as u8, (j % 8) as u8);
    if bit(s, k) {
        assert(with_bit(s, k) =~= s);
    } else {
        assert(without_bit(s, k) =~= s);
        assert(without_bit(with_bit(s, k), k) =~= s);
    }
}

/// Bytes that agree in every bit are the same.
pub proof fn lemma_byte(a: Seq<u8>, b: Seq<u8>, j: int)
    requires
        0 <= j < a.len(),
        j < b.len(),
        forall|i: int| 8 * j <= i < 8 * j + 8 ==> #[trigger] bit(a, i) == bit(b, i),
    ensures
        a[j] == b[j],
{
    let x = a[j];
    let y = b[j];
    assert(bit(a, 8 * j) == bit(b, 8 * j));
    assert(bit(a, 8 * j + 1) == bit(b, 8 * j + 1));
    assert(bit(a, 8 * j + 2) == bit(b, 8 * j + 2));
    assert(bit(a, 8 * j + 3) == bit(b, 8 * j + 3));
    assert(bit(a, 8 * j + 4) == bit(b, 8 * j + 4));
    assert(bit(a, 8 * j + 5) == bit(b, 8 * j + 5));
    assert(bit(a, 8 * j + 6) == bit(b, 8 * j + 6));
    assert(bit(a, 8 * j + 7) == bit(b, 8 * j + 7));
    assert(x == y) by (bit_vector)
        requires
            (x & (1u8 << 0u8) != 0) == (y & (1u8 << 0u8) != 0),
            (x & (1u8 << 1u8) != 0) == (y & (1u8 << 1u8) != 0),
            (x & (1u8 << 2u8) != 0) == (y & (1u8 << 2u8) != 0),
            (x & (1u8 << 3u8) != 0) == (y & (1u8 << 3u8) != 0),
            (x & (1u8 << 4u8) != 0) == (y & (1u8 << 4u8) != 0),
            (x & (1u8 << 5u8) != 0) == (y & (1u8 << 5u8) != 0),
            (x & (1u8 << 6u8) != 0) == (y & (1u8 << 6u8) != 0),
            (x & (1u8 << 7u8) != 0) == (y & (1u8 << 7u8) != 0),
    ;
}

/// Setting a run of bits sets those bits and changes no other.
pub proof fn lemma_run(s: Seq<u8>, k: int, n: int, j: int)
    requires
        0 <= k,
        0 <= n,
        k + n <= 8 * s.len(),
        0 <= j < 8 * s.len(),
    ensures
        with_run(s, k, n).len() == s.len(),
        bit(with_run(s, k, n), j) == (k <= j < k + n || bit(s, j)),
    decreases n,
{
    if n > 0 {
        lemma_run(s, k, n - 1, j);
        lemma_bit(with_run(s, k, n - 1), k + n - 1, j);
    }
}

proof fn lemma_first_clear(s: Seq<u8>, k: int)
    requires
        is_first_clear(s, k),
        k <= u32::MAX,
    ensures
        first_clear(s) == Some(k as u32),
{
    let c = choose|k: int| is_first_clear(s, k);
    if c < k {
        assert(bit(s, c));
    }
    if k < c {
        assert(bit(s, k));
    }
}

proof fn lemma_first_run(s: Seq<u8>, n: int, limit: int, k: int)
    requires
        is_first_run(s, n, limit, k),
        k <= u32::MAX,
    ensures
        first_run(s, n, limit) == Some(k as u32),
{
    let c = choose|k: int| is_first_run(s, n, limit, k);
    if c < k {
        assert(!run_clear(s, c, n));
    }
    if k < c {
        assert(!run_clear(s, k, n));
    }
}

/// Bits of a byte string, as a set of used places.
pub struct Bits {
    pub data: Vec<u8>,
}

impl Bits {
    pub fn is_set(&self, k: u32) -> (r: bool)
        requires
            k < 8 * self.data.len(),
        ensures
            r == bit(self.data@, k as int),
    {
        let byte: usize = (k / 8) as usize;
        let mask: u8 = 1u8 << ((k % 8) as u8);
        self.data[byte] & mask != 0
    }

    /// Set bit `k`. Returns false if it was set already.
    pub fn set(&mut self, k: u32) -> (r: bool)
        requires
            k < 8 * old(self).data.len(),
        ensures
            r == !bit(old(self).data@, k as int),
            final(self).data@ == with_bit(old(self).data@, k as int),
    {
        proof {
            lemma_bit(self.data@, k as int, k as int);
        }
        if self.is_set(k) {
            return false;
        }
        let byte: usize = (k / 8) as usize;
        let mask: u8 = 1u8 << ((k % 8) as u8);
        let v: u8 = self.data[byte] | mask;
        self.data.set(byte, v);
        true
    }

    /// Clear bit `k`. Returns false if it was clear already.
    pub fn clear(&mut self, k: u32) -> (r: bool)
        requires
            k < 8 * old(self).data.len(),
        ensures
            r == bit(old(self).data@, k as int),
            final(self).data@ == without_bit(old(self).data@, k as int),
    {
        proof {
            lemma_bit(self.data@, k as int, k as int);
        }
        if !self.is_set(k) {
            return false;
        }
        let byte: usize = (k / 8) as usize;
        let mask: u8 = 1u8 << ((k % 8) as u8);
        let v: u8 = self.data[byte] & !mask;
        self.data.set(byte, v);
        true
    }

    /// The lowest bit that is clear.
    pub fn first_clear(&self) -> (r: Option<u32>)
        requires
            8 * self.data@.len() <= u32::MAX,
        ensures
            r == first_clear(self.data@),
            match r {
                Some(k) => is_first_clear(self.data@, k as int),
                None => forall|j: int| 0 <= j < 8 * self.data@.len() ==> #[trigger] bit(
                    self.data@,
                    j,
                ),
            },
    {
        let n: u32 = self.data.len() as u32 * 8;
        let mut k: u32 = 0;
        while k < n
            invariant
                n == 8 * self.data@.len(),
                k <= n,
                forall|j: int| 0 <= j < k ==> #[trigger] bit(self.data@, j),
            decreases n - k,
        {
            if !self.is_set(k) {
                proof {
                    lemma_first_clear(self.data@, k as int);
                }
                return Some(k);
            }
            k = k + 1;
        }
        None
    }

    /// Where the lowest run of `count` clear bits among the first `limit` starts.
    pub fn first_run(&self, count: u32, limit: u32) -> (r: Option<u32>)
        requires
            8 * self.data@.len() <= u32::MAX,
        ensures
            r == first_run(self.data@, count as int, limit as int),
            match r {
                Some(k) => is_first_run(self.data@, count as int, limit as int, k as int),
                None => forall|j: int|
                    0 <= j && j + count <= limit && j + count <= 8 * self.data@.len()
                        ==> !#[trigger] run_clear(self.data@, j, count as int),
            },
    {
        let ghost s = self.data@;
        if count == 0 {
            proof {
                lemma_first_run(s, 0, limit as int, 0);
            }
            return Some(0);
        }
        let mut run_start: u32 = 0;
        let mut run_len: u32 = 0;
        let bits: u32 = self.data.len() as u32 * 8;
        let end: u32 = if limit < bits {
            limit
        } else {
            bits
        };
        let mut k: u32 = 0;
        while k < end
            invariant
                s == self.data@,
                bits == 8 * s.len(),
                end <= bits,
                end <= limit,
                k <= end,
                0 < count,
                run_len < count,
                run_len <= k,
                run_len > 0 ==> run_start + run_len == k,
                run_clear(s, k - run_len, run_len as int),
                forall|j: int|
                    0 <= j < k - run_len ==> !#[trigger] run_clear(s, j, count as int),
            decreases end - k,
        {
            if !self.is_set(k) {
                if run_len == 0 {
                    run_start = k;
                }
                run_len = run_len + 1;
                if run_len >= count {
                    proof {
                        lemma_first_run(s, count as int, limit as int, run_start as int);
                    }
                    return Some(run_start);
                }
            } else {
                assert forall|j: int| 0 <= j < k + 1 implies !#[trigger] run_clear(
                    s,
                    j,
                    count as int,
                ) by {
                    if j >= k - run_len {
                        assert(bit(s, k as int));
                    }
                }
                run_len = 0;
            }
            k = k + 1;
        }
        assert forall|j: int|
            0 <= j && j + count <= limit && j + count <= 8 * s.len() implies !#[trigger] run_clear(
            s,
            j,
            count as int,
        ) by {
            assert(j < k - run_len);
        }
        None
    }
}

} // verus!
