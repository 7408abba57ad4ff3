//! Opaque byte strings: hashes, public keys, signatures.

use vstd::prelude::*;

verus! {

/// A byte string with value semantics.  Hashes, keys and signatures are all
/// carried as `Bytes`.
pub struct Bytes {
    data: Vec<u8>,
}

impl View for Bytes {
    type V = Seq<u8>;

    closed spec fn view(&self) -> Seq<u8> {
        self.data@
    }
}

impl Clone for Bytes {
    fn clone(&self) -> (res: Self)
        ensures
            res@ == self@,
    {
        Bytes { data: self.data.clone() }
    }
}

impl PartialEq for Bytes {
    fn eq(&self, other: &Self) -> (r: bool) {
        let r = self.data == other.data;
        proof {
            if r {
                assert(self@ =~= other@);
            } else {
                if self@ == other@ {
                    assert(forall|i: int|
                        0 <= i < self.data@.len() ==> self.data@[i] == other.data@[i]);
                    assert(false);
                }
            }
        }
        r
    }
}

impl vstd::std_specs::cmp::PartialEqSpecImpl for Bytes {
    open spec fn obeys_eq_spec() -> bool {
        true
    }

    open spec fn eq_spec(&self, other: &Self) -> bool {
        self@ == other@
    }
}

impl Eq for Bytes {}

impl Default for Bytes {
    fn default() -> (res: Self)
        ensures
            res@ == Seq::<u8>::empty(),
    {
        Bytes { data: Vec::new() }
    }
}

/// The value of a byte string read as one big-endian unsigned number.
pub open spec fn be_value(s: Seq<u8>) -> nat
    decreases s.len(),
{
    if s.len() == 0 {
        0
    } else {
        (be_value(s.drop_last()) * 256 + s.last()) as nat
    }
}

/// 256 to the `k`.
pub open spec fn pow256(k: nat) -> nat
    decreases k,
{
    if k == 0 {
        1
    } else {
        256 * pow256((k - 1) as nat)
    }
}

pub proof fn lemma_be_value_bound(s: Seq<u8>)
    ensures
        be_value(s) < pow256(s.len() as nat),
    decreases s.len(),
{
    if s.len() > 0 {
        lemma_be_value_bound(s.drop_last());
    }
}

/// The last 64 bits of a byte string, as an unsigned number; shorter strings
/// give the whole string's value.
pub open spec fn tail_u64_of(s: Seq<u8>) -> nat {
    if s.len() <= 8 {
        be_value(s)
    } else {
        be_value(s.subrange(s.len() - 8, s.len() as int))
    }
}

/// Compares two byte slices for equality of contents.
pub fn slice_eq(a: &[u8], b: &[u8]) -> (r: bool)
    ensures
        r == (a@ == b@),
{
    let n = a.len();
    if n != b.len() {
        proof {
            assert(a@ != b@);
        }
        return false;
    }
    let mut i: usize = 0;
    while i < n
        invariant
            i <= n,
            n == a@.len(),
            n == b@.len(),
            forall|j: int| 0 <= j < i ==> a@[j] == b@[j],
        decreases n - i,
    {
        if a[i] != b[i] {
            return false;
        }
        i = i + 1;
    }
    proof {
        assert(a@ =~= b@);
    }
    true
}

/// True of a byte string that is empty or holds only zero bytes.
pub open spec fn seq_is_zero(s: Seq<u8>) -> bool {
    forall|i: int| 0 <= i < s.len() ==> s[i] == 0
}

impl Bytes {
    /// Copies a slice into an owned byte string.
    pub fn from_bytes(data: &[u8]) -> (res: Self)
        ensures
            res@ == data@,
    {
        Bytes { data: vstd::slice::slice_to_vec(data) }
    }

    /// Wraps an owned vector.
    pub fn from_vec(data: Vec<u8>) -> (res: Self)
        ensures
            res@ == data@,
    {
        Bytes { data }
    }

    pub fn as_slice(&self) -> (res: &[u8])
        ensures
            res@ == self@,
    {
        self.data.as_slice()
    }

    pub fn len(&self) -> (n: usize)
        ensures
            n == self@.len(),
    {
        self.data.len()
    }

    pub fn get(&self, i: usize) -> (b: u8)
        requires
            i < self@.len(),
        ensures
            b == self@[i as int],
    {
        self.data[i]
    }

    pub fn is_empty(&self) -> (r: bool)
        ensures
            r == (self@.len() == 0),
    {
        self.data.len() == 0
    }

    /// True when the string is empty or holds only zero bytes; an unset
    /// origin or an unset previous-block hash looks like this.
    pub open spec fn spec_is_zero(&self) -> bool {
        seq_is_zero(self@)
    }

    pub fn is_zero(&self) -> (r: bool)
        ensures
            r == self.spec_is_zero(),
    {
        let mut i: usize = 0;
        while i < self.data.len()
            invariant
                i <= self@.len(),
                forall|j: int| 0 <= j < i ==> self@[j] == 0,
            decreases self@.len() - i,
        {
            if self.data[i] != 0 {
                return false;
            }
            i = i + 1;
        }
        true
    }

    /// The last 64 bits of the string, read big-endian; used as the seed of
    /// the committee walk.
    pub fn get_tail_u64(&self) -> (r: u64)
        ensures
            r == tail_u64_of(self@),
    {
        let n = self.data.len();
        let start = if n <= 8 {
            0
        } else {
            n - 8
        };
        let ghost tail: Seq<u8> = self@.subrange(start as int, n as int);
        assert(tail =~= if n <= 8 {
            self@
        } else {
            self@.subrange(n - 8, n as int)
        });
        let mut acc: u64 = 0;
        let mut i: usize = start;
        proof {
            assert(self@.subrange(start as int, start as int) =~= Seq::<u8>::empty());
        }
        while i < n
            invariant
                start <= i <= n,
                n == self@.len(),
                n - 8 <= start,
                acc == be_value(self@.subrange(start as int, i as int)),
                tail == self@.subrange(start as int, n as int),
            decreases n - i,
        {
            let ghost prefix = self@.subrange(start as int, i as int);
            proof {
                lemma_be_value_bound(prefix);
                assert(prefix.len() <= 7);
                lemma_pow256_unfold();
                assert(pow256(prefix.len() as nat) <= pow256(7)) by {
                    lemma_pow256_monotone(prefix.len() as nat, 7);
                }
            }
            let b = self.data[i];
            acc = acc * 256 + (b as u64);
            proof {
                let next = self@.subrange(start as int, i + 1int);
                assert(next.drop_last() =~= prefix);
                assert(next.last() == self@[i as int]);
            }
            i = i + 1;
        }
        proof {
            assert(self@.subrange(start as int, n as int) == tail);
        }
        acc
    }
}

proof fn lemma_pow256_unfold()
    ensures
        pow256(7) == 0x100000000000000,
{
    assert(pow256(0) == 1);
    assert(pow256(1) == 256);
    assert(pow256(2) == 0x10000);
    assert(pow256(3) == 0x1000000);
    assert(pow256(4) == 0x100000000);
    assert(pow256(5) == 0x10000000000);
    assert(pow256(6) == 0x1000000000000);
}

proof fn lemma_pow256_monotone(a: nat, b: nat)
    requires
        a <= b,
    ensures
        pow256(a) <= pow256(b),
    decreases b,
{
    if a < b {
        lemma_pow256_monotone(a, (b - 1) as nat);
    }
}

} // verus!
