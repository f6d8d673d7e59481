//! Little-endian byte encoding of unsigned integers, the building block of
//! the envelope wire format.
use vstd::prelude::*;

verus! {

/// 256 raised to the power `n`: the number of values representable in `n` bytes.
pub open spec fn pow256(n: nat) -> nat
    decreases n,
{
    if n == 0 {
        1
    } else {
        256 * pow256((n - 1) as nat)
    }
}

/// The `n` little-endian bytes of `x` (`x` is taken modulo `pow256(n)`).
pub open spec fn le_bytes(x: nat, n: nat) -> Seq<u8>
    decreases n,
{
    if n == 0 {
        Seq::empty()
    } else {
        seq![(x % 256) as u8] + le_bytes(x / 256, (n - 1) as nat)
    }
}

/// The value of a little-endian byte string.
pub open spec fn le_val(b: Seq<u8>) -> nat
    decreases b.len(),
{
    if b.len() == 0 {
        0
    } else {
        (b[0] + 256 * le_val(b.drop_first())) as nat
    }
}

pub proof fn lemma_le_bytes_len(x: nat, n: nat)
    ensures
        le_bytes(x, n).len() == n,
    decreases n,
{
    if n > 0 {
        lemma_le_bytes_len(x / 256, (n - 1) as nat);
    }
}

pub proof fn lemma_pow256_monotonic(m: nat, n: nat)
    requires
        m <= n,
    ensures
        pow256(m) <= pow256(n),
    decreases n,
{
    if m < n {
        lemma_pow256_monotonic(m, (n - 1) as nat);
        assert(pow256(n) == 256 * pow256((n - 1) as nat));
        assert(pow256((n - 1) as nat) <= 256 * pow256((n - 1) as nat)) by {
            assert(pow256((n - 1) as nat) >= 1) by {
                lemma_pow256_monotonic(0, (n - 1) as nat);
            }
        }
    }
}

/// Reading back the bytes of `x` yields `x` when `x` fits in `n` bytes.
pub proof fn lemma_le_val_le_bytes(x: nat, n: nat)
    requires
        x < pow256(n),
    ensures
        le_val(le_bytes(x, n)) == x,
    decreases n,
{
    if n == 0 {
        assert(x == 0);
    } else {
        let b = le_bytes(x, n);
        lemma_le_bytes_len(x / 256, (n - 1) as nat);
        assert(b.drop_first() =~= le_bytes(x / 256, (n - 1) as nat));
        assert(x / 256 < pow256((n - 1) as nat)) by {
            assert(x < 256 * pow256((n - 1) as nat));
        }
        lemma_le_val_le_bytes(x / 256, (n - 1) as nat);
        assert(le_val(b) == x % 256 + 256 * (x / 256));
    }
}

/// A little-endian byte string's value fits in its own length.
pub proof fn lemma_le_val_bound(b: Seq<u8>)
    ensures
        le_val(b) < pow256(b.len()),
    decreases b.len(),
{
    if b.len() > 0 {
        lemma_le_val_bound(b.drop_first());
        assert(b[0] < 256);
        assert(le_val(b) == b[0] + 256 * le_val(b.drop_first()));
        assert(256 * le_val(b.drop_first()) <= 256 * (pow256((b.len() - 1) as nat) - 1));
    }
}

/// Writing out a byte string's value reproduces the byte string.
pub proof fn lemma_le_bytes_le_val(b: Seq<u8>)
    ensures
        le_bytes(le_val(b), b.len()) == b,
    decreases b.len(),
{
    if b.len() > 0 {
        let x = le_val(b);
        let rest = le_val(b.drop_first());
        assert(x == b[0] + 256 * rest);
        assert(x % 256 == b[0] && x / 256 == rest) by {
            assert((b[0] + 256 * rest) % 256 == b[0] && (b[0] + 256 * rest) / 256 == rest)
                by (nonlinear_arith)
                requires
                    0 <= b[0] < 256,
                    rest >= 0,
            ;
        }
        lemma_le_bytes_le_val(b.drop_first());
        assert(le_bytes(x, b.len()) =~= b);
    }
}

/// `pow256(8)` is one past the largest `u64`.
pub proof fn lemma_pow256_8()
    ensures
        pow256(8) == 0x1_0000_0000_0000_0000,
        pow256(4) == 0x1_0000_0000,
{
    reveal_with_fuel(pow256, 9);
}

/// Appends the `n` little-endian bytes of `x` to `out`.
pub fn push_le(out: &mut Vec<u8>, x: u64, n: usize)
    ensures
        final(out)@ == old(out)@ + le_bytes(x as nat, n as nat),
{
    let ghost orig: Seq<u8> = out@;
    let mut cur: u64 = x;
    let mut i: usize = 0;
    while i < n
        invariant
            i <= n,
            out@.len() == orig.len() + i,
            orig + le_bytes(x as nat, n as nat) == out@ + le_bytes(
                cur as nat,
                (n - i) as nat,
            ),
            out@.subrange(0, orig.len() as int) == orig,
        decreases n - i,
    {
        let byte: u8 = (cur % 256) as u8;
        proof {
            assert(le_bytes(cur as nat, (n - i) as nat) == seq![byte] + le_bytes(
                (cur / 256) as nat,
                (n - i - 1) as nat,
            ));
            assert(out@ + le_bytes(cur as nat, (n - i) as nat) =~= out@.push(byte) + le_bytes(
                (cur / 256) as nat,
                (n - i - 1) as nat,
            ));
        }
        out.push(byte);
        cur = cur / 256;
        i = i + 1;
    }
    proof {
        lemma_le_bytes_len(x as nat, n as nat);
        assert(out@ =~= orig + le_bytes(x as nat, n as nat));
    }
}

/// Appends all of `src` to `out`.
pub fn append_bytes(out: &mut Vec<u8>, src: &Vec<u8>)
    ensures
        final(out)@ == old(out)@ + src@,
{
    let ghost orig: Seq<u8> = out@;
    let mut i: usize = 0;
    while i < src.len()
        invariant
            i <= src@.len(),
            out@ == orig + src@.subrange(0, i as int),
        decreases src@.len() - i,
    {
        out.push(src[i]);
        i = i + 1;
        proof {
            assert(orig + src@.subrange(0, i as int) =~= out@);
        }
    }
    proof {
        assert(orig + src@.subrange(0, src@.len() as int) =~= orig + src@);
    }
}

/// Copies `b[start..end]` into a fresh byte vector.
pub fn copy_range(b: &Vec<u8>, start: usize, end: usize) -> (r: Vec<u8>)
    requires
        start <= end <= b@.len(),
    ensures
        r@ == b@.subrange(start as int, end as int),
{
    let mut out: Vec<u8> = Vec::new();
    let mut i: usize = start;
    while i < end
        invariant
            start <= i <= end <= b@.len(),
            out@ == b@.subrange(start as int, i as int),
        decreases end - i,
    {
        out.push(b[i]);
        i = i + 1;
        proof {
            assert(b@.subrange(start as int, i as int) =~= out@);
        }
    }
    out
}

/// Copies a whole byte vector.
pub fn clone_bytes(b: &Vec<u8>) -> (r: Vec<u8>)
    ensures
        r@ == b@,
{
    let r = copy_range(b, 0, b.len());
    proof {
        assert(b@.subrange(0, b@.len() as int) =~= b@);
    }
    r
}

/// Compares two byte vectors for equality of contents.
pub fn bytes_eq(a: &Vec<u8>, b: &Vec<u8>) -> (r: bool)
    ensures
        r == (a@ == b@),
{
    if a.len() != b.len() {
        return false;
    }
    let mut i: usize = 0;
    while i < a.len()
        invariant
            i <= a@.len(),
            a@.len() == b@.len(),
            forall|j: int| 0 <= j < i ==> a@[j] == b@[j],
        decreases a@.len() - i,
    {
        if a[i] != b[i] {
            return false;
        }
        i = i + 1;
    }
    proof {
        assert(a@ =~= b@);
    }
    true
}

/// Reads the value of the `n` little-endian bytes of `b` starting at `start`.
pub fn read_le(b: &Vec<u8>, start: usize, n: usize) -> (r: u64)
    requires
        start + n <= b@.len(),
        n <= 8,
    ensures
        r as nat == le_val(b@.subrange(start as int, (start + n) as int)),
{
    let blen: usize = b.len();
    let mut acc: u64 = 0;
    let mut i: usize = n;
    proof {
        assert(b@.subrange((start + n) as int, (start + n) as int) =~= Seq::empty());
    }
    while i > 0
        invariant
            i <= n,
            n <= 8,
            start + n <= blen,
            blen == b@.len(),
            acc as nat == le_val(b@.subrange((start + i) as int, (start + n) as int)),
        decreases i,
    {
        proof {
            let tail = b@.subrange((start + i) as int, (start + n) as int);
            lemma_le_val_bound(tail);
            lemma_pow256_monotonic(tail.len() as nat, 7);
            lemma_pow256_8();
            assert(acc as nat <= pow256(7) - 1);
        }
        i = i - 1;
        let ghost whole = b@.subrange((start + i) as int, (start + n) as int);
        proof {
            assert(whole.drop_first() =~= b@.subrange((start + i + 1) as int, (start + n) as int));
            assert(le_val(whole) == whole[0] + 256 * le_val(whole.drop_first()));
        }
        acc = acc * 256 + (b[start + i] as u64);
    }
    acc
}

} // verus!
