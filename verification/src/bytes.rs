//! Numbers as bytes, the lowest byte first.

use vstd::prelude::*;

verus! {

/// The number that the bytes stand for.
pub open spec fn le(s: Seq<u8>) -> nat
    decreases s.len(),
{
    if s.len() == 0 {
        0
    } else {
        s[0] as nat + 256 * le(s.subrange(1, s.len() as int))
    }
}

/// The lowest `n` bytes of a number.
pub open spec fn le_bytes(x: nat, n: nat) -> Seq<u8>
    decreases n,
{
    if n == 0 {
        Seq::empty()
    } else {
        seq![(x % 256) as u8] + le_bytes(x / 256, (n - 1) as nat)
    }
}

/// The first number that takes more than `n` bytes.
pub open spec fn byte_limit(n: nat) -> nat
    decreases n,
{
    if n == 0 {
        1
    } else {
        256 * byte_limit((n - 1) as nat)
    }
}

pub proof fn lemma_le_bound(s: Seq<u8>)
    ensures
        le(s) < byte_limit(s.len()),
    decreases s.len(),
{
    if s.len() > 0 {
        lemma_le_bound(s.subrange(1, s.len() as int));
    }
}

pub proof fn lemma_le_bytes(x: nat, n: nat)
    ensures
        le_bytes(x, n).len() == n,
        x < byte_limit(n) ==> le(le_bytes(x, n)) == x,
    decreases n,
{
    if n > 0 {
        let rest = le_bytes(x / 256, (n - 1) as nat);
        lemma_le_bytes(x / 256, (n - 1) as nat);
        let s = le_bytes(x, n);
        assert(s.subrange(1, s.len() as int) =~= rest);
        assert(s[0] == (x % 256) as u8);
    }
}

/// The limits of one, two, four and eight bytes.
pub proof fn lemma_limits()
    ensures
        byte_limit(1) == 0x100,
        byte_limit(2) == 0x1_0000,
        byte_limit(4) == 0x1_0000_0000,
        byte_limit(6) == 0x1_0000_0000_0000,
        byte_limit(8) == 0x1_0000_0000_0000_0000,
{
    reveal_with_fuel(byte_limit, 9);
}

pub proof fn lemma_limit_grows(a: nat, b: nat)
    requires
        a <= b,
    ensures
        1 <= byte_limit(a) <= byte_limit(b),
    decreases b,
{
    if b > 0 {
        if a == b {
            lemma_limit_grows((a - 1) as nat, (b - 1) as nat);
        } else {
            lemma_limit_grows(a, (b - 1) as nat);
        }
    }
}

/// A number of one byte.
pub proof fn lemma_le_one(s: Seq<u8>)
    requires
        s.len() == 1,
    ensures
        le(s) == s[0],
{
    reveal_with_fuel(le, 2);
}

/// The number that stands in `n` bytes from `at`.
pub open spec fn num_at(s: Seq<u8>, at: int, n: int) -> nat {
    le(s.subrange(at, at + n))
}

/// Reads the number in `n` bytes from `at`.
pub fn read_le(data: &Vec<u8>, at: usize, n: usize) -> (r: u64)
    requires
        n <= 8,
        at + n <= data.len(),
    ensures
        r == num_at(data@, at as int, n as int),
{
    let mut r: u64 = 0;
    let mut i: usize = n;
    proof {
        assert(data@.subrange(at + n, at + n) =~= Seq::<u8>::empty());
    }
    while i > 0
        invariant
            i <= n <= 8,
            at + n <= data.len(),
            r == le(data@.subrange(at + i, at + n)),
        decreases i,
    {
        let ghost rest = data@.subrange(at + i, at + n);
        proof {
            let more = data@.subrange(at + i - 1, at + n);
            assert(more.subrange(1, more.len() as int) =~= rest);
            assert(more[0] == data@[at + i - 1]);
            lemma_le_bound(more);
            lemma_limit_grows(more.len(), 8);
            lemma_limits();
        }
        i -= 1;
        r = 256 * r + data[at + i] as u64;
    }
    r
}

/// Adds the lowest `n` bytes of `x` at the end.
pub fn push_le(data: &mut Vec<u8>, x: u64, n: usize)
    ensures
        final(data)@ == old(data)@ + le_bytes(x as nat, n as nat),
{
    let ghost d0 = data@;
    let mut rest: u64 = x;
    let mut i: usize = 0;
    while i < n
        invariant
            i <= n,
            d0 + le_bytes(x as nat, n as nat) == data@ + le_bytes(rest as nat, (n - i) as nat),
        decreases n - i,
    {
        let ghost before = data@;
        let b: u8 = (rest % 256) as u8;
        data.push(b);
        proof {
            let tail = le_bytes((rest / 256) as nat, (n - i - 1) as nat);
            assert(le_bytes(rest as nat, (n - i) as nat) == seq![b] + tail);
            assert(before + (seq![b] + tail) =~= before.push(b) + tail);
        }
        rest = rest / 256;
        i += 1;
    }
    assert(data@ + le_bytes(rest as nat, 0) =~= data@);
}

/// `s` with `t` in place of what stood from `at` on.
pub open spec fn patched(s: Seq<u8>, at: int, t: Seq<u8>) -> Seq<u8> {
    s.subrange(0, at) + t + s.subrange(at + t.len(), s.len() as int)
}

/// Puts the lowest `n` bytes of `x` in place of those from `at` on.
pub fn write_le(data: &mut Vec<u8>, at: usize, x: u64, n: usize)
    requires
        at + n <= old(data)@.len(),
    ensures
        final(data)@ == patched(old(data)@, at as int, le_bytes(x as nat, n as nat)),
{
    let ghost d0 = data@;
    let ghost t = le_bytes(x as nat, n as nat);
    proof {
        lemma_le_bytes(x as nat, n as nat);
    }
    let mut rest: u64 = x;
    let mut i: usize = 0;
    while i < n
        invariant
            i <= n,
            at + n <= d0.len(),
            data.len() == d0.len(),
            t.len() == n,
            t.subrange(i as int, n as int) == le_bytes(rest as nat, (n - i) as nat),
            forall|j: int|
                0 <= j < d0.len() ==> #[trigger] data@[j] == if at <= j < at + i {
                    t[j - at]
                } else {
                    d0[j]
                },
        decreases n - i,
    {
        proof {
            let tail = le_bytes((rest / 256) as nat, (n - i - 1) as nat);
            let u = t.subrange(i as int, n as int);
            assert(u == seq![(rest % 256) as u8] + tail);
            assert(u[0] == t[i as int]);
            assert(t.subrange(i + 1, n as int) =~= u.subrange(1, u.len() as int));
            assert(u.subrange(1, u.len() as int) =~= tail);
        }
        data.set(at + i, (rest % 256) as u8);
        rest = rest / 256;
        i += 1;
    }
    assert(data@ =~= patched(d0, at as int, t));
}

/// Reading gives back what was written there.
pub proof fn law_written_reads_back(s: Seq<u8>, at: int, x: nat, n: nat)
    requires
        0 <= at,
        at + n <= s.len(),
        x < byte_limit(n),
    ensures
        num_at(patched(s, at, le_bytes(x, n)), at, n as int) == x,
{
    lemma_le_bytes(x, n);
    let p = patched(s, at, le_bytes(x, n));
    assert(p.subrange(at, at + n) =~= le_bytes(x, n));
}

/// The lowest byte of a number comes first, and each next one counts 256 times as much.
pub proof fn law_lowest_byte_first(x: nat, n: nat, s: Seq<u8>)
    requires
        n > 0,
    ensures
        le_bytes(x, n).len() == n,
        le_bytes(x, n)[0] == x % 256,
        le_bytes(x, n).subrange(1, n as int) == le_bytes(x / 256, (n - 1) as nat),
        s.len() > 0 ==> le(s) == s[0] + 256 * le(s.subrange(1, s.len() as int)),
{
    lemma_le_bytes(x, n);
    lemma_le_bytes(x / 256, (n - 1) as nat);
    assert(le_bytes(x, n).subrange(1, n as int) =~= le_bytes(x / 256, (n - 1) as nat));
}

} // verus!
