//! Packing of a few 7-bit values into one integer, least significant septet
//! first, and back.
use vstd::prelude::*;

verus! {

/// The integer whose septets, from the least significant, are the values of
/// `s` (each value's eighth bit dropped).
pub open spec fn pack(s: Seq<u8>) -> nat
    decreases s.len(),
{
    if s.len() == 0 {
        0
    } else {
        (s[0] % 128) as nat + 128 * pack(s.drop_first())
    }
}

/// The `n` least significant septets of `v`, least significant first.
pub open spec fn unpack(v: nat, n: nat) -> Seq<u8>
    decreases n,
{
    if n == 0 {
        Seq::empty()
    } else {
        seq![(v % 128) as u8].add(unpack(v / 128, (n - 1) as nat))
    }
}

/// 128 to the power `n`.
pub open spec fn septet_bound(n: nat) -> nat
    decreases n,
{
    if n == 0 {
        1
    } else {
        128 * septet_bound((n - 1) as nat)
    }
}

pub proof fn lemma_pack_bound(s: Seq<u8>)
    ensures
        pack(s) < septet_bound(s.len()),
    decreases s.len(),
{
    if s.len() > 0 {
        lemma_pack_bound(s.drop_first());
        let a = (s[0] % 128) as nat;
        let b = pack(s.drop_first());
        let m = septet_bound((s.len() - 1) as nat);
        assert(a + 128 * b < 128 * m) by (nonlinear_arith)
            requires
                a < 128,
                b < m,
        ;
    }
}

/// Packing values that fit in seven bits and unpacking as many septets gives
/// the values back.
pub proof fn lemma_unpack_pack(s: Seq<u8>)
    requires
        forall|i: int| 0 <= i < s.len() ==> s[i] < 128,
    ensures
        unpack(pack(s), s.len()) == s,
    decreases s.len(),
{
    if s.len() > 0 {
        let rest = s.drop_first();
        lemma_unpack_pack(rest);
        let a = (s[0] % 128) as nat;
        let b = pack(rest);
        assert((a + 128 * b) % 128 == a && (a + 128 * b) / 128 == b) by (nonlinear_arith)
            requires
                a < 128,
        ;
        assert(unpack(pack(s), s.len()) =~= s);
    }
}

/// Packs two, three or four septets into one integer (a 14-, 21- or 28-bit
/// value); bits above the seventh of each value are ignored.
pub fn from_u7s(u7s: &[u8]) -> (r: u32)
    requires
        2 <= u7s@.len() <= 4,
    ensures
        r as nat == pack(u7s@),
        (r as nat) < septet_bound(u7s@.len()),
{
    let n = u7s.len();
    let mut acc: u32 = 0;
    let mut i: usize = n;
    proof {
        reveal_with_fuel(septet_bound, 5);
        assert(u7s@.subrange(n as int, n as int) =~= Seq::<u8>::empty());
    }
    while i > 0
        invariant
            0 <= i <= n,
            n == u7s@.len(),
            2 <= n <= 4,
            acc as nat == pack(u7s@.subrange(i as int, n as int)),
            (acc as nat) < septet_bound((n - i) as nat),
            septet_bound(4) == 0x1000_0000,
            septet_bound(3) == 0x20_0000,
            septet_bound(2) == 0x4000,
            septet_bound(1) == 128,
            septet_bound(0) == 1,
        decreases i,
    {
        i = i - 1;
        let ghost tail = u7s@.subrange(i as int + 1, n as int);
        let ghost cur = u7s@.subrange(i as int, n as int);
        proof {
            assert(cur.drop_first() =~= tail);
            assert(cur[0] == u7s@[i as int]);
        }
        let a: u32 = (u7s[i] % 128) as u32;
        proof {
            let m = septet_bound((n - i - 1) as nat);
            assert(m <= 0x20_0000);
            assert(a + 128 * acc < 128 * m) by (nonlinear_arith)
                requires
                    a < 128,
                    acc < m,
            ;
        }
        acc = a + 128 * acc;
    }
    proof {
        assert(u7s@.subrange(0, n as int) =~= u7s@);
    }
    acc
}

/// The `n` (two to four) least significant septets of `v`, least
/// significant first; higher bits of `v` are dropped.
pub fn to_u7s(v: u32, n: usize) -> (r: Vec<u8>)
    requires
        2 <= n <= 4,
    ensures
        r@ == unpack(v as nat, n as nat),
        forall|i: int| 0 <= i < r@.len() ==> r@[i] < 128,
{
    let mut out: Vec<u8> = Vec::new();
    let mut x: u32 = v;
    let mut i: usize = 0;
    while i < n
        invariant
            i <= n,
            out@ + unpack(x as nat, (n - i) as nat) == unpack(v as nat, n as nat),
            out@.len() == i,
            forall|k: int| 0 <= k < out@.len() ==> out@[k] < 128,
        decreases n - i,
    {
        let ghost before = out@;
        out.push((x % 128) as u8);
        proof {
            let rest = unpack(x as nat / 128, (n - i - 1) as nat);
            assert(unpack(x as nat, (n - i) as nat) == seq![(x as nat % 128) as u8].add(rest));
            assert(out@ + rest =~= before + unpack(x as nat, (n - i) as nat));
        }
        x = x / 128;
        i = i + 1;
    }
    proof {
        assert(out@ + unpack(x as nat, 0) =~= out@);
    }
    out
}

} // verus!
