//! Unsigned LEB128 varints, as used for every length prefix of the container.
use vstd::prelude::*;

verus! {

/// `128^n`, the weight of the `n`-th seven-bit group.
pub open spec fn pow128(n: nat) -> nat
    decreases n,
{
    if n == 0 {
        1
    } else {
        128 * pow128((n - 1) as nat)
    }
}

/// The value (unbounded) and byte count of the LEB128 varint at the front of
/// `b`, when it ends within its first `budget` bytes.
pub open spec fn leb_decode(b: Seq<u8>, budget: nat) -> Option<(nat, nat)>
    decreases budget,
{
    if b.len() == 0 || budget == 0 {
        None
    } else if b[0] < 128 {
        Some((b[0] as nat, 1))
    } else {
        match leb_decode(b.drop_first(), (budget - 1) as nat) {
            Some(p) => Some((((b[0] - 128) as nat + 128 * p.0) as nat, p.1 + 1)),
            None => None,
        }
    }
}

/// What `read_uvarint` returns: the varint must end within nine bytes
/// (nine groups of seven bits, so its value is below `2^63`).
pub open spec fn uvarint_spec(b: Seq<u8>) -> Option<(u64, usize)> {
    match leb_decode(b, 9) {
        Some(p) => Some((p.0 as u64, p.1 as usize)),
        None => None,
    }
}

/// The shortest LEB128 encoding of `v`.
pub open spec fn leb128(v: nat) -> Seq<u8>
    decreases v,
{
    if v < 128 {
        seq![v as u8]
    } else {
        seq![(v % 128 + 128) as u8] + leb128(v / 128)
    }
}

/// Sum of the low seven bits of the first `i` bytes, each at its weight.
pub open spec fn group_sum(b: Seq<u8>, i: nat) -> nat
    decreases i,
{
    if i == 0 {
        0
    } else {
        group_sum(b, (i - 1) as nat) + (b[i - 1] % 128) as nat * pow128((i - 1) as nat)
    }
}

proof fn lemma_pow128_step(n: nat)
    ensures
        pow128(n + 1) == 128 * pow128(n),
        pow128(n) >= 1,
    decreases n,
{
    if n > 0 {
        lemma_pow128_step((n - 1) as nat);
    }
}

proof fn lemma_pow128_mono(a: nat, b: nat)
    requires
        a <= b,
    ensures
        pow128(a) <= pow128(b),
    decreases b,
{
    if a < b {
        lemma_pow128_mono(a, (b - 1) as nat);
        lemma_pow128_step((b - 1) as nat);
    }
}

proof fn lemma_pow128_nine()
    ensures
        pow128(9) == 0x8000_0000_0000_0000,
        pow128(8) == 0x100_0000_0000_0000,
{
    reveal_with_fuel(pow128, 10);
}

/// Reading past `i` continuation bytes: the rest of the decode happens on
/// the bytes after them, with the budget reduced by `i`.
proof fn lemma_leb_split(b: Seq<u8>, i: nat, k: nat)
    requires
        i <= k,
        i <= b.len(),
        forall|j: int| 0 <= j < i ==> b[j] >= 128,
    ensures
        leb_decode(b, k) == match leb_decode(b.skip(i as int), (k - i) as nat) {
            Some(p) => Some((group_sum(b, i) + pow128(i) * p.0, p.1 + i)),
            None => None::<(nat, nat)>,
        },
    decreases i,
{
    if i == 0 {
        assert(b.skip(0) =~= b);
        assert(pow128(0) == 1);
        assert(group_sum(b, 0) == 0);
        match leb_decode(b, k) {
            Some(p) => {
                assert(group_sum(b, i) + pow128(i) * p.0 == p.0);
            },
            None => {},
        }
    } else {
        let j = (i - 1) as nat;
        lemma_leb_split(b, j, k);
        let t = b.skip(j as int);
        assert(t.drop_first() =~= b.skip(i as int));
        assert(t[0] == b[j as int]);
        assert(t.len() > 0);
        assert(((k - j) as nat) > 0);
        assert(leb_decode(t, (k - j) as nat) == match leb_decode(t.drop_first(), (k - i) as nat) {
            Some(p) => Some((((t[0] - 128) as nat + 128 * p.0) as nat, p.1 + 1)),
            None => None::<(nat, nat)>,
        });
        lemma_pow128_step(j);
        match leb_decode(b.skip(i as int), (k - i) as nat) {
            Some(p) => {
                let g = (b[j as int] - 128) as nat;
                assert(b[j as int] % 128 == g);
                let s = pow128(j);
                assert(s * (g + 128 * p.0) == g * s + (128 * s) * p.0) by (nonlinear_arith);
                assert(group_sum(b, i) == group_sum(b, j) + g * s);
                assert(pow128(i) == 128 * s);
                assert(leb_decode(t, (k - j) as nat) == Some(((g + 128 * p.0) as nat, p.1 + 1)));
                assert(leb_decode(b, k) == Some((group_sum(b, i) + pow128(i) * p.0, p.1 + i)));
            },
            None => {},
        }
    }
}

proof fn lemma_leb128_len(v: nat, n: nat)
    requires
        n >= 1,
        v < pow128(n),
    ensures
        1 <= leb128(v).len() <= n,
    decreases v,
{
    if v >= 128 {
        if n == 1 {
            reveal_with_fuel(pow128, 2);
        }
        lemma_pow128_step((n - 1) as nat);
        assert(v / 128 < pow128((n - 1) as nat));
        lemma_leb128_len(v / 128, (n - 1) as nat);
    }
}

proof fn lemma_leb_decode_encoded(v: nat, rest: Seq<u8>, k: nat)
    requires
        leb128(v).len() <= k,
    ensures
        leb_decode(leb128(v) + rest, k) == Some((v, leb128(v).len())),
    decreases v,
{
    let e = leb128(v) + rest;
    if v < 128 {
        assert(e[0] == v as u8);
    } else {
        let tail = leb128(v / 128);
        assert(e.drop_first() =~= tail + rest);
        assert(e[0] == (v % 128 + 128) as u8);
        lemma_leb_decode_encoded(v / 128, rest, (k - 1) as nat);
    }
}

/// Decoding the shortest encoding of any `v < 2^63`, followed by anything,
/// gives back `v` and the length of the encoding.
pub proof fn lemma_uvarint_round_trip(v: nat, rest: Seq<u8>)
    requires
        v < 0x8000_0000_0000_0000,
    ensures
        uvarint_spec(leb128(v) + rest) == Some((v as u64, leb128(v).len() as usize)),
        leb128(v).len() <= 9,
{
    lemma_pow128_nine();
    lemma_leb128_len(v, 9);
    lemma_leb_decode_encoded(v, rest, 9);
}

proof fn lemma_leb_all_continuation(b: Seq<u8>, k: nat)
    requires
        b.len() >= k,
        forall|j: int| 0 <= j < k ==> b[j] >= 128,
    ensures
        leb_decode(b, k) is None,
    decreases k,
{
    if k > 0 {
        lemma_leb_all_continuation(b.drop_first(), (k - 1) as nat);
    }
}

/// A varint whose first nine bytes all carry the continuation bit is
/// refused, whatever follows: the decoder never accumulates past 63 bits.
pub proof fn lemma_uvarint_rejects_overlong(b: Seq<u8>)
    requires
        b.len() >= 9,
        forall|j: int| 0 <= j < 9 ==> b[j] >= 128,
    ensures
        uvarint_spec(b) is None,
{
    lemma_leb_all_continuation(b, 9);
}

/// Decodes the unsigned LEB128 varint at the front of `data`, giving its
/// value and the number of bytes it took; `None` where the bytes run out
/// before a final group, or where nine groups pass without one.
pub fn read_uvarint(data: &[u8]) -> (r: Option<(u64, usize)>)
    ensures
        r == uvarint_spec(data@),
        r matches Some(p) ==> 1 <= p.1 <= 9 && p.1 <= data@.len() && p.0 < 0x8000_0000_0000_0000,
{
    let mut value: u64 = 0;
    let mut scale: u64 = 1;
    let mut i: usize = 0;
    proof {
        lemma_pow128_nine();
    }
    while i < data.len()
        invariant
            i <= 8,
            i <= data@.len(),
            scale as nat == pow128(i as nat),
            value as nat == group_sum(data@, i as nat),
            group_sum(data@, i as nat) < pow128(i as nat),
            forall|j: int| 0 <= j < i ==> data@[j] >= 128,
            pow128(9) == 0x8000_0000_0000_0000,
            pow128(8) == 0x100_0000_0000_0000,
        decreases data@.len() - i,
    {
        let byte = data[i];
        let group: u64 = (byte % 128) as u64;
        proof {
            lemma_pow128_mono(i as nat, 8);
            lemma_pow128_mono((i + 1) as nat, 9);
            lemma_pow128_step(i as nat);
            lemma_leb_split(data@, i as nat, 9);
            assert(data@.skip(i as int)[0] == byte);
            assert(group as nat * scale as nat <= 127 * (scale as nat)) by (nonlinear_arith)
                requires group < 128;
        }
        if byte < 128 {
            let ghost rest = data@.skip(i as int);
            assert(leb_decode(rest, (9 - i) as nat) == Some((byte as nat, 1nat)));
            let ghost total: nat = group_sum(data@, i as nat) + pow128(i as nat) * byte as nat;
            assert(group as nat == byte as nat);
            assert(group as nat * scale as nat == pow128(i as nat) * byte as nat) by (nonlinear_arith)
                requires
                    group as nat == byte as nat,
                    scale as nat == pow128(i as nat);
            value = value + group * scale;
            assert(value as nat == total);
            return Some((value, i + 1));
        }
        if i == 8 {
            let ghost rest = data@.skip(i as int);
            assert(rest.drop_first() =~= data@.skip(9));
            reveal_with_fuel(leb_decode, 2);
            assert(leb_decode(rest, 1) is None);
            return None;
        }
        value = value + group * scale;
        scale = scale * 128;
        i = i + 1;
    }
    proof {
        lemma_leb_split(data@, i as nat, 9);
        assert(data@.skip(i as int).len() == 0);
    }
    None
}

} // verus!
