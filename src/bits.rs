use vstd::prelude::*;

verus! {

/// Bit `k` of a byte, counting from the most significant (`k` in 0..8).
pub open spec fn bit_of(b: u8, k: int) -> bool {
    (b >> ((7 - k) as u8)) & 1u8 == 1u8
}

/// The eight bits of a byte, most significant first.
pub open spec fn byte_bits(b: u8) -> Seq<bool> {
    Seq::new(8, |k: int| bit_of(b, k))
}

/// The bits of a byte string, byte after byte, each most significant bit
/// first.
pub open spec fn bytes_bits(bytes: Seq<u8>) -> Seq<bool>
    decreases bytes.len(),
{
    if bytes.len() == 0 {
        Seq::empty()
    } else {
        bytes_bits(bytes.drop_last()) + byte_bits(bytes.last())
    }
}

/// Number of inactive bits that fill the last byte.
pub open spec fn padding_len(n: nat) -> nat {
    ((8 - n % 8) % 8) as nat
}

/// The bits followed by inactive bits up to the next byte boundary.
pub open spec fn padded(bits: Seq<bool>) -> Seq<bool> {
    bits + Seq::new(padding_len(bits.len()), |i: int| false)
}

proof fn lemma_octet(x0: u8, x1: u8, x2: u8, x3: u8, x4: u8, x5: u8, x6: u8, x7: u8)
    requires
        x0 == 0 || x0 == 128,
        x1 == 0 || x1 == 64,
        x2 == 0 || x2 == 32,
        x3 == 0 || x3 == 16,
        x4 == 0 || x4 == 8,
        x5 == 0 || x5 == 4,
        x6 == 0 || x6 == 2,
        x7 == 0 || x7 == 1,
    ensures
        ({
            let b = x0 | x1 | x2 | x3 | x4 | x5 | x6 | x7;
            &&& ((b >> 7u8) & 1u8 == 1u8) == (x0 == 128)
            &&& ((b >> 6u8) & 1u8 == 1u8) == (x1 == 64)
            &&& ((b >> 5u8) & 1u8 == 1u8) == (x2 == 32)
            &&& ((b >> 4u8) & 1u8 == 1u8) == (x3 == 16)
            &&& ((b >> 3u8) & 1u8 == 1u8) == (x4 == 8)
            &&& ((b >> 2u8) & 1u8 == 1u8) == (x5 == 4)
            &&& ((b >> 1u8) & 1u8 == 1u8) == (x6 == 2)
            &&& ((b >> 0u8) & 1u8 == 1u8) == (x7 == 1)
        }),
{
    assert(({
        let b = x0 | x1 | x2 | x3 | x4 | x5 | x6 | x7;
        &&& ((b >> 7u8) & 1u8 == 1u8) == (x0 == 128)
        &&& ((b >> 6u8) & 1u8 == 1u8) == (x1 == 64)
        &&& ((b >> 5u8) & 1u8 == 1u8) == (x2 == 32)
        &&& ((b >> 4u8) & 1u8 == 1u8) == (x3 == 16)
        &&& ((b >> 3u8) & 1u8 == 1u8) == (x4 == 8)
        &&& ((b >> 2u8) & 1u8 == 1u8) == (x5 == 4)
        &&& ((b >> 1u8) & 1u8 == 1u8) == (x6 == 2)
        &&& ((b >> 0u8) & 1u8 == 1u8) == (x7 == 1)
    })) by (bit_vector)
        requires
            x0 == 0 || x0 == 128,
            x1 == 0 || x1 == 64,
            x2 == 0 || x2 == 32,
            x3 == 0 || x3 == 16,
            x4 == 0 || x4 == 8,
            x5 == 0 || x5 == 4,
            x6 == 0 || x6 == 2,
            x7 == 0 || x7 == 1,
    ;
}

/// Bit `i + k` of `bits` as a value of `weight`, or 0 past the end.
fn weighted(bits: &Vec<bool>, i: usize, k: usize, weight: u8) -> (r: u8)
    requires
        i <= bits@.len(),
    ensures
        r == 0 || r == weight,
        (r == weight && weight != 0) <==> (i + k < bits@.len() && bits@[i + k] && weight != 0),
{
    if k < bits.len() - i && bits[i + k] {
        weight
    } else {
        0
    }
}

/// Packs bits into bytes, most significant bit first, filling the last byte
/// with inactive bits.
pub fn pack_bits(bits: &Vec<bool>) -> (r: Vec<u8>)
    ensures
        bytes_bits(r@) == padded(bits@),
{
    let n_bytes: usize = bits.len() / 8 + if bits.len() % 8 != 0 {
        1
    } else {
        0
    };
    let mut out: Vec<u8> = Vec::new();
    let ghost full = padded(bits@);
    assert(full.len() == 8 * n_bytes);
    while out.len() < n_bytes
        invariant
            full == padded(bits@),
            full.len() == 8 * n_bytes,
            n_bytes == bits@.len() / 8 + if bits@.len() % 8 != 0 {
                1int
            } else {
                0int
            },
            out@.len() <= n_bytes,
            bytes_bits(out@) == full.take(8 * out@.len() as int),
        decreases n_bytes - out@.len(),
    {
        let n = out.len();
        let len = bits.len();
        assert(8 * n <= len);
        let i: usize = n * 8;
        let x0 = weighted(bits, i, 0, 128);
        let x1 = weighted(bits, i, 1, 64);
        let x2 = weighted(bits, i, 2, 32);
        let x3 = weighted(bits, i, 3, 16);
        let x4 = weighted(bits, i, 4, 8);
        let x5 = weighted(bits, i, 5, 4);
        let x6 = weighted(bits, i, 6, 2);
        let x7 = weighted(bits, i, 7, 1);
        let b = x0 | x1 | x2 | x3 | x4 | x5 | x6 | x7;
        proof {
            lemma_octet(x0, x1, x2, x3, x4, x5, x6, x7);
            assert forall|k: int| 0 <= k < 8 implies #[trigger] bit_of(b, k) == full[i + k] by {
                if i + k < bits@.len() {
                    assert(full[i + k] == bits@[i + k]);
                } else {
                    assert(full[i + k] == false);
                }
            };
            assert(full.take(i + 8) =~= full.take(i as int) + byte_bits(b));
        }
        let ghost before = out@;
        out.push(b);
        assert(out@.drop_last() =~= before);
    }
    assert(full.take(8 * out@.len() as int) =~= full);
    out
}

/// Unpacks bytes into bits, most significant bit of each byte first.
pub fn unpack_bytes(bytes: &Vec<u8>) -> (r: Vec<bool>)
    ensures
        r@ == bytes_bits(bytes@),
{
    let mut out: Vec<bool> = Vec::new();
    let mut i: usize = 0;
    while i < bytes.len()
        invariant
            0 <= i <= bytes@.len(),
            out@ == bytes_bits(bytes@.take(i as int)),
        decreases bytes@.len() - i,
    {
        let b = bytes[i];
        let ghost before = out@;
        let mut k: u8 = 0;
        while k < 8
            invariant
                0 <= k <= 8,
                out@ == before + byte_bits(b).take(k as int),
            decreases 8 - k,
        {
            out.push((b >> (7 - k)) & 1 == 1);
            k += 1;
            assert(out@ =~= before + byte_bits(b).take(k as int));
        }
        assert(byte_bits(b).take(8) =~= byte_bits(b));
        assert(bytes@.take(i + 1).drop_last() =~= bytes@.take(i as int));
        i += 1;
    }
    assert(bytes@.take(i as int) =~= bytes@);
    out
}

/// Eight bits per byte.
pub proof fn lemma_bytes_bits_len(bytes: Seq<u8>)
    ensures
        bytes_bits(bytes).len() == 8 * bytes.len(),
    decreases bytes.len(),
{
    if bytes.len() > 0 {
        lemma_bytes_bits_len(bytes.drop_last());
    }
}

} // verus!
