use vstd::prelude::*;

verus! {

/// A bit stream: every entry is 0 or 1.
pub open spec fn bits_valid(bits: Seq<u8>) -> bool {
    forall|i: int| 0 <= i < bits.len() ==> #[trigger] bits[i] <= 1
}

pub open spec fn two_pow(n: nat) -> nat
    decreases n,
{
    if n == 0 {
        1
    } else {
        2 * two_pow((n - 1) as nat)
    }
}

/// Value of a bit sequence read most-significant bit first.
pub open spec fn byte_of_bits(bits: Seq<u8>) -> u8
    decreases bits.len(),
{
    if bits.len() == 0 {
        0
    } else {
        ((byte_of_bits(bits.drop_last()) * 2 + bits.last()) % 256) as u8
    }
}

pub proof fn lemma_byte_of_bits_bound(bits: Seq<u8>)
    requires
        bits_valid(bits),
        bits.len() <= 8,
    ensures
        byte_of_bits(bits) < two_pow(bits.len()),
    decreases bits.len(),
{
    reveal_with_fuel(two_pow, 9);
    if bits.len() > 0 {
        assert(bits.drop_last() =~= bits.subrange(0, bits.len() - 1));
        lemma_byte_of_bits_bound(bits.drop_last());
    }
}

/// Doubles a byte value `n` times, truncating to eight bits.
pub open spec fn double_n(x: u8, n: nat) -> u8
    decreases n,
{
    if n == 0 {
        x
    } else {
        ((double_n(x, (n - 1) as nat) * 2) % 256) as u8
    }
}

/// Bit `k` of a byte, with bit 0 the least significant.
pub open spec fn spec_bit(byte: u8, k: nat) -> u8 {
    (byte >> (k as u8)) & 1
}

/// The first `t` bits of a byte, most significant first.
pub open spec fn bits_of_byte_prefix(byte: u8, t: int) -> Seq<u8> {
    Seq::new(t as nat, |i: int| spec_bit(byte, (7 - i) as nat))
}

/// All full eight-bit groups of a bit stream, most significant bit first.
pub open spec fn pack_full_bytes(bits: Seq<u8>) -> Seq<u8>
    decreases bits.len(),
{
    if bits.len() >= 8 {
        seq![byte_of_bits(bits.take(8))] + pack_full_bytes(bits.skip(8))
    } else {
        Seq::empty()
    }
}

/// Packs a bit stream into bytes: full groups, a zero-padded partial group if
/// one is left, and a trailer byte giving the number of meaningful bits of the
/// final group (eight when the stream length is an exact multiple of eight).
pub open spec fn spec_pack(bits: Seq<u8>) -> Seq<u8> {
    let rem = bits.len() % 8;
    let body = if rem == 0 {
        pack_full_bytes(bits)
    } else {
        pack_full_bytes(bits) + seq![
            double_n(byte_of_bits(bits.skip(bits.len() - rem)), (8 - rem) as nat),
        ]
    };
    let trailer: u8 = if rem == 0 && bits.len() > 0 {
        8
    } else {
        rem as u8
    };
    body + seq![trailer]
}

/// The bit streams of a run of bytes, each byte contributing eight bits.
pub open spec fn unpack_full_bytes(bytes: Seq<u8>) -> Seq<u8>
    decreases bytes.len(),
{
    if bytes.len() == 0 {
        Seq::empty()
    } else {
        bits_of_byte_prefix(bytes[0], 8) + unpack_full_bytes(bytes.skip(1))
    }
}

/// Reads a packed payload back into its bit stream. The last byte is the
/// trailer; it must be 1 to 8 unless the payload is too short to hold data.
pub open spec fn spec_unpack(payload: Seq<u8>) -> Option<Seq<u8>> {
    if payload.len() <= 1 {
        Some(Seq::empty())
    } else {
        let t = payload.last();
        if 1 <= t <= 8 {
            let body = payload.drop_last();
            Some(
                unpack_full_bytes(body.drop_last()) + bits_of_byte_prefix(body.last(), t as int),
            )
        } else {
            None
        }
    }
}

proof fn lemma_bit_step(x: u8, c: u8, k: u8)
    requires
        x < 128,
        c <= 1,
        k < 8,
    ensures
        k == 0 ==> ((x * 2 + c) as u8 >> k) & 1 == c,
        k >= 1 ==> ((x * 2 + c) as u8 >> k) & 1 == (x >> (k - 1) as u8) & 1,
{
    assert(k == 0 ==> (((x * 2 + c) as u8) >> k) & 1 == c) by (bit_vector)
        requires
            x < 128,
            c <= 1,
    ;
    assert(1 <= k < 8 ==> (((x * 2 + c) as u8) >> k) & 1 == (x >> ((k - 1) as u8)) & 1) by (bit_vector)
        requires
            x < 128,
            c <= 1,
    ;
}

/// Bit `k` of the value of a bit sequence is the bit `len - 1 - k` positions in.
pub proof fn lemma_bit_of_value(bits: Seq<u8>, k: nat)
    requires
        bits_valid(bits),
        bits.len() <= 8,
        k < bits.len(),
    ensures
        spec_bit(byte_of_bits(bits), k) == bits[bits.len() - 1 - k],
    decreases bits.len(),
{
    let p = bits.drop_last();
    assert(p =~= bits.subrange(0, bits.len() - 1));
    let x = byte_of_bits(p);
    let c = bits.last();
    lemma_byte_of_bits_bound(p);
    reveal_with_fuel(two_pow, 9);
    assert(x < 128);
    assert(byte_of_bits(bits) == (x * 2 + c) as u8);
    lemma_bit_step(x, c, k as u8);
    if k >= 1 {
        lemma_bit_of_value(p, (k - 1) as nat);
    }
}

proof fn lemma_two_pow_mono(a: nat, b: nat)
    requires
        a <= b,
    ensures
        two_pow(a) <= two_pow(b),
    decreases b,
{
    if a < b {
        lemma_two_pow_mono(a, (b - 1) as nat);
    }
}

proof fn lemma_double_val(x: u8, m: nat, n: nat)
    requires
        x < two_pow(m),
        m + n <= 8,
    ensures
        double_n(x, n) == x * two_pow(n),
        x * two_pow(n) < two_pow(m + n),
    decreases n,
{
    reveal_with_fuel(two_pow, 9);
    if n == 0 {
    } else {
        lemma_double_val(x, m, (n - 1) as nat);
        let y = double_n(x, (n - 1) as nat);
        lemma_two_pow_mono((m + n - 1) as nat, 7);
        assert(two_pow(7) == 128);
        assert(y < 128);
        let a = two_pow((n - 1) as nat);
        let b = two_pow((m + n - 1) as nat);
        assert(two_pow(n) == 2 * a);
        assert(two_pow(m + n) == 2 * b);
        assert(y * 2 == x * (2 * a) && x * (2 * a) < 2 * b) by (nonlinear_arith)
            requires
                y == x * a,
                y < b,
        ;
        assert(y * 2 < 256) by {
            lemma_two_pow_mono(m + n, 8);
            assert(two_pow(8) == 256);
        }
        vstd::arithmetic::div_mod::lemma_small_mod((y * 2) as nat, 256);
        assert(double_n(x, n) == (y * 2) % 256);
        assert(double_n(x, n) == x * two_pow(n));
    }
}

proof fn lemma_double_bit(x: u8, n: nat, k: nat)
    requires
        x < two_pow((8 - n) as nat),
        n <= 8,
        n <= k < 8,
    ensures
        spec_bit(double_n(x, n), k) == spec_bit(x, (k - n) as nat),
    decreases n,
{
    reveal_with_fuel(two_pow, 9);
    if n > 0 {
        let y = double_n(x, (n - 1) as nat);
        lemma_double_val(x, (8 - n) as nat, (n - 1) as nat);
        assert(two_pow(7) == 128);
        assert(y < 128);
        assert(double_n(x, n) == (y * 2) as u8);
        lemma_bit_step(y, 0, k as u8);
        assert((y * 2 + 0) as u8 == (y * 2) as u8);
        lemma_two_pow_mono((8 - n) as nat, (8 - (n - 1)) as nat);
        lemma_double_bit(x, (n - 1) as nat, (k - 1) as nat);
    }
}

/// Eight valid bits survive a round trip through their byte value.
proof fn lemma_full_byte_round_trip(chunk: Seq<u8>)
    requires
        bits_valid(chunk),
        chunk.len() == 8,
    ensures
        bits_of_byte_prefix(byte_of_bits(chunk), 8) =~= chunk,
{
    assert forall|i: int| 0 <= i < 8 implies bits_of_byte_prefix(byte_of_bits(chunk), 8)[i]
        == chunk[i] by {
        lemma_bit_of_value(chunk, (7 - i) as nat);
    }
}

proof fn lemma_unpack_full_snoc(bytes: Seq<u8>, x: u8)
    ensures
        unpack_full_bytes(bytes.push(x)) =~= unpack_full_bytes(bytes) + bits_of_byte_prefix(x, 8),
    decreases bytes.len(),
{
    assert(unpack_full_bytes(bytes.push(x)) == bits_of_byte_prefix(bytes.push(x)[0], 8)
        + unpack_full_bytes(bytes.push(x).skip(1)));
    if bytes.len() == 0 {
        assert(bytes.push(x).skip(1) =~= Seq::<u8>::empty());
        assert(bytes.push(x)[0] == x);
        assert(unpack_full_bytes(bytes.push(x)) =~= bits_of_byte_prefix(x, 8));
    } else {
        assert(bytes.push(x).skip(1) =~= bytes.skip(1).push(x));
        assert(bytes.push(x)[0] == bytes[0]);
        lemma_unpack_full_snoc(bytes.skip(1), x);
        assert(unpack_full_bytes(bytes.push(x)) == bits_of_byte_prefix(bytes[0], 8)
            + unpack_full_bytes(bytes.skip(1).push(x)));
    }
}

/// Unpacking the full groups of a packed stream restores all bits before the
/// remainder.
proof fn lemma_unpack_pack_full(bits: Seq<u8>)
    requires
        bits_valid(bits),
    ensures
        unpack_full_bytes(pack_full_bytes(bits)) =~= bits.take(bits.len() - bits.len() % 8),
    decreases bits.len(),
{
    if bits.len() >= 8 {
        let head = bits.take(8);
        let tail = bits.skip(8);
        assert(bits_valid(head));
        assert(bits_valid(tail));
        lemma_full_byte_round_trip(head);
        lemma_unpack_pack_full(tail);
        assert((seq![byte_of_bits(head)] + pack_full_bytes(tail)).skip(1) =~= pack_full_bytes(
            tail,
        ));
        assert(tail.len() % 8 == bits.len() % 8) by {
            assert(tail.len() + 8 == bits.len());
        }
        assert(head + tail.take(tail.len() - tail.len() % 8) =~= bits.take(
            bits.len() - bits.len() % 8,
        ));
    } else {
        assert(bits.len() % 8 == bits.len());
    }
}

/// Unpacking inverts packing on any valid bit stream.
pub proof fn lemma_unpack_pack(bits: Seq<u8>)
    requires
        bits_valid(bits),
    ensures
        spec_unpack(spec_pack(bits)) == Some(bits),
{
    let rem = bits.len() % 8;
    let payload = spec_pack(bits);
    if bits.len() == 0 {
        assert(payload =~= seq![0u8]);
        assert(spec_unpack(payload) == Some(Seq::<u8>::empty()));
        assert(bits =~= Seq::<u8>::empty());
    } else if rem == 0 {
        let fulls = pack_full_bytes(bits);
        assert(fulls.len() * 8 == bits.len() && fulls.len() >= 1) by {
            lemma_pack_full_len(bits);
        }
        assert(payload.drop_last() =~= fulls);
        assert(payload.last() == 8);
        lemma_unpack_pack_full(bits);
        lemma_unpack_full_snoc(fulls.drop_last(), fulls.last());
        assert(fulls.drop_last().push(fulls.last()) =~= fulls);
        assert(unpack_full_bytes(fulls.drop_last()) + bits_of_byte_prefix(fulls.last(), 8)
            =~= unpack_full_bytes(fulls));
        assert(bits.take(bits.len() - 0) =~= bits);
        assert(spec_unpack(payload) == Some(unpack_full_bytes(fulls.drop_last())
            + bits_of_byte_prefix(fulls.last(), 8)));
    } else {
        let fulls = pack_full_bytes(bits);
        let part = bits.skip(bits.len() - rem);
        assert(bits_valid(part));
        let padded = double_n(byte_of_bits(part), (8 - rem) as nat);
        assert(payload.drop_last() =~= fulls + seq![padded]);
        assert(payload.last() == rem as u8);
        assert((fulls + seq![padded]).drop_last() =~= fulls);
        assert((fulls + seq![padded]).last() == padded);
        lemma_unpack_pack_full(bits);
        lemma_byte_of_bits_bound(part);
        assert forall|i: int| 0 <= i < rem implies bits_of_byte_prefix(padded, rem as int)[i]
            == part[i] by {
            lemma_double_bit(byte_of_bits(part), (8 - rem) as nat, (7 - i) as nat);
            lemma_bit_of_value(part, (rem - 1 - i) as nat);
        }
        assert(bits_of_byte_prefix(padded, rem as int) =~= part);
        assert(bits.take(bits.len() - rem) + part =~= bits);
        assert(spec_unpack(payload) == Some(unpack_full_bytes(fulls) + bits_of_byte_prefix(
            padded,
            rem as int,
        )));
    }
}

proof fn lemma_pack_full_len(bits: Seq<u8>)
    ensures
        pack_full_bytes(bits).len() * 8 == bits.len() - bits.len() % 8,
    decreases bits.len(),
{
    if bits.len() >= 8 {
        lemma_pack_full_len(bits.skip(8));
        assert(bits.skip(8).len() % 8 == bits.len() % 8) by {
            assert(bits.skip(8).len() + 8 == bits.len());
        }
    } else {
        assert(bits.len() % 8 == bits.len());
    }
}

/// Copies a byte vector.
pub fn clone_bytes(v: &Vec<u8>) -> (r: Vec<u8>)
    ensures
        r@ == v@,
{
    let mut r: Vec<u8> = Vec::new();
    let mut i: usize = 0;
    while i < v.len()
        invariant
            i <= v@.len(),
            r@ == v@.take(i as int),
        decreases v@.len() - i,
    {
        r.push(v[i]);
        proof {
            assert(v@.take(i + 1) =~= v@.take(i as int).push(v@[i as int]));
        }
        i += 1;
    }
    proof {
        assert(v@.take(v@.len() as int) =~= v@);
    }
    r
}

/// Extracts bit `k` of a byte, with bit 0 the least significant.
pub fn get_bit(byte: u8, k: u8) -> (r: u8)
    requires
        k < 8,
    ensures
        r == spec_bit(byte, k as nat),
        r <= 1,
{
    proof {
        assert((byte >> k) & 1 <= 1) by (bit_vector);
    }
    (byte >> k) & 1
}

/// Packs a bit stream into bytes, most significant bit first, appending the
/// trailer byte.
pub fn pack_bits(bits: &Vec<u8>) -> (r: Vec<u8>)
    requires
        bits_valid(bits@),
    ensures
        r@ == spec_pack(bits@),
{
    let n = bits.len();
    let mut out: Vec<u8> = Vec::new();
    let mut i: usize = 0;
    proof {
        assert(bits@.skip(0) =~= bits@);
    }
    while n - i >= 8
        invariant
            bits_valid(bits@),
            n == bits@.len(),
            i % 8 == 0,
            i <= bits@.len(),
            pack_full_bytes(bits@) == out@ + pack_full_bytes(bits@.skip(i as int)),
        decreases bits@.len() - i,
    {
        let mut byte: u8 = 0;
        let mut j: usize = 0;
        while j < 8
            invariant
                bits_valid(bits@),
                n == bits@.len(),
                i + 8 <= bits@.len(),
                j <= 8,
                byte == byte_of_bits(bits@.subrange(i as int, i + j)),
                byte < two_pow(j as nat),
            decreases 8 - j,
        {
            proof {
                reveal_with_fuel(two_pow, 9);
                lemma_two_pow_mono(j as nat, 7);
                assert(byte < 128);
                assert(bits@.subrange(i as int, i + j + 1).drop_last() =~= bits@.subrange(
                    i as int,
                    i + j,
                ));
                assert(bits@.subrange(i as int, i + j + 1).last() == bits@[i + j]);
                assert(bits@[i + j] <= 1);
            }
            byte = byte * 2 + bits[i + j];
            j += 1;
        }
        proof {
            assert(bits@.skip(i as int).len() >= 8);
            assert(bits@.skip(i as int).take(8) =~= bits@.subrange(i as int, i + 8));
            assert(bits@.skip(i as int).skip(8) =~= bits@.skip(i + 8));
            assert(pack_full_bytes(bits@.skip(i as int)) == seq![byte] + pack_full_bytes(
                bits@.skip(i + 8),
            ));
            assert(out@.push(byte) + pack_full_bytes(bits@.skip(i + 8)) =~= out@ + pack_full_bytes(
                bits@.skip(i as int),
            ));
        }
        out.push(byte);
        i += 8;
    }
    let rem = bits.len() - i;
    proof {
        assert(bits@.len() % 8 == rem) by (nonlinear_arith)
            requires
                i % 8 == 0,
                0 <= rem < 8,
                rem == bits@.len() - i,
        ;
        assert(pack_full_bytes(bits@.skip(i as int)) =~= Seq::<u8>::empty());
        assert(out@ == pack_full_bytes(bits@));
    }
    if rem > 0 {
        let mut byte: u8 = 0;
        let mut j: usize = 0;
        while j < rem
            invariant
                bits_valid(bits@),
                n == bits@.len(),
                rem == bits@.len() - i,
                rem < 8,
                i + rem == bits@.len(),
                j <= rem,
                byte == byte_of_bits(bits@.subrange(i as int, i + j)),
                byte < two_pow(j as nat),
            decreases rem - j,
        {
            proof {
                reveal_with_fuel(two_pow, 9);
                lemma_two_pow_mono(j as nat, 7);
                assert(byte < 128);
                assert(bits@.subrange(i as int, i + j + 1).drop_last() =~= bits@.subrange(
                    i as int,
                    i + j,
                ));
                assert(bits@.subrange(i as int, i + j + 1).last() == bits@[i + j]);
                assert(bits@[i + j] <= 1);
            }
            byte = byte * 2 + bits[i + j];
            j += 1;
        }
        proof {
            assert(bits@.subrange(i as int, i + rem) =~= bits@.skip(i as int));
            lemma_byte_of_bits_bound(bits@.skip(i as int));
        }
        let mut k: usize = 0;
        while k < 8 - rem
            invariant
                rem == bits@.len() % 8,
                0 < rem < 8,
                k <= 8 - rem,
                byte == double_n(byte_of_bits(bits@.skip(bits@.len() - rem)), k as nat),
                byte < two_pow((rem + k) as nat),
            decreases 8 - rem - k,
        {
            proof {
                reveal_with_fuel(two_pow, 9);
                lemma_two_pow_mono((rem + k) as nat, 7);
                assert(byte < 128);
            }
            byte = byte * 2;
            proof {
                vstd::arithmetic::div_mod::lemma_small_mod((byte) as nat, 256);
                assert(byte == double_n(byte_of_bits(bits@.skip(bits@.len() - rem)), (k + 1) as nat));
            }
            k += 1;
        }
        out.push(byte);
        out.push(rem as u8);
        proof {
            assert(out@ =~= spec_pack(bits@));
        }
    } else if bits.len() > 0 {
        out.push(8);
        proof {
            assert(out@ =~= spec_pack(bits@));
        }
    } else {
        out.push(0);
        proof {
            assert(out@ =~= spec_pack(bits@));
        }
    }
    out
}

/// Reads a packed payload back into its bit stream; `None` when the trailer
/// byte is out of range.
pub fn unpack_payload(payload: &[u8]) -> (r: Option<Vec<u8>>)
    ensures
        r is Some <==> spec_unpack(payload@) is Some,
        r matches Some(v) ==> Some(v@) == spec_unpack(payload@),
{
    let n = payload.len();
    if n <= 1 {
        return Some(Vec::new());
    }
    let t = payload[n - 1];
    if t < 1 || t > 8 {
        return None;
    }
    let mut out: Vec<u8> = Vec::new();
    let mut index: usize = 0;
    while index < n - 2
        invariant
            n == payload@.len(),
            2 <= n,
            index <= n - 2,
            out@ == unpack_full_bytes(payload@.subrange(0, index as int)),
        decreases n - index,
    {
        let byte = payload[index];
        let mut i: usize = 0;
        while i < 8
            invariant
                i <= 8,
                index < payload@.len(),
                byte == payload@[index as int],
                out@ == unpack_full_bytes(payload@.subrange(0, index as int))
                    + bits_of_byte_prefix(byte, i as int),
            decreases 8 - i,
        {
            let bit = get_bit(byte, (7 - i) as u8);
            out.push(bit);
            proof {
                assert(bits_of_byte_prefix(byte, i + 1) =~= bits_of_byte_prefix(byte, i as int)
                    + seq![spec_bit(byte, (7 - i) as nat)]);
            }
            i += 1;
        }
        proof {
            lemma_unpack_full_snoc(payload@.subrange(0, index as int), byte);
            assert(payload@.subrange(0, index as int).push(byte) =~= payload@.subrange(
                0,
                index + 1,
            ));
        }
        index += 1;
    }
    let byte = payload[n - 2];
    let mut i: usize = 0;
    while i < t as usize
        invariant
            t <= 8,
            i <= t as usize,
            n == payload@.len(),
            2 <= n,
            byte == payload@[n - 2],
            out@ == unpack_full_bytes(payload@.subrange(0, n - 2)) + bits_of_byte_prefix(
                byte,
                i as int,
            ),
        decreases t as int - i,
    {
        let bit = get_bit(byte, (7 - i) as u8);
        out.push(bit);
        proof {
            assert(bits_of_byte_prefix(byte, i + 1) =~= bits_of_byte_prefix(byte, i as int)
                + seq![spec_bit(byte, (7 - i) as nat)]);
        }
        i += 1;
    }
    proof {
        assert(payload@.drop_last().drop_last() =~= payload@.subrange(0, n - 2));
        assert(payload@.drop_last().last() == payload@[n - 2]);
        assert(payload@.last() == t);
    }
    Some(out)
}

} // verus!
