//! CRC-32 (as PNG chunks use it) and Adler-32 (as zlib streams use it).
use vstd::prelude::*;

verus! {

/// One bit of the reflected CRC-32 shift register.
pub open spec fn crc_step(c: u32) -> u32 {
    if c & 1 != 0 {
        (c >> 1u32) ^ 0xEDB88320u32
    } else {
        c >> 1u32
    }
}

/// `n` bits of the shift register.
pub open spec fn crc_steps(c: u32, n: nat) -> u32
    decreases n,
{
    if n == 0 {
        c
    } else {
        crc_step(crc_steps(c, (n - 1) as nat))
    }
}

/// The register after feeding one byte.
pub open spec fn crc_byte(c: u32, b: u8) -> u32 {
    crc_steps(c ^ (b as u32), 8)
}

/// The register after feeding `s`, starting from `c`.
pub open spec fn crc_update(c: u32, s: Seq<u8>) -> u32
    decreases s.len(),
{
    if s.len() == 0 {
        c
    } else {
        crc_byte(crc_update(c, s.drop_last()), s.last())
    }
}

/// The CRC-32 of `s`.
pub open spec fn crc32_spec(s: Seq<u8>) -> u32 {
    crc_update(0xFFFF_FFFFu32, s) ^ 0xFFFF_FFFFu32
}

/// Feeding `a` and then `b` to the register is feeding `a + b`: a CRC-32
/// can be computed over a message piece by piece.
pub proof fn lemma_crc_concat(c: u32, a: Seq<u8>, b: Seq<u8>)
    ensures
        crc_update(c, a + b) == crc_update(crc_update(c, a), b),
        crc32_spec(a + b) == crc_update(crc_update(0xFFFF_FFFFu32, a), b) ^ 0xFFFF_FFFFu32,
    decreases b.len(),
{
    if b.len() == 0 {
        assert(a + b =~= a);
    } else {
        lemma_crc_concat(c, a, b.drop_last());
        lemma_crc_concat(0xFFFF_FFFFu32, a, b.drop_last());
        assert((a + b).drop_last() =~= a + b.drop_last());
        assert((a + b).last() == b.last());
    }
}

/// Feeds one byte to the register, bit by bit.
pub fn crc_feed(crc: u32, byte: u8) -> (r: u32)
    ensures
        r == crc_byte(crc, byte),
{
    let mut c = crc ^ (byte as u32);
    let mut k: u32 = 0;
    while k < 8
        invariant
            k <= 8,
            c == crc_steps(crc ^ (byte as u32), k as nat),
        decreases 8 - k,
    {
        c = if c & 1 != 0 {
            (c >> 1) ^ 0xEDB88320u32
        } else {
            c >> 1
        };
        k = k + 1;
    }
    c
}

/// The CRC-32 of `bytes`, bit by bit.
pub fn crc32(bytes: &[u8]) -> (r: u32)
    ensures
        r == crc32_spec(bytes@),
{
    let mut crc: u32 = 0xFFFF_FFFF;
    let mut i: usize = 0;
    while i < bytes.len()
        invariant
            i <= bytes@.len(),
            crc == crc_update(0xFFFF_FFFFu32, bytes@.subrange(0, i as int)),
        decreases bytes@.len() - i,
    {
        crc = crc_feed(crc, bytes[i]);
        assert(bytes@.subrange(0, i + 1).drop_last() =~= bytes@.subrange(0, i as int));
        i = i + 1;
    }
    assert(bytes@.subrange(0, i as int) =~= bytes@);
    crc ^ 0xFFFF_FFFF
}

/// The 256-entry table of the byte-at-a-time CRC-32.
pub fn crc_table() -> (t: Vec<u32>)
    ensures
        t@.len() == 256,
        forall|i: int| 0 <= i < 256 ==> #[trigger] t@[i] == crc_steps(i as u32, 8),
{
    let mut t: Vec<u32> = Vec::new();
    let mut i: u32 = 0;
    while i < 256
        invariant
            i <= 256,
            t@.len() == i,
            forall|j: int| 0 <= j < i ==> #[trigger] t@[j] == crc_steps(j as u32, 8),
        decreases 256 - i,
    {
        let mut c = i;
        let mut k: u32 = 0;
        while k < 8
            invariant
                k <= 8,
                c == crc_steps(i, k as nat),
            decreases 8 - k,
        {
            c = if c & 1 != 0 {
                (c >> 1) ^ 0xEDB88320u32
            } else {
                c >> 1
            };
            k = k + 1;
        }
        t.push(c);
        i = i + 1;
    }
    t
}

/// Eight shifts of `x` equal eight shifts of its low byte with the high
/// bytes shifted in.
pub proof fn lemma_table_step(c: u32, b: u8)
    ensures
        crc_byte(c, b) == crc_steps((c ^ (b as u32)) & 0xFFu32, 8) ^ (c >> 8u32),
{
    let x = c ^ (b as u32);
    let y = x & 0xFFu32;
    let h = c >> 8u32;
    reveal_with_fuel(crc_steps, 9);
    assert(crc_step(crc_step(crc_step(crc_step(crc_step(crc_step(crc_step(crc_step(x))))))))
        == crc_step(crc_step(crc_step(crc_step(crc_step(crc_step(crc_step(crc_step(y))))))))
        ^ h) by (bit_vector)
        requires
            x == c ^ (b as u32),
            y == x & 0xFFu32,
            h == c >> 8u32,
    ;
}

/// Feeds `bytes` to the register with the byte-at-a-time table.
pub fn crc32_update(table: &Vec<u32>, crc: u32, bytes: &[u8]) -> (r: u32)
    requires
        table@.len() == 256,
        forall|i: int| 0 <= i < 256 ==> #[trigger] table@[i] == crc_steps(i as u32, 8),
    ensures
        r == crc_update(crc, bytes@),
{
    let mut c = crc;
    let mut i: usize = 0;
    while i < bytes.len()
        invariant
            i <= bytes@.len(),
            table@.len() == 256,
            forall|i: int| 0 <= i < 256 ==> #[trigger] table@[i] == crc_steps(i as u32, 8),
            c == crc_update(crc, bytes@.subrange(0, i as int)),
        decreases bytes@.len() - i,
    {
        let byte = bytes[i];
        let index = ((c ^ byte as u32) & 0xFF) as usize;
        proof {
            lemma_table_step(c, byte);
            assert(((c ^ byte as u32) & 0xFFu32) < 256) by (bit_vector);
        }
        c = table[index] ^ (c >> 8);
        assert(bytes@.subrange(0, i + 1).drop_last() =~= bytes@.subrange(0, i as int));
        i = i + 1;
    }
    assert(bytes@.subrange(0, i as int) =~= bytes@);
    c
}

pub const MOD_ADLER: u32 = 65521;

/// Adler-32's running sums, before reduction: `a` is one plus the byte sum,
/// `b` the sum of the successive values of `a`.
pub open spec fn adler_a(s: Seq<u8>) -> int
    decreases s.len(),
{
    if s.len() == 0 {
        1
    } else {
        adler_a(s.drop_last()) + s.last()
    }
}

pub open spec fn adler_b(s: Seq<u8>) -> int
    decreases s.len(),
{
    if s.len() == 0 {
        0
    } else {
        adler_b(s.drop_last()) + adler_a(s)
    }
}

/// The Adler-32 checksum of `s`.
pub open spec fn adler32_spec(s: Seq<u8>) -> int {
    (adler_b(s) % 65521) * 65536 + adler_a(s) % 65521
}

/// The Adler-32 checksum of `bytes`.
pub fn adler32(bytes: &[u8]) -> (r: u32)
    ensures
        r as int == adler32_spec(bytes@),
{
    let mut a: u32 = 1;
    let mut b: u32 = 0;
    let mut i: usize = 0;
    while i < bytes.len()
        invariant
            i <= bytes@.len(),
            a < 65521,
            b < 65521,
            a as int == adler_a(bytes@.subrange(0, i as int)) % 65521,
            b as int == adler_b(bytes@.subrange(0, i as int)) % 65521,
        decreases bytes@.len() - i,
    {
        let ghost s = bytes@.subrange(0, i + 1);
        assert(s.drop_last() =~= bytes@.subrange(0, i as int));
        let ghost pa = adler_a(bytes@.subrange(0, i as int));
        let ghost pb = adler_b(bytes@.subrange(0, i as int));
        a = (a + bytes[i] as u32) % 65521;
        proof {
            vstd::arithmetic::div_mod::lemma_add_mod_noop(pa, bytes@[i as int] as int, 65521);
            vstd::arithmetic::div_mod::lemma_mod_twice(bytes@[i as int] as int, 65521);
            vstd::arithmetic::div_mod::lemma_small_mod(bytes@[i as int] as nat, 65521);
        }
        b = (b + a) % 65521;
        proof {
            vstd::arithmetic::div_mod::lemma_add_mod_noop(pb, adler_a(s), 65521);
        }
        i = i + 1;
    }
    assert(bytes@.subrange(0, i as int) =~= bytes@);
    b * 65536 + a
}

} // verus!
