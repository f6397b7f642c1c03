//! The checksum by which the two sides of a synchronisation compare files.
//!
//! It is the CRC-32C shift register, seeded with all ones and read out as it
//! stands once the file has gone through in words of eight bytes, the last
//! word filled up with zero bytes. An empty file has the checksum 0.
//!
//! Two computations are given. [`Checksum`] takes the bytes as they are
//! read, one byte at a time through a table; [`calc_crc`] takes a whole
//! buffer, one 64-bit word at a time. [`lemma_checksums_agree`] shows that
//! they give the same value for every file.

use vstd::prelude::*;

verus! {

/// The register before the first byte.
pub const SEED: u32 = 0xFFFF_FFFF;

/// The CRC-32C polynomial, bits reversed.
pub const POLY: u32 = 0x82F6_3B78;

/// The register after one bit has gone through.
pub open spec fn shift_bit(crc: u32) -> u32 {
    if crc & 1 == 1 {
        (crc >> 1) ^ POLY
    } else {
        crc >> 1
    }
}

/// The register after eight bits have gone through.
pub open spec fn shift_byte(crc: u32) -> u32 {
    shift_bit(shift_bit(shift_bit(shift_bit(shift_bit(shift_bit(shift_bit(shift_bit(crc))))))))
}

/// The register after the byte `b` has gone through.
pub open spec fn with_byte(crc: u32, b: u8) -> u32 {
    shift_byte(crc ^ (b as u32))
}

/// The register after `bytes` have gone through, first to last.
pub open spec fn with_bytes(crc: u32, bytes: Seq<u8>) -> u32
    decreases bytes.len(),
{
    if bytes.len() == 0 {
        crc
    } else {
        with_byte(with_bytes(crc, bytes.drop_last()), bytes.last())
    }
}

/// The number of zero bytes that fill a file of `len` bytes up to whole
/// words.
pub open spec fn padding(len: nat) -> nat {
    ((8 - len % 8) % 8) as nat
}

/// The file as it goes through the register: filled up with zero bytes to
/// whole words of eight bytes.
pub open spec fn zero_padded(bytes: Seq<u8>) -> Seq<u8> {
    bytes + Seq::new(padding(bytes.len()), |i: int| 0u8)
}

/// The checksum of a file that holds `bytes`.
pub open spec fn checksum_of(bytes: Seq<u8>) -> u32 {
    if bytes.len() == 0 {
        0
    } else {
        with_bytes(SEED, zero_padded(bytes))
    }
}

/// Computes [`shift_bit`].
fn shifted_bit(crc: u32) -> (r: u32)
    ensures
        r == shift_bit(crc),
{
    if crc & 1 == 1 {
        (crc >> 1) ^ POLY
    } else {
        crc >> 1
    }
}

/// Computes [`shift_byte`].
fn shifted_byte(crc: u32) -> (r: u32)
    ensures
        r == shift_byte(crc),
{
    let a = shifted_bit(crc);
    let b = shifted_bit(a);
    let c = shifted_bit(b);
    let d = shifted_bit(c);
    let e = shifted_bit(d);
    let f = shifted_bit(e);
    let g = shifted_bit(f);
    shifted_bit(g)
}

/// Shifting is linear: the low byte of the register goes through on its
/// own, the rest only moves down.
proof fn lemma_byte_through_table(crc: u32, b: u8)
    ensures
        (crc ^ (b as u32)) & 0xFF < 256,
        with_byte(crc, b) == (crc >> 8) ^ shift_byte((crc ^ (b as u32)) & 0xFF),
{
    let x: u32 = crc ^ (b as u32);
    assert(x & 0xFF < 256) by (bit_vector);
    assert(shift_byte(crc ^ (b as u32)) == (crc >> 8) ^ shift_byte((crc ^ (b as u32)) & 0xFF))
        by (bit_vector);
}

/// The table of the register's response to each low byte.
pub struct CrcTable {
    entries: Vec<u32>,
}

impl CrcTable {
    /// The table holds the response to each of the 256 low bytes.
    #[verifier::type_invariant]
    spec fn complete(self) -> bool {
        &&& self.entries.len() == 256
        &&& forall|i: int| 0 <= i < 256 ==> #[trigger] self.entries[i] == shift_byte(i as u32)
    }

    /// The register's response to the low byte `low`, as the table has it.
    pub closed spec fn response(&self, low: u8) -> u32 {
        self.entries[low as int]
    }

    /// Computes the table: for each low byte what eight shifts make of it.
    pub fn new() -> (t: Self)
        ensures
            forall|low: u8| t.response(low) == shift_byte(low as u32),
    {
        let mut entries: Vec<u32> = Vec::new();
        let mut i: u32 = 0;
        while i < 256
            invariant
                i <= 256,
                entries.len() == i,
                forall|j: int| 0 <= j < i ==> #[trigger] entries[j] == shift_byte(j as u32),
            decreases 256 - i,
        {
            entries.push(shifted_byte(i));
            i += 1;
        }
        CrcTable { entries }
    }

    /// The register `crc` after the byte `b` has gone through.
    pub fn step(&self, crc: u32, b: u8) -> (next: u32)
        ensures
            next == with_byte(crc, b),
    {
        proof {
            use_type_invariant(self);
            lemma_byte_through_table(crc, b);
        }
        let low: u32 = (crc ^ (b as u32)) & 0xFF;
        (crc >> 8) ^ self.entries[low as usize]
    }
}

/// A checksum in the making: the register, and how far the file has gone
/// through it.
pub struct Checksum<'a> {
    table: &'a CrcTable,
    crc: u32,
    fill: u8,
    empty: bool,
    fed: Ghost<Seq<u8>>,
}

impl<'a> Checksum<'a> {
    /// The register is what the bytes taken in have made of the seed.
    #[verifier::type_invariant]
    spec fn consistent(self) -> bool {
        &&& self.crc == with_bytes(SEED, self.fed@)
        &&& self.fill == self.fed@.len() % 8
        &&& self.empty == (self.fed@.len() == 0)
    }

    /// The bytes taken in so far.
    pub closed spec fn fed(&self) -> Seq<u8> {
        self.fed@
    }

    /// A checksum that has taken in nothing yet.
    pub fn new(table: &'a CrcTable) -> (c: Self)
        ensures
            c.fed() == Seq::<u8>::empty(),
    {
        Checksum { table, crc: SEED, fill: 0, empty: true, fed: Ghost(Seq::empty()) }
    }

    /// Takes in the next byte of the file.
    pub fn push(&mut self, b: u8)
        ensures
            final(self).fed() == old(self).fed().push(b),
    {
        proof {
            use_type_invariant(&*self);
            assert(self.fed@.push(b).drop_last() =~= self.fed@);
        }
        let next: u32 = self.table.step(self.crc, b);
        let fill: u8 = if self.fill == 7 {
            0
        } else {
            self.fill + 1
        };
        let ghost fed = self.fed@.push(b);
        *self = Checksum { table: self.table, crc: next, fill, empty: false, fed: Ghost(fed) };
    }

    /// Takes in the next bytes of the file.
    pub fn update(&mut self, chunk: &[u8])
        ensures
            final(self).fed() == old(self).fed() + chunk@,
    {
        let mut i: usize = 0;
        assert(self.fed() + chunk@.take(0) =~= self.fed());
        while i < chunk.len()
            invariant
                i <= chunk.len(),
                self.fed() == old(self).fed() + chunk@.take(i as int),
            decreases chunk.len() - i,
        {
            self.push(chunk[i]);
            assert(old(self).fed() + chunk@.take(i + 1) =~= (old(self).fed() + chunk@.take(
                i as int,
            )).push(chunk@[i as int]));
            i += 1;
        }
        assert(chunk@.take(i as int) =~= chunk@);
    }

    /// The checksum of the file whose bytes were taken in.
    pub fn finish(&self) -> (sum: u32)
        ensures
            sum == checksum_of(self.fed()),
    {
        proof {
            use_type_invariant(self);
        }
        if self.empty {
            return 0;
        }
        let mut crc: u32 = self.crc;
        let mut fill: u8 = self.fill;
        let ghost mut zeros: nat = 0;
        assert(self.fed@ + Seq::new(0, |i: int| 0u8) =~= self.fed@);
        while fill != 0
            invariant
                fill < 8,
                zeros + (8 - fill) % 8 == padding(self.fed@.len()),
                crc == with_bytes(SEED, self.fed@ + Seq::new(zeros, |i: int| 0u8)),
            decreases (8 - fill) % 8,
        {
            proof {
                let before = self.fed@ + Seq::new(zeros, |i: int| 0u8);
                let after = self.fed@ + Seq::new(zeros + 1, |i: int| 0u8);
                assert(after.drop_last() =~= before);
                assert(after.last() == 0u8);
                zeros = zeros + 1;
            }
            crc = self.table.step(crc, 0);
            fill = if fill == 7 {
                0
            } else {
                fill + 1
            };
        }
        crc
    }
}

/// The checksum of `bytes`, taken a byte at a time.
pub fn checksum(bytes: &[u8]) -> (sum: u32)
    ensures
        sum == checksum_of(bytes@),
{
    let table = CrcTable::new();
    let mut c = Checksum::new(&table);
    c.update(bytes);
    assert(Seq::<u8>::empty() + bytes@ =~= bytes@);
    c.finish()
}

/// The polynomial in a register of 64 bits.
pub const POLY64: u64 = 0x82F6_3B78;

/// The 64-bit register after one bit has gone through.
pub open spec fn shift_bit64(x: u64) -> u64 {
    if x & 1 == 1 {
        (x >> 1) ^ POLY64
    } else {
        x >> 1
    }
}

/// The 64-bit register after eight bits have gone through.
pub open spec fn shift_byte64(x: u64) -> u64 {
    shift_bit64(
        shift_bit64(
            shift_bit64(shift_bit64(shift_bit64(shift_bit64(shift_bit64(shift_bit64(x)))))),
        ),
    )
}

/// The 64-bit register after sixty-four bits have gone through.
pub open spec fn shift_word64(x: u64) -> u64 {
    shift_byte64(
        shift_byte64(
            shift_byte64(
                shift_byte64(shift_byte64(shift_byte64(shift_byte64(shift_byte64(x))))),
            ),
        ),
    )
}

/// The register after the word `word` has gone through: the word is laid
/// over the register, and sixty-four bits are shifted out.
pub open spec fn with_word(crc: u32, word: u64) -> u32 {
    (shift_word64((crc as u64) ^ word) & 0xFFFF_FFFF) as u32
}

/// The byte of the file at `i`, and zero behind its end.
pub open spec fn byte_or_zero(bytes: Seq<u8>, i: int) -> u8 {
    if 0 <= i < bytes.len() {
        bytes[i]
    } else {
        0
    }
}

/// Eight bytes as one word, the first byte lowest.
pub open spec fn word_of(b0: u8, b1: u8, b2: u8, b3: u8, b4: u8, b5: u8, b6: u8, b7: u8) -> u64 {
    (b0 as u64) | (b1 as u64) << 8 | (b2 as u64) << 16 | (b3 as u64) << 24 | (b4 as u64) << 32 | (
    b5 as u64) << 40 | (b6 as u64) << 48 | (b7 as u64) << 56
}

/// The word of the file that begins at `pos`, zero bytes standing in behind
/// the end of the file.
pub open spec fn word_at(bytes: Seq<u8>, pos: int) -> u64 {
    word_of(
        byte_or_zero(bytes, pos),
        byte_or_zero(bytes, pos + 1),
        byte_or_zero(bytes, pos + 2),
        byte_or_zero(bytes, pos + 3),
        byte_or_zero(bytes, pos + 4),
        byte_or_zero(bytes, pos + 5),
        byte_or_zero(bytes, pos + 6),
        byte_or_zero(bytes, pos + 7),
    )
}

/// The register after the first `n` words of the file have gone through.
pub open spec fn with_words(crc: u32, bytes: Seq<u8>, n: nat) -> u32
    decreases n,
{
    if n == 0 {
        crc
    } else {
        with_word(with_words(crc, bytes, (n - 1) as nat), word_at(bytes, 8 * (n - 1)))
    }
}

/// The number of words that a file of `len` bytes takes up.
pub open spec fn word_count(len: nat) -> nat {
    (len + 7) / 8
}

/// The checksum of a file that holds `bytes`, taken a word at a time.
pub open spec fn mapped_checksum(bytes: Seq<u8>) -> u32 {
    if bytes.len() == 0 {
        0
    } else {
        with_words(SEED, bytes, word_count(bytes.len()))
    }
}

/// Computes [`shift_bit64`].
fn shifted_bit64(x: u64) -> (r: u64)
    ensures
        r == shift_bit64(x),
{
    if x & 1 == 1 {
        (x >> 1) ^ POLY64
    } else {
        x >> 1
    }
}

/// Computes [`shift_byte64`].
fn shifted_byte64(x: u64) -> (r: u64)
    ensures
        r == shift_byte64(x),
{
    let a = shifted_bit64(x);
    let b = shifted_bit64(a);
    let c = shifted_bit64(b);
    let d = shifted_bit64(c);
    let e = shifted_bit64(d);
    let f = shifted_bit64(e);
    let g = shifted_bit64(f);
    shifted_bit64(g)
}

/// The register `crc` after the word `word` has gone through.
pub fn crc32_u64(crc: u32, word: u64) -> (next: u32)
    ensures
        next == with_word(crc, word),
{
    let x: u64 = (crc as u64) ^ word;
    let a = shifted_byte64(x);
    let b = shifted_byte64(a);
    let c = shifted_byte64(b);
    let d = shifted_byte64(c);
    let e = shifted_byte64(d);
    let f = shifted_byte64(e);
    let g = shifted_byte64(f);
    let h = shifted_byte64(g);
    let low: u64 = h & 0xFFFF_FFFF;
    assert(low <= 0xFFFF_FFFF) by (bit_vector)
        requires
            low == h & 0xFFFF_FFFF,
    ;
    low as u32
}

/// The byte `k` places behind `pos`, or zero behind the end of `bytes`.
fn byte_from(bytes: &[u8], pos: usize, k: usize) -> (b: u8)
    requires
        pos < bytes.len(),
        k < 8,
    ensures
        b == byte_or_zero(bytes@, pos + k),
{
    if k < bytes.len() - pos {
        bytes[pos + k]
    } else {
        0
    }
}

/// Computes [`word_at`].
fn load_word(bytes: &[u8], pos: usize) -> (word: u64)
    requires
        pos < bytes.len(),
    ensures
        word == word_at(bytes@, pos as int),
{
    let b0 = byte_from(bytes, pos, 0);
    let b1 = byte_from(bytes, pos, 1);
    let b2 = byte_from(bytes, pos, 2);
    let b3 = byte_from(bytes, pos, 3);
    let b4 = byte_from(bytes, pos, 4);
    let b5 = byte_from(bytes, pos, 5);
    let b6 = byte_from(bytes, pos, 6);
    let b7 = byte_from(bytes, pos, 7);
    (b0 as u64) | (b1 as u64) << 8 | (b2 as u64) << 16 | (b3 as u64) << 24 | (b4 as u64) << 32 | (
    b5 as u64) << 40 | (b6 as u64) << 48 | (b7 as u64) << 56
}

/// The checksum of `bytes`, taken a word at a time.
pub fn calc_crc(bytes: &[u8]) -> (sum: u32)
    ensures
        sum == mapped_checksum(bytes@),
{
    let len: usize = bytes.len();
    if len == 0 {
        return 0;
    }
    let count: usize = if len % 8 == 0 {
        len / 8
    } else {
        len / 8 + 1
    };
    let mut crc: u32 = SEED;
    let mut n: usize = 0;
    while n < count
        invariant
            len == bytes.len(),
            count == word_count(len as nat),
            n <= count,
            crc == with_words(SEED, bytes@, n as nat),
        decreases count - n,
    {
        let word = load_word(bytes, n * 8);
        crc = crc32_u64(crc, word);
        n += 1;
    }
    crc
}

/// One byte through the wide register: the low byte of what lies over the
/// register goes through as through the narrow one, the rest moves down.
proof fn lemma_byte_through_wide(crc: u32, v: u64)
    by (bit_vector)
    ensures
        shift_byte64((crc as u64) ^ v) == (with_byte(crc, (v & 0xFF) as u8) as u64) ^ (v >> 8),
{
}

/// The bytes of a word, lowest first.
proof fn lemma_word_bytes(b0: u8, b1: u8, b2: u8, b3: u8, b4: u8, b5: u8, b6: u8, b7: u8)
    by (bit_vector)
    ensures
        ({
            let w = word_of(b0, b1, b2, b3, b4, b5, b6, b7);
            &&& (w & 0xFF) as u8 == b0
            &&& ((w >> 8) & 0xFF) as u8 == b1
            &&& (((w >> 8) >> 8) & 0xFF) as u8 == b2
            &&& ((((w >> 8) >> 8) >> 8) & 0xFF) as u8 == b3
            &&& (((((w >> 8) >> 8) >> 8) >> 8) & 0xFF) as u8 == b4
            &&& ((((((w >> 8) >> 8) >> 8) >> 8) >> 8) & 0xFF) as u8 == b5
            &&& (((((((w >> 8) >> 8) >> 8) >> 8) >> 8) >> 8) & 0xFF) as u8 == b6
            &&& ((((((((w >> 8) >> 8) >> 8) >> 8) >> 8) >> 8) >> 8) & 0xFF) as u8 == b7
            &&& (((((((w >> 8) >> 8) >> 8) >> 8) >> 8) >> 8) >> 8) >> 8 == 0
        }),
{
}

/// A word through the wide register is its eight bytes through the narrow
/// one, lowest first.
pub proof fn lemma_word_is_eight_bytes(
    crc: u32,
    b0: u8,
    b1: u8,
    b2: u8,
    b3: u8,
    b4: u8,
    b5: u8,
    b6: u8,
    b7: u8,
)
    ensures
        with_word(crc, word_of(b0, b1, b2, b3, b4, b5, b6, b7)) == with_byte(
            with_byte(
                with_byte(
                    with_byte(
                        with_byte(with_byte(with_byte(with_byte(crc, b0), b1), b2), b3),
                        b4,
                    ),
                    b5,
                ),
                b6,
            ),
            b7,
        ),
{
    let w = word_of(b0, b1, b2, b3, b4, b5, b6, b7);
    lemma_word_bytes(b0, b1, b2, b3, b4, b5, b6, b7);
    let v1 = w >> 8;
    let v2 = v1 >> 8;
    let v3 = v2 >> 8;
    let v4 = v3 >> 8;
    let v5 = v4 >> 8;
    let v6 = v5 >> 8;
    let v7 = v6 >> 8;
    let c1 = with_byte(crc, b0);
    let c2 = with_byte(c1, b1);
    let c3 = with_byte(c2, b2);
    let c4 = with_byte(c3, b3);
    let c5 = with_byte(c4, b4);
    let c6 = with_byte(c5, b5);
    let c7 = with_byte(c6, b6);
    let c8 = with_byte(c7, b7);
    lemma_byte_through_wide(crc, w);
    lemma_byte_through_wide(c1, v1);
    lemma_byte_through_wide(c2, v2);
    lemma_byte_through_wide(c3, v3);
    lemma_byte_through_wide(c4, v4);
    lemma_byte_through_wide(c5, v5);
    lemma_byte_through_wide(c6, v6);
    lemma_byte_through_wide(c7, v7);
    let x8 = shift_word64((crc as u64) ^ w);
    assert(x8 == (c8 as u64) ^ 0u64);
    assert(((c8 as u64) ^ 0u64) & 0xFFFF_FFFF == c8 as u64) by (bit_vector);
}

/// One more byte through the register.
proof fn lemma_with_bytes_push(crc: u32, s: Seq<u8>, b: u8)
    ensures
        with_bytes(crc, s.push(b)) == with_byte(with_bytes(crc, s), b),
{
    assert(s.push(b).drop_last() =~= s);
}

/// After `n` words the wide register holds what the narrow one holds after
/// the first `8 * n` bytes of the zero-padded file.
proof fn lemma_words_are_bytes(bytes: Seq<u8>, n: nat)
    requires
        n <= word_count(bytes.len()),
    ensures
        with_words(SEED, bytes, n) == with_bytes(SEED, zero_padded(bytes).take(8 * n as int)),
    decreases n,
{
    let padded = zero_padded(bytes);
    assert(padded.len() == 8 * word_count(bytes.len()));
    if n == 0 {
        assert(padded.take(0) =~= Seq::empty());
    } else {
        let m = (n - 1) as nat;
        lemma_words_are_bytes(bytes, m);
        let pos: int = 8 * (m as int);
        let s0 = padded.take(pos);
        let b0 = padded[pos];
        let b1 = padded[pos + 1];
        let b2 = padded[pos + 2];
        let b3 = padded[pos + 3];
        let b4 = padded[pos + 4];
        let b5 = padded[pos + 5];
        let b6 = padded[pos + 6];
        let b7 = padded[pos + 7];
        assert(word_at(bytes, pos) == word_of(b0, b1, b2, b3, b4, b5, b6, b7));
        let s1 = s0.push(b0);
        let s2 = s1.push(b1);
        let s3 = s2.push(b2);
        let s4 = s3.push(b3);
        let s5 = s4.push(b4);
        let s6 = s5.push(b5);
        let s7 = s6.push(b6);
        let s8 = s7.push(b7);
        assert(s8 =~= padded.take(8 * n as int));
        let c0 = with_bytes(SEED, s0);
        lemma_with_bytes_push(SEED, s0, b0);
        lemma_with_bytes_push(SEED, s1, b1);
        lemma_with_bytes_push(SEED, s2, b2);
        lemma_with_bytes_push(SEED, s3, b3);
        lemma_with_bytes_push(SEED, s4, b4);
        lemma_with_bytes_push(SEED, s5, b5);
        lemma_with_bytes_push(SEED, s6, b6);
        lemma_with_bytes_push(SEED, s7, b7);
        lemma_word_is_eight_bytes(c0, b0, b1, b2, b3, b4, b5, b6, b7);
    }
}

/// The two computations agree: whatever a file holds, taking it a byte at a
/// time and taking it a word at a time give the same checksum, which is 0
/// for the empty file.
pub proof fn lemma_checksums_agree(bytes: Seq<u8>)
    ensures
        checksum_of(bytes) == mapped_checksum(bytes),
        bytes.len() == 0 ==> checksum_of(bytes) == 0,
{
    if bytes.len() > 0 {
        let padded = zero_padded(bytes);
        lemma_words_are_bytes(bytes, word_count(bytes.len()));
        assert(padded.take(8 * word_count(bytes.len()) as int) =~= padded);
    }
}

} // verus!
