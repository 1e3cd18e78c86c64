//! The 25-byte S.BUS frame: markers, channel words and flags, and their decoding.
use vstd::arithmetic::div_mod::*;
use vstd::arithmetic::power2::*;
use vstd::bits::*;
use vstd::prelude::*;

verus! {

/// Word of the channel area that each channel is read from: `ceil(11 * i / 16)`, the first word
/// that starts at or after the channel's first bit, capped at the last word (10). Consecutive
/// channels may read the same word; OR-ing bits that the accumulator already holds changes nothing.
/// A table built from `floor(11 * (i + 1) / 16)` instead reads word 2 again for channel 3, puts it
/// over bits that belong to word 3, so that later channels come out wrong; `parse` is proved against
/// the bit layout, which rules that table out.
const INDEX: [u8; 16] = [0, 1, 2, 3, 3, 4, 5, 5, 6, 7, 7, 8, 9, 9, 10, 10];

/// Left shift that puts word `INDEX[i]` at its place in the accumulator for channel `i`:
/// `(16 - (11 * i) % 16) % 16`.
const SHIFT: [u8; 16] = [0, 5, 10, 15, 4, 9, 14, 3, 8, 13, 2, 7, 12, 1, 6, 11];

/// Words of the channel area that the accumulator holds when channel `i` begins.
spec fn words_loaded(i: int) -> nat {
    if i <= 0 {
        0
    } else {
        (INDEX@[i - 1] + 1) as nat
    }
}

/// The tables follow their formulas, and each step either loads the next word or reads the
/// word loaded last again (the final channel reads past the end of what it needs).
proof fn lemma_tables(i: int)
    requires
        0 <= i < 16,
    ensures
        INDEX@[i] as int == if (11 * i + 15) / 16 < 10 { (11 * i + 15) / 16 } else { 10 },
        SHIFT@[i] as int == (16 - (11 * i) % 16) % 16,
        SHIFT@[i] < 16,
        i < 15 ==> SHIFT@[i] == 16 * INDEX@[i] - 11 * i,
        i < 15 ==> words_loaded(i) == INDEX@[i] || words_loaded(i) == INDEX@[i] + 1,
        i == 15 ==> INDEX@[i] == 10 && SHIFT@[i] == 11 && words_loaded(i) == 11,
{
}

/// Number of bytes in one frame.
pub const SBUS_PACKET_SIZE: usize = 25;

/// Value of the first byte of every frame.
pub const SBUS_PACKET_BEGIN: u8 = 0x0F;

/// The bytes accepted as the last byte of a frame (one per sub-protocol variant).
pub open spec fn is_end_marker(byte: u8) -> bool {
    byte == 0x00 || byte == 0x04 || byte == 0x14 || byte == 0x24 || byte == 0x34
}

/// A frame is 25 bytes that start with the start marker and end with an end marker.
pub open spec fn is_frame(frame: Seq<u8>) -> bool {
    &&& frame.len() == SBUS_PACKET_SIZE
    &&& frame[0] == SBUS_PACKET_BEGIN
    &&& is_end_marker(frame[SBUS_PACKET_SIZE - 1])
}

/// Whether `byte` may end a frame: S.BUS 1 (0x00), S.BUS 2 receiver voltage (0x04),
/// S.BUS 2 GPS/baro (0x14), and two further S.BUS 2 data tags (0x24, 0x34).
pub fn is_sbus_packet_end(byte: u8) -> (r: bool)
    ensures
        r == is_end_marker(byte),
{
    match byte {
        0x00 => true,
        0x04 => true,
        0x14 => true,
        0x24 => true,
        0x34 => true,
        _ => false,
    }
}

/// Little-endian 16-bit word `n` (0 to 10) of the channel area: bytes `1 + 2n` and `2 + 2n`.
pub open spec fn word_value(frame: Seq<u8>, n: int) -> int {
    frame[1 + 2 * n] + 256 * frame[2 + 2 * n]
}

/// Little-endian value of the first `count` channel words.
pub open spec fn words_value(frame: Seq<u8>, count: nat) -> int
    decreases count,
{
    if count == 0 {
        0
    } else {
        words_value(frame, (count - 1) as nat) + word_value(frame, count - 1) * pow2(
            (16 * (count - 1)) as nat,
        )
    }
}

/// Channel `i` (0 to 15): the 11 bits that start at bit `11 * i` of the channel area,
/// bytes 1 to 22 read as one little-endian number.
pub open spec fn channel_value(frame: Seq<u8>, i: int) -> int {
    (words_value(frame, 11) / pow2((11 * i) as nat) as int) % 2048
}

/// Whether bit `bit` (0 is the least significant) of `byte` is set.
pub open spec fn flag_bit(byte: u8, bit: u8) -> bool {
    (byte >> bit) & 1 == 1
}

proof fn lemma_words_bound(frame: Seq<u8>, count: nat)
    requires
        frame.len() == SBUS_PACKET_SIZE,
        count <= 11,
    ensures
        0 <= words_value(frame, count) < pow2(16 * count),
    decreases count,
{
    if count == 0 {
        lemma2_to64();
    } else {
        let c = (count - 1) as nat;
        lemma_words_bound(frame, c);
        let p = pow2(16 * c) as int;
        let w = word_value(frame, c as int);
        lemma_pow2_adds(16 * c, 16);
        lemma2_to64();
        assert(0 <= w < 65536);
        assert(words_value(frame, count) == words_value(frame, c) + w * p);
        assert(0 <= w * p <= 65535 * p) by (nonlinear_arith)
            requires
                0 <= w < 65536,
                p > 0,
        ;
    }
}

/// The first words fix the low bits of the channel area.
proof fn lemma_words_prefix(frame: Seq<u8>, count: nat, total: nat)
    requires
        frame.len() == SBUS_PACKET_SIZE,
        count <= total <= 11,
    ensures
        words_value(frame, total) % (pow2(16 * count) as int) == words_value(frame, count),
    decreases total,
{
    let m = pow2(16 * count) as int;
    lemma_pow2_pos(16 * count);
    if total == count {
        lemma_words_bound(frame, count);
        lemma_small_mod(words_value(frame, count) as nat, m as nat);
    } else {
        let t = (total - 1) as nat;
        lemma_words_prefix(frame, count, t);
        lemma_pow2_adds(16 * count, (16 * t - 16 * count) as nat);
        let k = word_value(frame, t as int) * pow2((16 * t - 16 * count) as nat);
        assert(word_value(frame, t as int) * pow2(16 * t) == m * k) by (nonlinear_arith)
            requires
                pow2(16 * t) == m * pow2((16 * t - 16 * count) as nat),
                k == word_value(frame, t as int) * pow2((16 * t - 16 * count) as nat),
        ;
        lemma_mod_multiples_vanish(k, words_value(frame, t), m);
    }
}

/// Loading word `count` into an accumulator that holds the words before it from bit
/// `11 * i` on: the word lands at `16 * count - 11 * i`, above all that is held.
proof fn lemma_load_word(frame: Seq<u8>, count: nat, i: nat)
    requires
        frame.len() == SBUS_PACKET_SIZE,
        count < 11,
        11 * i <= 16 * count,
    ensures
        words_value(frame, count) / (pow2(11 * i) as int) < pow2((16 * count - 11 * i) as nat),
        words_value(frame, count + 1) / (pow2(11 * i) as int) == words_value(frame, count) / (
        pow2(11 * i) as int) + word_value(frame, count as int) * pow2(
            (16 * count - 11 * i) as nat,
        ),
{
    let d = pow2(11 * i) as int;
    let s = (16 * count - 11 * i) as nat;
    let ps = pow2(s) as int;
    let v = words_value(frame, count);
    let w = word_value(frame, count as int);
    lemma_pow2_pos(11 * i);
    lemma_pow2_adds(11 * i, s);
    assert(11 * i + s == 16 * count);
    lemma_words_bound(frame, count);
    lemma_fundamental_div_mod(v, d);
    let q = v / d;
    let r = v % d;
    assert(q < ps) by (nonlinear_arith)
        requires
            v == d * q + r,
            0 <= r,
            v < d * ps,
            d > 0,
    ;
    assert(words_value(frame, count + 1) == d * (q + w * ps) + r) by (nonlinear_arith)
        requires
            words_value(frame, count + 1) == v + w * (d * ps),
            v == d * q + r,
    ;
    lemma_div_multiples_vanish_fancy(q + w * ps, r, d);
}

/// A prefix of the words that covers channel `i` decides the channel.
proof fn lemma_channel_from_prefix(frame: Seq<u8>, count: nat, i: nat)
    requires
        frame.len() == SBUS_PACKET_SIZE,
        count <= 11,
        11 * i + 11 <= 16 * count,
    ensures
        (words_value(frame, count) / (pow2(11 * i) as int)) % 2048 == channel_value(frame, i as int),
{
    let x = words_value(frame, 11);
    let y = words_value(frame, count);
    let d = pow2(11 * i) as int;
    let m = pow2(11) as int;
    let e = (16 * count - 11 * i - 11) as nat;
    lemma2_to64();
    lemma_pow2_pos(11 * i);
    lemma_pow2_pos(e);
    lemma_pow2_adds(11 * i, 11);
    lemma_pow2_adds(11 * i + 11, e);
    assert(11 * i + 11 + e == 16 * count);
    let dm = d * m;
    let big = pow2(16 * count) as int;
    assert(big == dm * pow2(e));
    lemma_words_prefix(frame, count, 11);
    lemma_words_bound(frame, count);
    lemma_words_bound(frame, 11);
    // x and y agree below bit 16 * count, hence below bit 11 * i + 11 and bit 11 * i.
    lemma_mod_mod(x, dm, pow2(e) as int);
    lemma_mod_mod(y, dm, pow2(e) as int);
    lemma_small_mod(y as nat, big as nat);
    assert(x % dm == y % dm);
    lemma_mod_mod(x, d, m);
    lemma_mod_mod(y, d, m);
    lemma_mod_breakdown(x, d, m);
    lemma_mod_breakdown(y, d, m);
    let a = (x / d) % m;
    let b = (y / d) % m;
    assert(d * a == d * b);
    assert(a == b) by (nonlinear_arith)
        requires
            d * a == d * b,
            d > 0,
    ;
}

/// OR-ing a word above the bits held adds it; OR-ing bits already held changes nothing.
proof fn lemma_or_word(held: u32, word: u32, shift: u32)
    requires
        shift < 16,
        word < 0x10000,
        held < pow2(shift as nat),
    ensures
        (word << shift) == word * pow2(shift as nat),
        held | (word << shift) == held + word * pow2(shift as nat),
        (held + word * pow2(shift as nat)) < 0x1_0000_0000,
        ((held + (word << shift)) as u32) | (word << shift) == held + word * pow2(shift as nat),
{
    lemma2_to64();
    lemma_pow2_strictly_increases(shift as nat, 16);
    assert(word * pow2(shift as nat) <= 0xffff * 0x10000) by (nonlinear_arith)
        requires
            word < 0x10000,
            pow2(shift as nat) < 0x10000,
    ;
    lemma_u32_shl_is_mul(word, shift);
    lemma_u32_shl_is_mul(1, shift);
    assert(held < (1u32 << shift));
    assert(held | (word << shift) == held + (word << shift)) by (bit_vector)
        requires
            shift < 16,
            word < 0x10000,
            held < (1u32 << shift),
    ;
    assert(((held + (word << shift)) as u32) | (word << shift) == held + (word << shift))
        by (bit_vector)
        requires
            shift < 16,
            word < 0x10000,
            held < (1u32 << shift),
    ;
}

/// Decoded content of one frame.
#[derive(Default, PartialEq, Debug)]
pub struct Data {
    /// Sixteen 11-bit channel values (0 to 2047).
    pub channels: [u16; 16],
    /// Digital channel 17: bit 7 of the flag byte.
    pub channel17: bool,
    /// Digital channel 18: bit 6 of the flag byte.
    pub channel18: bool,
    /// Frame lost: bit 5 of the flag byte.
    pub frame_lost: bool,
    /// Failsafe active: bit 4 of the flag byte.
    pub failsafe: bool,
}

impl Data {
    /// `self` is what the 25 bytes `frame` decode to.
    pub open spec fn decodes(self, frame: Seq<u8>) -> bool {
        &&& forall|i: int| 0 <= i < 16 ==> #[trigger] self.channels@[i] as int == channel_value(frame, i)
        &&& self.channel17 == flag_bit(frame[23], 7)
        &&& self.channel18 == flag_bit(frame[23], 6)
        &&& self.frame_lost == flag_bit(frame[23], 5)
        &&& self.failsafe == flag_bit(frame[23], 4)
    }
}

/// One frame of 25 bytes, read field by field.
pub struct Packet {
    frame: [u8; 25],
}

impl View for Packet {
    type V = Seq<u8>;

    closed spec fn view(&self) -> Seq<u8> {
        self.frame@
    }
}

impl Packet {
    /// Wraps the 25 bytes of a frame; markers are not checked here.
    pub fn new(frame: [u8; 25]) -> (r: Packet)
        ensures
            r@ == frame@,
    {
        Packet { frame }
    }

    /// The bytes of the frame.
    pub fn bytes(&self) -> (r: [u8; 25])
        ensures
            r@ == self@,
    {
        self.frame
    }

    pub fn header(&self) -> (r: u8)
        ensures
            r == self@[0],
    {
        self.frame[0]
    }

    pub fn footer(&self) -> (r: u8)
        ensures
            r == self@[24],
    {
        self.frame[24]
    }

    /// The byte that carries channels 17 and 18 and the link flags.
    pub fn digital_and_flags(&self) -> (r: u8)
        ensures
            r == self@[23],
    {
        self.frame[23]
    }

    /// Little-endian word `n` of the channel area.
    pub fn channel_word(&self, n: usize) -> (r: u16)
        requires
            n < 11,
        ensures
            r as int == word_value(self@, n as int),
    {
        let lo = self.frame[1 + 2 * n];
        let hi = self.frame[2 + 2 * n];
        assert((lo as u16) | ((hi as u16) << 8u16) == lo + 256 * hi) by (bit_vector);
        (lo as u16) | ((hi as u16) << 8u16)
    }

    /// Both markers are in place: the start marker first and an end marker last.
    pub fn is_valid(&self) -> (r: bool)
        ensures
            r == is_frame(self@),
    {
        self.header() == SBUS_PACKET_BEGIN && is_sbus_packet_end(self.footer())
    }

    /// Unpacks the channels and flags; the markers are not looked at.
    pub fn parse(&self) -> (r: Data)
        ensures
            r.decodes(self@),
    {
        let mut channels = [0u16; 16];
        let mut bits: u32 = 0;
        let mut i: usize = 0;
        proof {
            lemma2_to64();
        }
        while i < 16
            invariant
                0 <= i <= 16,
                self@.len() == SBUS_PACKET_SIZE,
                i < 16 ==> bits as int == words_value(self@, words_loaded(i as int)) / (pow2(
                    11 * i as nat,
                ) as int),
                forall|j: int| 0 <= j < i ==> #[trigger] channels@[j] as int == channel_value(self@, j),
            decreases 16 - i,
        {
            proof {
                lemma_tables(i as int);
            }
            let word = self.channel_word(INDEX[i] as usize) as u32;
            let shift = SHIFT[i] as u32;
            let ghost held = bits;
            bits = bits | (word << shift);
            let ghost loaded = words_loaded(i as int);
            let ghost next = (INDEX@[i as int] + 1) as nat;
            proof {
                lemma_pow2_pos(11 * i as nat);
                if i == 15 {
                    lemma_words_bound(self@, 11);
                    lemma_pow2_adds(165, 11);
                    lemma2_to64();
                    let v = words_value(self@, 11);
                    let d = pow2(165) as int;
                    assert(held < 2048) by (nonlinear_arith)
                        requires
                            held == v / d,
                            v < d * 2048,
                            d > 0,
                            0 <= v,
                    ;
                    assert(((held | (word << 11u32)) as u16) & 0x7ff == held) by (bit_vector)
                        requires
                            held < 2048,
                    ;
                    lemma_small_mod(held as nat, 2048);
                    assert(channel_value(self@, 15) == held as int);
                } else {
                    if INDEX@[i as int] == loaded {
                        lemma_load_word(self@, loaded, i as nat);
                        lemma_or_word(held, word, shift);
                    } else {
                        lemma_load_word(self@, (next - 1) as nat, i as nat);
                        let q = words_value(self@, (next - 1) as nat) / (pow2(11 * i as nat) as int);
                        lemma_words_bound(self@, (next - 1) as nat);
                        lemma_div_pos_is_pos(words_value(self@, (next - 1) as nat), pow2(11 * i as nat) as int);
                        lemma_pow2_strictly_increases(shift as nat, 16);
                        lemma2_to64();
                        lemma_or_word(q as u32, word, shift);
                    }
                    assert(bits as int == words_value(self@, next) / (pow2(11 * i as nat) as int));
                    lemma_channel_from_prefix(self@, next, i as nat);
                    assert((bits as u16) & 0x7ff == bits % 2048) by (bit_vector);
                }
            }
            channels[i] = (#[verifier::truncate] (bits as u16)) & 0x7ff;
            proof {
                if i < 15 {
                    lemma_u32_shr_is_div(bits, 11);
                    lemma_pow2_pos(11);
                    lemma_pow2_pos(11 * i as nat);
                    lemma_words_bound(self@, next);
                    lemma_div_denominator(
                        words_value(self@, next),
                        pow2(11 * i as nat) as int,
                        pow2(11) as int,
                    );
                    lemma_pow2_adds(11 * i as nat, 11);
                    assert(11 * (i + 1) as nat == 11 * i as nat + 11);
                    assert(words_loaded(i + 1) == next);
                }
            }
            bits = bits >> 11u32;
            i += 1;
        }
        let flags = self.frame[23];
        Data {
            channels,
            channel17: flag(flags, 7),
            channel18: flag(flags, 6),
            frame_lost: flag(flags, 5),
            failsafe: flag(flags, 4),
        }
    }

    /// Decodes the frame when both markers are in place, and gives `None` otherwise.
    pub fn try_parse(&self) -> (r: Option<Data>)
        ensures
            r.is_some() == is_frame(self@),
            r.is_some() ==> r.unwrap().decodes(self@),
    {
        if self.is_valid() {
            Some(self.parse())
        } else {
            None
        }
    }
}

fn flag(byte: u8, bit: u8) -> (r: bool)
    requires
        bit < 8,
    ensures
        r == flag_bit(byte, bit),
{
    assert(byte & (1u8 << bit) != 0 <==> (byte >> bit) & 1 == 1) by (bit_vector)
        requires
            bit < 8,
    ;
    byte & (1u8 << bit) != 0
}

} // verus!
