//! Static cluster topology: which hash slot a key falls into, and which node
//! of a fixed list owns a slot.

use vstd::arithmetic::div_mod::{
    lemma_div_is_ordered, lemma_fundamental_div_mod, lemma_multiply_divide_lt,
};
use vstd::arithmetic::mul::lemma_mul_inequality;
use vstd::prelude::*;

verus! {

/// Number of hash slots that the keyspace is divided into.
pub const SLOT_COUNT: u16 = 16384;

/// Multiplies the polynomial `r` (over GF(2), degree below 16) by `x`, modulo
/// `x^16 + x^12 + x^5 + 1`.
pub open spec fn times_x(r: u16) -> u16 {
    if r & 0x8000 != 0 {
        (r << 1) ^ 0x1021
    } else {
        r << 1
    }
}

/// `times_x`, `n` times over.
pub open spec fn times_x_pow(r: u16, n: nat) -> u16
    decreases n,
{
    if n == 0 {
        r
    } else {
        times_x(times_x_pow(r, (n - 1) as nat))
    }
}

/// One step of the long division of a bit string by the CRC polynomial: the
/// remainder `r` of the bits so far becomes the remainder with `bit` appended.
pub open spec fn append_bit(r: u16, bit: bool) -> u16 {
    times_x(r) ^ (if bit {
        1u16
    } else {
        0u16
    })
}

/// Bit `i` of `b`, counted from the most significant.
pub open spec fn bit_of(b: u8, i: int) -> bool {
    (b >> ((7 - i) as u8)) & 1 == 1
}

/// Remainder after the first `n` bits of `b`, most significant first.
pub open spec fn append_bits(r: u16, b: u8, n: nat) -> u16
    decreases n,
{
    if n == 0 {
        r
    } else {
        append_bit(append_bits(r, b, (n - 1) as nat), bit_of(b, n - 1))
    }
}

/// The bits of `data`, read as a polynomial, modulo the CRC polynomial.
pub open spec fn remainder(data: Seq<u8>) -> u16
    decreases data.len(),
{
    if data.len() == 0 {
        0
    } else {
        append_bits(remainder(data.drop_last()), data.last(), 8)
    }
}

/// CRC16/XMODEM: the remainder of `data` shifted left by 16 bits, divided by
/// `x^16 + x^12 + x^5 + 1`, with no initial value, reflection or final xor.
pub open spec fn crc16_spec(data: Seq<u8>) -> u16 {
    times_x_pow(remainder(data), 16)
}

/// Slot of `key`: its checksum modulo the number of slots.
pub open spec fn slot_spec(key: Seq<u8>) -> u16 {
    (crc16_spec(key) % SLOT_COUNT) as u16
}

proof fn lemma_times_x_linear(a: u16, b: u16)
    ensures
        times_x(a ^ b) == times_x(a) ^ times_x(b),
{
    assert((if (a ^ b) & 0x8000 != 0 {
        ((a ^ b) << 1) ^ 0x1021
    } else {
        (a ^ b) << 1
    }) == (if a & 0x8000 != 0 {
        (a << 1) ^ 0x1021
    } else {
        a << 1
    }) ^ (if b & 0x8000 != 0 {
        (b << 1) ^ 0x1021
    } else {
        b << 1
    })) by (bit_vector);
}

proof fn lemma_times_x_pow_linear(a: u16, b: u16, n: nat)
    ensures
        times_x_pow(a ^ b, n) == times_x_pow(a, n) ^ times_x_pow(b, n),
    decreases n,
{
    if n > 0 {
        lemma_times_x_pow_linear(a, b, (n - 1) as nat);
        lemma_times_x_linear(times_x_pow(a, (n - 1) as nat), times_x_pow(b, (n - 1) as nat));
    }
}

proof fn lemma_times_x_pow_add(a: u16, m: nat, n: nat)
    ensures
        times_x_pow(times_x_pow(a, m), n) == times_x_pow(a, m + n),
    decreases n,
{
    if n > 0 {
        lemma_times_x_pow_add(a, m, (n - 1) as nat);
    }
}

/// Appending the eight bits of a byte multiplies by `x^8` and adds the byte.
proof fn lemma_append_byte(r: u16, b: u8)
    ensures
        append_bits(r, b, 8) == times_x_pow(r, 8) ^ (b as u16),
{
    assert forall|n: nat| n <= 8 implies #[trigger] append_bits(r, b, n) == times_x_pow(r, n) ^ ((b
        >> ((8 - n) as u8)) as u16) by {
        lemma_append_bits(r, b, n);
    }
    assert(append_bits(r, b, 8) == times_x_pow(r, 8) ^ ((b >> 0u8) as u16));
    assert(b >> 0u8 == b) by (bit_vector);
}

proof fn lemma_append_bits(r: u16, b: u8, n: nat)
    requires
        n <= 8,
    ensures
        append_bits(r, b, n) == times_x_pow(r, n) ^ ((b >> ((8 - n) as u8)) as u16),
    decreases n,
{
    if n == 0 {
        assert(r ^ ((b >> 8u8) as u16) == r) by (bit_vector);
    } else {
        let m = (n - 1) as nat;
        lemma_append_bits(r, b, m);
        let t = times_x_pow(r, m);
        let high = (b >> ((8 - m) as u8)) as u16;
        lemma_times_x_linear(t, high);
        let k = (8 - m) as u8;
        assert(1 <= k <= 8);
        let k1 = (8 - n) as u8;
        assert(k1 == k - 1);
        let one = if bit_of(b, n - 1) {
            1u16
        } else {
            0u16
        };
        assert((7 - (n - 1)) as u8 == k1);
        assert(one == ((b >> k1) & 1) as u16) by {
            assert((b >> k1) & 1 == 0 || (b >> k1) & 1 == 1) by (bit_vector);
        }
        assert((if ((b >> k) as u16) & 0x8000 != 0 {
            (((b >> k) as u16) << 1) ^ 0x1021
        } else {
            ((b >> k) as u16) << 1
        }) ^ (((b >> k1) & 1) as u16) == (b >> k1) as u16) by (bit_vector)
            requires
                1 <= k <= 8,
                k1 == k - 1,
        ;
        let tx = times_x(t);
        let th = times_x(high);
        assert((tx ^ th) ^ one == tx ^ (th ^ one)) by (bit_vector);
    }
}

/// A byte times `x^8` is the byte in the upper half: nothing is reduced.
proof fn lemma_byte_times_x8(b: u8)
    ensures
        times_x_pow(b as u16, 8) == (b as u16) << 8,
{
    let c = b as u16;
    assert forall|n: nat| n <= 8 implies #[trigger] times_x_pow(c, n) == c << (n as u16) by {
        lemma_byte_times_x_pow(b, n);
    }
    assert(times_x_pow(c, 8) == c << 8u16);
}

proof fn lemma_byte_times_x_pow(b: u8, n: nat)
    requires
        n <= 8,
    ensures
        times_x_pow(b as u16, n) == (b as u16) << (n as u16),
    decreases n,
{
    let c = b as u16;
    if n == 0 {
        assert(c << 0u16 == c) by (bit_vector);
    } else {
        let m = (n - 1) as nat;
        lemma_byte_times_x_pow(b, m);
        let k = m as u16;
        let k1 = n as u16;
        assert((if (((b as u16) << k) & 0x8000) != 0 {
            (((b as u16) << k) << 1) ^ 0x1021
        } else {
            ((b as u16) << k) << 1
        }) == ((b as u16) << k1)) by (bit_vector)
            requires
                k < 8,
                k1 == k + 1,
        ;
    }
}

/// The checksum of `data + [b]` from the checksum of `data`.
proof fn lemma_crc16_push(data: Seq<u8>, b: u8)
    ensures
        crc16_spec(data.push(b)) == times_x_pow(crc16_spec(data) ^ ((b as u16) << 8), 8),
{
    let r = remainder(data);
    assert(data.push(b).drop_last() =~= data);
    lemma_append_byte(r, b);
    lemma_times_x_pow_linear(times_x_pow(r, 8), b as u16, 16);
    lemma_times_x_pow_add(r, 8, 16);
    lemma_times_x_pow_add(r, 16, 8);
    lemma_times_x_pow_add(b as u16, 8, 8);
    lemma_byte_times_x8(b);
    lemma_times_x_pow_linear(times_x_pow(r, 16), (b as u16) << 8, 8);
}

/// CRC16/XMODEM of `data`, the checksum that cluster-aware clients use to map
/// keys to slots. The whole key is hashed: there are no hash tags.
pub fn crc16(data: &[u8]) -> (crc: u16)
    ensures
        crc == crc16_spec(data@),
{
    let mut crc: u16 = 0;
    let mut i: usize = 0;
    assert(data@.take(0) =~= Seq::<u8>::empty());
    assert(crc16_spec(Seq::<u8>::empty()) == 0) by {
        assert(times_x(0) == 0) by {
            assert((if 0u16 & 0x8000 != 0 {
                (0u16 << 1) ^ 0x1021
            } else {
                0u16 << 1
            }) == 0) by (bit_vector);
        }
        reveal_with_fuel(times_x_pow, 17);
    }
    while i < data.len()
        invariant
            i <= data.len(),
            crc == crc16_spec(data@.take(i as int)),
        decreases data.len() - i,
    {
        let byte = data[i];
        crc = crc ^ ((byte as u16) << 8);
        let ghost start = crc;
        let mut k: u8 = 0;
        while k < 8
            invariant
                k <= 8,
                crc == times_x_pow(start, k as nat),
            decreases 8 - k,
        {
            if crc & 0x8000 != 0 {
                crc = (crc << 1) ^ 0x1021;
            } else {
                crc = crc << 1;
            }
            k = k + 1;
        }
        proof {
            lemma_crc16_push(data@.take(i as int), byte);
            assert(data@.take(i as int).push(byte) =~= data@.take(i + 1));
        }
        i = i + 1;
    }
    assert(data@.take(data@.len() as int) =~= data@);
    crc
}

/// A checksum makes up for what it sums up: data with its own checksum behind it
/// has the checksum 0, whatever the data.
pub proof fn law_checksum_completes_the_data(data: Seq<u8>)
    ensures
        ({
            let crc = crc16_spec(data);
            let high = (crc / 256) as u8;
            let low = (crc % 256) as u8;
            crc16_spec(data.push(high).push(low)) == 0
        }),
{
    let crc = crc16_spec(data);
    let high = (crc / 256) as u8;
    let low = (crc % 256) as u8;
    lemma_crc16_push(data, high);
    lemma_crc16_push(data.push(high), low);
    assert(crc ^ ((high as u16) << 8) == low as u16) by (bit_vector)
        requires
            high == (crc / 256) as u8,
            low == (crc % 256) as u8,
    ;
    lemma_byte_times_x8(low);
    assert(((low as u16) << 8) ^ ((low as u16) << 8) == 0) by (bit_vector);
    assert(times_x(0) == 0) by {
        assert((if 0u16 & 0x8000 != 0 {
            (0u16 << 1) ^ 0x1021
        } else {
            0u16 << 1
        }) == 0) by (bit_vector);
    }
    reveal_with_fuel(times_x_pow, 9);
}

/// One bit more or less in the last byte changes the checksum by the polynomial
/// `x^16 + x^12 + x^5 + 1`, where that bit is the lowest.
pub proof fn law_checksum_of_the_lowest_bit(data: Seq<u8>, even: u8)
    requires
        even % 2 == 0,
    ensures
        crc16_spec(data.push((even + 1) as u8)) == crc16_spec(data.push(even)) ^ 0x1021,
{
    let r = crc16_spec(data);
    let odd = (even + 1) as u8;
    lemma_crc16_push(data, even);
    lemma_crc16_push(data, odd);
    assert(r ^ ((odd as u16) << 8) == (r ^ ((even as u16) << 8)) ^ 0x100) by (bit_vector)
        requires
            even % 2 == 0,
            odd == even + 1,
    ;
    lemma_times_x_pow_linear(r ^ ((even as u16) << 8), 0x100, 8);
    lemma_lowest_bit();
}

proof fn lemma_lowest_bit()
    ensures
        times_x_pow(0x100, 8) == 0x1021,
{
    assert forall|n: nat| n <= 7 implies #[trigger] times_x_pow(0x100, n) == 0x100u16 << (
    n as u16) by {
        lemma_shifted_bit(n);
    }
    assert(times_x_pow(0x100, 7) == 0x100u16 << 7u16);
    assert(0x100u16 << 7u16 == 0x8000) by (bit_vector);
    assert((0x8000u16 << 1) ^ 0x1021 == 0x1021 && 0x8000u16 & 0x8000 != 0) by (bit_vector);
    assert(times_x_pow(0x100, 8) == times_x(times_x_pow(0x100, 7)));
}

proof fn lemma_shifted_bit(n: nat)
    requires
        n <= 7,
    ensures
        times_x_pow(0x100, n) == 0x100u16 << (n as u16),
    decreases n,
{
    if n == 0 {
        assert(0x100u16 << 0u16 == 0x100) by (bit_vector);
    } else {
        lemma_shifted_bit((n - 1) as nat);
        let k = (n - 1) as u16;
        let k1 = n as u16;
        assert((0x100u16 << k) & 0x8000 == 0 && (0x100u16 << k) << 1 == 0x100u16 << k1)
            by (bit_vector)
            requires
                k < 7,
                k1 == k + 1,
        ;
    }
}

/// The slot of a key is the checksum of all its bytes modulo 16384.
pub proof fn law_slot_is_the_checksum(key: Seq<u8>)
    ensures
        slot_spec(key) as int == crc16_spec(key) as int % 16384,
        slot_spec(key) < 16384,
{
}

/// Hash slot of `key`.
pub fn slot_for(key: &[u8]) -> (slot: u16)
    ensures
        slot == slot_spec(key@),
        slot < SLOT_COUNT,
{
    crc16(key) % SLOT_COUNT
}

/// Position of the node that owns `slot` when `n` nodes share the slot space.
pub open spec fn owner_spec(slot: int, n: int) -> int {
    slot * n / SLOT_COUNT as int
}

/// The first slot of node `i` when `n` nodes share the slot space: `i` times the
/// number of slots, divided by `n` and rounded up.
pub open spec fn first_slot(i: int, n: int) -> int {
    (i * SLOT_COUNT + n - 1) / n
}

/// The slots of node `i` when `n` nodes share the slot space, as inclusive
/// ranges.
pub open spec fn ranges_of(i: int, n: int) -> Seq<(u16, u16)> {
    if i < n && first_slot(i, n) < first_slot(i + 1, n) {
        seq![(first_slot(i, n) as u16, (first_slot(i + 1, n) - 1) as u16)]
    } else {
        Seq::empty()
    }
}

/// A fixed list of nodes, in an order that all of them share, and which of
/// them this process is. Slots are split as evenly as possible across the
/// nodes in list order.
#[derive(Debug, Clone)]
pub struct ClusterConfig {
    nodes: Vec<(String, u16)>,
    self_index: usize,
}

impl ClusterConfig {
    /// Host and port of every node, in list order.
    pub closed spec fn node_list(&self) -> Seq<(String, u16)> {
        self.nodes@
    }

    /// Position of this process in the node list.
    pub closed spec fn own_index(&self) -> usize {
        self.self_index
    }

    /// Position of the owner of `slot`.
    pub open spec fn owner(&self, slot: int) -> int {
        owner_spec(slot, self.node_list().len() as int)
    }

    /// A configuration of `nodes`, of which this process is `self_index`.
    pub fn new(nodes: Vec<(String, u16)>, self_index: usize) -> (config: Self)
        ensures
            config.node_list() == nodes@,
            config.own_index() == self_index,
    {
        Self { nodes, self_index }
    }

    /// Host and port of every node, in list order.
    pub fn nodes(&self) -> (nodes: &[(String, u16)])
        ensures
            nodes@ == self.node_list(),
    {
        self.nodes.as_slice()
    }

    /// Index of the node that owns `slot`, splitting the slot space as evenly
    /// as possible across nodes in list order.
    pub fn owner_index(&self, slot: u16) -> (index: usize)
        ensures
            index == self.owner(slot as int) as usize,
            slot < SLOT_COUNT && self.node_list().len() > 0 ==> index == self.owner(slot as int)
                && index < self.node_list().len(),
    {
        let n: u128 = self.nodes.len() as u128;
        proof {
            lemma_mul_inequality(slot as int, 0xffff, n as int);
            if slot < SLOT_COUNT && n > 0 {
                lemma_owner_in_range(slot as int, n as int);
            }
        }
        (slot as u128 * n / SLOT_COUNT as u128) as usize
    }

    /// Whether this process owns `slot`.
    pub fn owns(&self, slot: u16) -> (owned: bool)
        ensures
            owned == (self.owner(slot as int) as usize == self.own_index()),
            slot < SLOT_COUNT && self.node_list().len() > 0 ==> owned == (self.owner(slot as int)
                == self.own_index()),
    {
        self.owner_index(slot) == self.self_index
    }

    /// Host and port of the node that owns `slot`.
    pub fn owner_addr(&self, slot: u16) -> (addr: &(String, u16))
        requires
            slot < SLOT_COUNT,
            self.node_list().len() > 0,
        ensures
            *addr == self.node_list()[self.owner(slot as int)],
    {
        proof {
            lemma_owner_in_range(slot as int, self.nodes.len() as int);
        }
        &self.nodes[self.owner_index(slot)]
    }

    /// The slots that node `index` owns, as inclusive ranges. Ownership never
    /// decreases along the slots, so there is at most one range.
    pub fn slot_ranges_for_index(&self, index: usize) -> (ranges: Vec<(u16, u16)>)
        ensures
            self.node_list().len() > 0 ==> ranges@ == ranges_of(
                index as int,
                self.node_list().len() as int,
            ),
            ranges@.len() <= 1,
            ranges@.len() == 0 <==> forall|slot: int|
                0 <= slot < SLOT_COUNT ==> #[trigger] self.owner(slot) != index,
            ranges@.len() == 1 ==> ranges@[0].0 <= ranges@[0].1 < SLOT_COUNT && (forall|slot: int|
                0 <= slot < SLOT_COUNT ==> (#[trigger] self.owner(slot) == index <==> ranges@[0].0
                    <= slot <= ranges@[0].1)),
    {
        let mut ranges: Vec<(u16, u16)> = Vec::new();
        let mut start: Option<u16> = None;
        let mut end: u16 = 0;
        let mut slot: u16 = 0;
        while slot < SLOT_COUNT
            invariant
                slot <= SLOT_COUNT,
                ranges@.len() <= 1,
                start is None && ranges@.len() == 0 ==> forall|s: int|
                    0 <= s < slot ==> #[trigger] self.owner(s) != index,
                start is Some ==> ranges@.len() == 0 && start->0 <= end && end + 1 == slot && (
                forall|s: int|
                    0 <= s < slot ==> (#[trigger] self.owner(s) == index <==> start->0 <= s
                        <= end)),
                ranges@.len() == 1 ==> start is None && ranges@[0].0 <= ranges@[0].1 < slot && (
                forall|s: int|
                    0 <= s < slot ==> (#[trigger] self.owner(s) == index <==> ranges@[0].0 <= s
                        <= ranges@[0].1)) && self.owner(slot - 1) > index,
            decreases SLOT_COUNT - slot,
        {
            proof {
                lemma_owner_le(slot as int, self.nodes.len() as int);
                if slot > 0 {
                    lemma_owner_monotone(slot - 1, slot as int, self.nodes.len() as int);
                    assert(self.owner(slot - 1) <= self.owner(slot as int));
                }
            }
            if self.owner_index(slot) == index {
                if start.is_none() {
                    start = Some(slot);
                }
                end = slot;
            } else if let Some(s) = start {
                ranges.push((s, end));
                start = None;
            }
            slot = slot + 1;
        }
        if let Some(s) = start {
            ranges.push((s, end));
        }
        proof {
            if ranges@.len() == 1 {
                assert(self.owner(ranges@[0].0 as int) == index);
            }
            if self.nodes.len() > 0 {
                lemma_ranges(*self, index as int, ranges@);
            }
        }
        ranges
    }
}

/// What holds of the slots of a node fixes the ranges.
proof fn lemma_ranges(config: ClusterConfig, i: int, ranges: Seq<(u16, u16)>)
    requires
        0 < config.node_list().len(),
        0 <= i,
        ranges.len() <= 1,
        ranges.len() == 0 <==> forall|slot: int|
            0 <= slot < SLOT_COUNT ==> #[trigger] config.owner(slot) != i,
        ranges.len() == 1 ==> ranges[0].0 <= ranges[0].1 < SLOT_COUNT && (forall|slot: int|
            0 <= slot < SLOT_COUNT ==> (#[trigger] config.owner(slot) == i <==> ranges[0].0 <= slot
                <= ranges[0].1)),
    ensures
        ranges == ranges_of(i, config.node_list().len() as int),
{
    let n = config.node_list().len() as int;
    if i >= n {
        assert forall|slot: int| 0 <= slot < SLOT_COUNT implies #[trigger] config.owner(slot)
            != i by {
            lemma_owner_in_range(slot, n);
        }
        assert(ranges =~= ranges_of(i, n));
    } else {
        let a = first_slot(i, n);
        let b = first_slot(i + 1, n);
        assert forall|slot: int| 0 <= slot < SLOT_COUNT implies (#[trigger] config.owner(slot) == i
            <==> a <= slot < b) by {
            law_slots_are_partitioned(slot, i, n);
        }
        lemma_first_slot_bounds(i, n);
        lemma_first_slot_bounds(i + 1, n);
        if a < b {
            assert(config.owner(a) == i);
            assert(config.owner(b - 1) == i);
            assert(ranges.len() == 1);
            assert(config.owner(ranges[0].0 as int) == i);
            assert(config.owner(ranges[0].1 as int) == i);
            assert(ranges =~= ranges_of(i, n));
        } else {
            assert forall|slot: int| 0 <= slot < SLOT_COUNT implies #[trigger] config.owner(slot)
                != i by {}
            assert(ranges =~= ranges_of(i, n));
        }
    }
}

/// A quotient rounded up is at most `s` if and only if the dividend is at most
/// `s` times the divisor.
proof fn lemma_div_up(a: int, n: int, s: int)
    requires
        0 < n,
    ensures
        (a + n - 1) / n <= s <==> a <= s * n,
{
    let q = (a + n - 1) / n;
    lemma_fundamental_div_mod(a + n - 1, n);
    let r = (a + n - 1) % n;
    assert(a + n - 1 == n * q + r && 0 <= r < n);
    if q <= s {
        assert(n * q <= s * n) by (nonlinear_arith)
            requires
                q <= s,
                0 < n,
        ;
    } else {
        assert(n * q >= s * n + n) by (nonlinear_arith)
            requires
                q >= s + 1,
                0 < n,
        ;
    }
}

pub(crate) proof fn lemma_first_slot_bounds(i: int, n: int)
    requires
        0 <= i <= n,
        0 < n,
    ensures
        0 <= first_slot(i, n) <= SLOT_COUNT,
{
    lemma_div_up(i * SLOT_COUNT, n, SLOT_COUNT as int);
    assert(i * SLOT_COUNT <= SLOT_COUNT * n) by (nonlinear_arith)
        requires
            i <= n,
    ;
    lemma_div_up(i * SLOT_COUNT, n, -1);
    assert(!(i * SLOT_COUNT <= -1 * n)) by (nonlinear_arith)
        requires
            0 <= i,
            0 < n,
    ;
}

/// The slots are partitioned among the nodes: node `i` owns exactly those from
/// its first slot up to the first slot of the next node.
pub proof fn law_slots_are_partitioned(slot: int, i: int, n: int)
    requires
        0 <= slot < SLOT_COUNT,
        0 <= i < n,
    ensures
        owner_spec(slot, n) == i <==> first_slot(i, n) <= slot < first_slot(i + 1, n),
        first_slot(0, n) == 0,
        first_slot(n, n) == SLOT_COUNT,
{
    lemma_div_up(i * SLOT_COUNT, n, slot);
    lemma_div_up((i + 1) * SLOT_COUNT, n, slot);
    lemma_first_slot_bounds(0, n);
    lemma_div_up(0, n, 0);
    lemma_first_slot_bounds(n, n);
    lemma_div_up(n * SLOT_COUNT, n, SLOT_COUNT - 1);
    assert(!(n * SLOT_COUNT <= (SLOT_COUNT - 1) * n)) by (nonlinear_arith)
        requires
            0 < n,
    ;
}

/// The owner of a slot stands in the node list where the slot stands among all
/// slots.
pub proof fn law_owner_is_proportional(slot: int, n: int)
    requires
        0 <= slot < 16384,
        0 < n,
    ensures
        0 <= owner_spec(slot, n) < n,
        owner_spec(slot, n) * 16384 <= slot * n < (owner_spec(slot, n) + 1) * 16384,
{
    lemma_owner_in_range(slot, n);
    lemma_fundamental_div_mod(slot * n, 16384);
}

/// The slots are split as evenly as possible: every node owns a number of slots
/// that is the quotient of slots and nodes, rounded down or up.
pub proof fn law_slots_are_split_evenly(i: int, n: int)
    requires
        0 <= i < n,
    ensures
        SLOT_COUNT as int / n <= first_slot(i + 1, n) - first_slot(i, n),
        first_slot(i + 1, n) - first_slot(i, n) <= (SLOT_COUNT + n - 1) / n,
{
    let a = i * SLOT_COUNT;
    let q1 = first_slot(i, n);
    let q2 = first_slot(i + 1, n);
    let down = SLOT_COUNT as int / n;
    let up = (SLOT_COUNT + n - 1) / n;
    assert((i + 1) * SLOT_COUNT == a + SLOT_COUNT) by (nonlinear_arith)
        requires
            a == i * SLOT_COUNT,
    ;
    lemma_div_up(a, n, q1);
    lemma_div_up(SLOT_COUNT as int, n, up);
    lemma_div_up(a + SLOT_COUNT, n, q1 + up);
    assert(q1 * n + up * n == (q1 + up) * n) by (nonlinear_arith);
    lemma_div_up(a + SLOT_COUNT, n, q2);
    lemma_fundamental_div_mod(SLOT_COUNT as int, n);
    lemma_div_up(a, n, q2 - down);
    assert(q2 * n - n * down == (q2 - down) * n) by (nonlinear_arith);
}

proof fn lemma_owner_le(slot: int, n: int)
    requires
        0 <= slot < SLOT_COUNT,
        0 <= n,
    ensures
        0 <= owner_spec(slot, n) <= n,
{
    lemma_mul_inequality(slot, SLOT_COUNT as int, n);
    lemma_div_is_ordered(slot * n, SLOT_COUNT * n, SLOT_COUNT as int);
    lemma_div_is_ordered(0, slot * n, SLOT_COUNT as int);
    lemma_mul_inequality(0, slot, n);
    assert(SLOT_COUNT * n / SLOT_COUNT as int == n) by (nonlinear_arith);
}

/// Every slot has an owner in the node list.
pub proof fn lemma_owner_in_range(slot: int, n: int)
    requires
        0 <= slot < SLOT_COUNT,
        0 < n,
    ensures
        0 <= owner_spec(slot, n) < n,
{
    lemma_owner_le(slot, n);
    assert(slot * n < SLOT_COUNT * n) by (nonlinear_arith)
        requires
            slot < SLOT_COUNT,
            0 < n,
    ;
    lemma_multiply_divide_lt(slot * n, SLOT_COUNT as int, n);
}

/// Ownership never decreases along the slots.
pub proof fn lemma_owner_monotone(a: int, b: int, n: int)
    requires
        a <= b,
        0 <= n,
    ensures
        owner_spec(a, n) <= owner_spec(b, n),
{
    lemma_mul_inequality(a, b, n);
    lemma_div_is_ordered(a * n, b * n, SLOT_COUNT as int);
}

} // verus!
