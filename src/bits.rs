use vstd::prelude::*;

verus! {

/// The number held by a sequence of bits, least significant bit first.
pub open spec fn bits_value(s: Seq<bool>) -> u64
    decreases s.len(),
{
    if s.len() == 0 {
        0
    } else {
        bits_value(s.drop_last()) | (if s.last() {
            1u64 << ((s.len() - 1) as u64)
        } else {
            0u64
        })
    }
}

/// The `n` low bits of `v`, least significant bit first.
pub open spec fn low_bits(v: u64, n: nat) -> Seq<bool> {
    Seq::new(n, |i: int| (v >> (i as u64)) & 1 == 1)
}

/// Bit `j` of a byte, counting from the least significant bit.
pub open spec fn byte_bit(b: u8, j: int) -> bool {
    (b >> (j as u8)) & 1 == 1
}

/// The bits of a byte sequence, each byte least significant bit first.
pub open spec fn unpack(d: Seq<u8>) -> Seq<bool> {
    Seq::new(d.len() * 8, |i: int| byte_bit(d[i / 8], i % 8))
}

/// The `j`-th group of eight bits of `bits` (the last group may be shorter).
pub open spec fn byte_group(bits: Seq<bool>, j: int) -> Seq<bool> {
    if 8 * j + 8 <= bits.len() {
        bits.subrange(8 * j, 8 * j + 8)
    } else {
        bits.subrange(8 * j, bits.len() as int)
    }
}

/// The bytes that hold `bits`, eight to a byte, least significant bit first;
/// the unused bits of the last byte are zero.
pub open spec fn pack(bits: Seq<bool>) -> Seq<u8> {
    Seq::new(((bits.len() + 7) / 8) as nat, |j: int| bits_value(byte_group(bits, j)) as u8)
}

proof fn lemma_or_bit_bound(v: u64, k: u64)
    requires
        v < (1u64 << k),
        k < 64,
    ensures
        k < 63 ==> (v | (1u64 << k)) < (1u64 << (k + 1)),
        k < 63 ==> v < (1u64 << (k + 1)),
        v | 0u64 == v,
{
    assert((k < 63 ==> (v | (1u64 << k)) < (1u64 << (k + 1))) && (k < 63 ==> v < (1u64 << (k
        + 1))) && v | 0u64 == v) by (bit_vector)
        requires
            v < (1u64 << k),
            k < 64,
    ;
}

/// A sequence of `k` bits holds a number below `2^k`.
pub proof fn lemma_bits_value_bound(s: Seq<bool>)
    requires
        s.len() <= 63,
    ensures
        bits_value(s) < (1u64 << (s.len() as u64)),
    decreases s.len(),
{
    if s.len() == 0 {
        assert((0u64) < (1u64 << 0u64)) by (bit_vector);
    } else {
        let t = s.drop_last();
        let k = t.len() as u64;
        lemma_bits_value_bound(t);
        lemma_or_bit_bound(bits_value(t), k);
        assert(s.len() as u64 == k + 1);
        assert(bits_value(s) == bits_value(t) | (if s.last() { 1u64 << k } else { 0u64 }));
    }
}

proof fn lemma_or_bit_extract(v: u64, k: u64, j: u64)
    requires
        v < (1u64 << k),
        k < 64,
        j <= k,
    ensures
        ((v | (1u64 << k)) >> j) & 1 == (if j == k { 1u64 } else { (v >> j) & 1 }),
        (v >> k) & 1 == 0,
{
    assert(((v | (1u64 << k)) >> j) & 1 == (if j == k { 1u64 } else { (v >> j) & 1 }) && (v >> k)
        & 1 == 0) by (bit_vector)
        requires
            v < (1u64 << k),
            k < 64,
            j <= k,
    ;
}

/// Bit `j` of the number that a bit sequence holds is the sequence's `j`-th bit.
pub proof fn lemma_bits_value_bit(s: Seq<bool>, j: int)
    requires
        s.len() <= 64,
        0 <= j < s.len(),
    ensures
        ((bits_value(s) >> (j as u64)) & 1 == 1) == s[j],
    decreases s.len(),
{
    let t = s.drop_last();
    let k = t.len() as u64;
    lemma_bits_value_bound(t);
    lemma_or_bit_extract(bits_value(t), k, j as u64);
    lemma_or_bit_bound(bits_value(t), k);
    assert(bits_value(s) == bits_value(t) | (if s.last() { 1u64 << k } else { 0u64 }));
    if j < t.len() {
        lemma_bits_value_bit(t, j);
        assert(t[j] == s[j]);
    }
}

proof fn lemma_mask_step(v: u64, k: u64)
    requires
        k < 63,
    ensures
        (v >> k) & 1 == 1 ==> (v & ((1u64 << k) - 1) as u64) | (1u64 << k) == v & ((1u64 << (k + 1)) - 1) as u64,
        (v >> k) & 1 != 1 ==> (v & ((1u64 << k) - 1) as u64) | 0u64 == v & ((1u64 << (k + 1)) - 1) as u64,
{
    assert((v >> k) & 1 == 1 ==> (v & ((1u64 << k) - 1) as u64) | (1u64 << k) == v & ((1u64 << (k + 1)) - 1) as u64) by (bit_vector)
        requires
            k < 63,
    ;
    assert((v >> k) & 1 != 1 ==> (v & ((1u64 << k) - 1) as u64) | 0u64 == v & ((1u64 << (k + 1)) - 1) as u64)
        by (bit_vector)
        requires
            k < 63,
    ;
}

/// Reading back the `n` low bits of `v` gives `v` with its other bits cleared.
pub proof fn lemma_low_bits_value(v: u64, n: nat)
    requires
        n <= 63,
    ensures
        bits_value(low_bits(v, n)) == v & ((1u64 << (n as u64)) - 1) as u64,
    decreases n,
{
    if n == 0 {
        assert(v & ((1u64 << 0u64) - 1) as u64 == 0) by (bit_vector);
    } else {
        let k = (n - 1) as nat;
        lemma_low_bits_value(v, k);
        assert(low_bits(v, n).drop_last() =~= low_bits(v, k));
        lemma_mask_step(v, k as u64);
    }
}

/// Reading back all 64 low bits of `v` gives `v`.
pub proof fn lemma_low_bits_full(v: u64)
    ensures
        bits_value(low_bits(v, 64)) == v,
{
    lemma_low_bits_value(v, 63);
    assert(low_bits(v, 64).drop_last() =~= low_bits(v, 63));
    assert((v >> 63u64) & 1 == 1 ==> (v & ((1u64 << 63u64) - 1) as u64) | (1u64 << 63u64) == v)
        by (bit_vector);
    assert((v >> 63u64) & 1 != 1 ==> (v & ((1u64 << 63u64) - 1) as u64) | 0u64 == v)
        by (bit_vector);
}

/// A number below `2^n` keeps all its bits under the mask of `n` bits.
pub proof fn lemma_mask_keeps(v: u64, n: u64)
    requires
        n < 64,
        v < (1u64 << n),
    ensures
        v & ((1u64 << n) - 1) as u64 == v,
{
    assert(v & ((1u64 << n) - 1) as u64 == v) by (bit_vector)
        requires
            n < 64,
            v < (1u64 << n),
    ;
}

proof fn lemma_byte_cast_bit(x: u64, j: u64)
    requires
        j < 8,
    ensures
        ((x as u8) >> (j as u8)) & 1 == 1 <==> (x >> j) & 1 == 1,
{
    assert(((x as u8) >> (j as u8)) & 1 == 1 <==> (x >> j) & 1 == 1) by (bit_vector)
        requires
            j < 8,
    ;
}

/// Unpacking packed bits gives the bits back, followed by zero padding.
pub proof fn lemma_unpack_pack(bits: Seq<bool>, i: int)
    requires
        0 <= i < pack(bits).len() * 8,
    ensures
        unpack(pack(bits))[i] == (i < bits.len() && bits[i]),
{
    let j = i / 8;
    let g = byte_group(bits, j);
    let x = bits_value(g);
    assert(g.len() <= 8);
    lemma_byte_cast_bit(x, (i % 8) as u64);
    if i % 8 < g.len() {
        lemma_bits_value_bit(g, i % 8);
    } else {
        lemma_bits_value_bound(g);
        let k = g.len() as u64;
        let m = (i % 8) as u64;
        assert(x < (1u64 << k) && k <= m ==> (x >> m) & 1 == 0) by (bit_vector);
    }
}

proof fn lemma_cast_or(v: u64, k: u64)
    requires
        k < 8,
    ensures
        (v | (1u64 << k)) as u8 == (v as u8) | (1u8 << (k as u8)),
        (v | 0u64) as u8 == v as u8,
{
    assert((v | (1u64 << k)) as u8 == (v as u8) | (1u8 << (k as u8)) && (v | 0u64) as u8 == v as u8)
        by (bit_vector)
        requires
            k < 8,
    ;
}

/// Packing one bit more changes only the last byte, or adds a byte.
proof fn lemma_pack_push(s: Seq<bool>, b: bool)
    ensures
        s.len() % 8 == 0 ==> pack(s.push(b)) == pack(s).push(if b { 1u8 } else { 0u8 }),
        s.len() % 8 != 0 ==> pack(s.push(b)) == pack(s).update(
            (s.len() / 8) as int,
            if b {
                pack(s)[(s.len() / 8) as int] | (1u8 << ((s.len() % 8) as u8))
            } else {
                pack(s)[(s.len() / 8) as int]
            },
        ),
{
    let t = s.push(b);
    let last = (s.len() / 8) as int;
    assert forall|j: int| 0 <= j < last implies byte_group(t, j) == byte_group(s, j) by {
        assert(byte_group(t, j) =~= byte_group(s, j));
    }
    let g = byte_group(s, last);
    assert(byte_group(t, last).drop_last() =~= g);
    assert(byte_group(t, last).last() == b);
    let k = g.len() as u64;
    lemma_cast_or(bits_value(g), k);
    if s.len() % 8 == 0 {
        assert(g.len() == 0);
        assert(bits_value(g) == 0);
        assert((0u64 | (1u64 << 0u64)) as u8 == 1u8) by (bit_vector);
        assert((0u64 | 0u64) as u8 == 0u8) by (bit_vector);
        assert(pack(t) =~= pack(s).push(if b { 1u8 } else { 0u8 }));
    } else {
        assert(pack(t) =~= pack(s).update(
            last,
            if b {
                pack(s)[last] | (1u8 << ((s.len() % 8) as u8))
            } else {
                pack(s)[last]
            },
        ));
    }
}

/// Writing and reading are inverse: whatever bits come before and after it,
/// a number below `2^n` written as `n` bits is read back, from the packed
/// bytes, as itself.
pub proof fn lemma_write_read(before: Seq<bool>, v: u64, n: nat, after: Seq<bool>)
    requires
        n <= 64,
        n < 64 ==> v < (1u64 << (n as u64)),
    ensures
        bits_value(
            unpack(pack(before + low_bits(v, n) + after)).subrange(
                before.len() as int,
                (before.len() + n) as int,
            ),
        ) == v,
{
    let all = before + low_bits(v, n) + after;
    let read = unpack(pack(all)).subrange(before.len() as int, (before.len() + n) as int);
    assert forall|i: int| 0 <= i < n implies read[i] == low_bits(v, n)[i] by {
        lemma_unpack_pack(all, before.len() + i);
    }
    assert(read =~= low_bits(v, n));
    if n == 64 {
        lemma_low_bits_full(v);
    } else {
        lemma_low_bits_value(v, n);
        lemma_mask_keeps(v, n as u64);
    }
}

/// A growable buffer that packs bit fields into bytes, least significant bit first.
pub struct BitBuffer {
    data: Vec<u8>,
    bit_pos: usize,
    bits: Ghost<Seq<bool>>,
}

impl View for BitBuffer {
    type V = Seq<bool>;

    closed spec fn view(&self) -> Seq<bool> {
        self.bits@
    }
}

impl BitBuffer {
    pub closed spec fn wf(&self) -> bool {
        &&& self.bit_pos == self.bits@.len()
        &&& self.data@ == pack(self.bits@)
    }

    pub fn new() -> (r: Self)
        ensures
            r.wf(),
            r@ == Seq::<bool>::empty(),
    {
        let r = BitBuffer { data: Vec::new(), bit_pos: 0, bits: Ghost(Seq::empty()) };
        assert(pack(Seq::<bool>::empty()) =~= Seq::<u8>::empty());
        r
    }

    fn push_bit(&mut self, b: bool)
        requires
            old(self).wf(),
            old(self)@.len() < usize::MAX,
        ensures
            final(self).wf(),
            final(self)@ == old(self)@.push(b),
    {
        let ghost s = self.bits@;
        proof {
            lemma_pack_push(s, b);
            assert((0u8 | (1u8 << 0u8)) == 1u8) by (bit_vector);
        }
        let off = self.bit_pos % 8;
        if off == 0 {
            self.data.push(0u8);
        }
        if b {
            let i = self.bit_pos / 8;
            let x = self.data[i];
            self.data.set(i, x | (1u8 << (off as u8)));
        }
        self.bit_pos = self.bit_pos + 1;
        self.bits = Ghost(s.push(b));
        if off == 0 {
            assert(self.data@ =~= pack(s).push(if b { 1u8 } else { 0u8 }));
        } else {
            assert(self.data@ =~= pack(s).update(
                (s.len() / 8) as int,
                if b {
                    pack(s)[(s.len() / 8) as int] | (1u8 << ((s.len() % 8) as u8))
                } else {
                    pack(s)[(s.len() / 8) as int]
                },
            ));
        }
    }

    /// Appends the `bits` low bits of `value`, least significant bit first.
    pub fn write_bits(&mut self, value: u64, bits: usize)
        requires
            old(self).wf(),
            bits <= 64,
            old(self)@.len() + bits < usize::MAX,
        ensures
            final(self).wf(),
            final(self)@ == old(self)@ + low_bits(value, bits as nat),
    {
        let mut k: usize = 0;
        while k < bits
            invariant
                self.wf(),
                k <= bits <= 64,
                old(self)@.len() + bits < usize::MAX,
                self@ == old(self)@ + low_bits(value, k as nat),
            decreases bits - k,
        {
            let b = (value >> (k as u64)) & 1 == 1;
            self.push_bit(b);
            k = k + 1;
            assert(self@ =~= old(self)@ + low_bits(value, k as nat));
        }
    }

    /// The bytes written so far; unused bits of the last byte are zero.
    pub fn bytes(&self) -> (r: &[u8])
        requires
            self.wf(),
        ensures
            r@ == pack(self@),
    {
        self.data.as_slice()
    }
}

/// A reader of bit fields packed into bytes, least significant bit first.
pub struct BitReader {
    data: Vec<u8>,
    bit_pos: usize,
}

impl BitReader {
    /// The bytes available to read.
    pub closed spec fn spec_data(&self) -> Seq<u8> {
        self.data@
    }

    /// The position of the next bit to read.
    pub closed spec fn spec_pos(&self) -> nat {
        self.bit_pos as nat
    }

    pub fn new(data: Vec<u8>) -> (r: Self)
        ensures
            r.spec_data() == data@,
            r.spec_pos() == 0,
    {
        BitReader { data, bit_pos: 0 }
    }

    /// Moves all bytes of `new_data` to the end of the available bytes.
    pub fn append(&mut self, new_data: &mut Vec<u8>)
        ensures
            final(self).spec_data() == old(self).spec_data() + old(new_data)@,
            final(self).spec_pos() == old(self).spec_pos(),
            final(new_data)@ == Seq::<u8>::empty(),
    {
        self.data.append(new_data);
    }

    /// Reads the next `bits` bits as a number, least significant bit first.
    pub fn read_bits(&mut self, bits: usize) -> (r: u64)
        requires
            bits <= 64,
            old(self).spec_pos() + bits <= old(self).spec_data().len() * 8,
            old(self).spec_pos() + bits <= usize::MAX,
        ensures
            final(self).spec_data() == old(self).spec_data(),
            final(self).spec_pos() == old(self).spec_pos() + bits,
            r == bits_value(
                unpack(old(self).spec_data()).subrange(
                    old(self).spec_pos() as int,
                    old(self).spec_pos() + bits,
                ),
            ),
    {
        let ghost all = unpack(self.data@);
        let ghost p0 = self.bit_pos as int;
        let mut value: u64 = 0;
        let mut k: usize = 0;
        while k < bits
            invariant
                self.data@ == old(self).data@,
                all == unpack(self.data@),
                p0 == old(self).bit_pos,
                k <= bits <= 64,
                self.bit_pos == p0 + k,
                p0 + bits <= self.data@.len() * 8,
                p0 + bits <= usize::MAX,
                value == bits_value(all.subrange(p0, p0 + k)),
            decreases bits - k,
        {
            let byte = self.data[self.bit_pos / 8];
            let off = (self.bit_pos % 8) as u8;
            let bit = (byte >> off) & 1;
            let ghost prev = all.subrange(p0, p0 + k);
            let ghost next = all.subrange(p0, p0 + k + 1);
            proof {
                assert(next.drop_last() =~= prev);
                assert(next.last() == all[p0 + k]);
                assert(all[p0 + k] == byte_bit(byte, (self.bit_pos % 8) as int));
                let kk = k as u64;
                assert(bit == 1 ==> (bit as u64) << kk == 1u64 << kk) by (bit_vector);
                assert(bit != 1 ==> bit == 0) by (bit_vector)
                    requires
                        bit == (byte >> off) & 1,
                ;
                assert(bit == 0 ==> (bit as u64) << kk == 0u64) by (bit_vector);
                assert(value | 0u64 == value) by (bit_vector);
            }
            value = value | ((bit as u64) << (k as u64));
            self.bit_pos = self.bit_pos + 1;
            k = k + 1;
        }
        value
    }
}

} // verus!
