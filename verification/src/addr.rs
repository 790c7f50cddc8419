//! IPv4 address blocks and hardware addresses.
//!
//! A block is a base address plus a prefix length; the usable hosts of a
//! block are the addresses strictly between its network address and its
//! broadcast address. Blocks with prefix length 31 or 32 have no usable
//! hosts.

use vstd::prelude::*;

verus! {

use vstd::arithmetic::power2::pow2;
use vstd::arithmetic::power2::lemma_pow2_adds;
use vstd::arithmetic::power2::lemma_pow2_pos;
use vstd::arithmetic::power2::lemma2_to64;
use vstd::arithmetic::div_mod::lemma_fundamental_div_mod;

/// An IPv4 address block: a 32-bit base address and a prefix length.
#[derive(Clone, Copy, Debug, PartialEq, Eq, Structural)]
pub struct IpBlock {
    pub base: u32,
    pub prefix: u8,
}

impl IpBlock {
    /// A block is well formed when its prefix length is at most 32.
    pub open spec fn wf(self) -> bool {
        self.prefix <= 32
    }

    /// The number of addresses the block spans.
    pub open spec fn span(self) -> nat {
        pow2((32 - self.prefix) as nat)
    }

    /// The network address of the block: the base rounded down to a
    /// multiple of the span.
    pub open spec fn network(self) -> int {
        self.base - (self.base as int % self.span() as int)
    }

    /// The broadcast address of the block: the last address it spans.
    pub open spec fn broadcast(self) -> int {
        self.network() + self.span() - 1
    }

    /// The number of usable host addresses of the block.
    pub open spec fn host_count(self) -> nat {
        if self.prefix <= 30 {
            (self.span() - 2) as nat
        } else {
            0
        }
    }

    /// The i-th usable host address, in ascending order.
    pub open spec fn host_at(self, i: int) -> int {
        self.network() + 1 + i
    }
}

/// The span of a well-formed block is positive and at most 2^32, and the
/// network address lies at least a whole span below 2^32.
pub proof fn lemma_block_bounds(b: IpBlock)
    requires
        b.wf(),
    ensures
        0 < b.span() <= pow2(32),
        0 <= b.network() <= b.base,
        b.network() + b.span() <= pow2(32),
        pow2(32) == 0x1_0000_0000,
        b.prefix <= 30 ==> b.span() >= 4,
        b.host_count() <= b.span(),
{
    if b.prefix <= 30 {
        lemma_pow2_adds(2, (30 - b.prefix) as nat);
        lemma_pow2_pos((30 - b.prefix) as nat);
        lemma2_to64();
        assert(b.span() >= 4) by (nonlinear_arith)
            requires
                b.span() == 4 * pow2((30 - b.prefix) as nat),
                pow2((30 - b.prefix) as nat) >= 1,
        ;
    }
    lemma2_to64();
    lemma_pow2_pos((32 - b.prefix) as nat);
    let s = b.span() as int;
    let p = b.prefix as nat;
    lemma_pow2_adds(p, (32 - b.prefix) as nat);
    lemma_pow2_pos(p);
    let q = b.base as int / s;
    let r = b.base as int % s;
    lemma_fundamental_div_mod(b.base as int, s);
    assert(b.network() == q * s);
    assert(b.base < pow2(p) * s);
    assert(q < pow2(p)) by (nonlinear_arith)
        requires
            q * s + r == b.base as int,
            0 <= r < s,
            b.base < pow2(p) * s,
            s > 0,
    ;
    assert(q * s <= (pow2(p) - 1) * s) by (nonlinear_arith)
        requires
            q < pow2(p),
            s > 0,
    ;
    assert((pow2(p) - 1) * s == pow2(p) * s - s) by (nonlinear_arith);
    assert(0 <= q * s) by (nonlinear_arith)
        requires
            q >= 0,
            s > 0,
    ;
}

/// 2 to the power of `e`, for exponents up to 63.
pub fn pow2_u64(e: u8) -> (r: u64)
    requires
        e <= 63,
    ensures
        r == pow2(e as nat),
{
    proof {
        lemma2_to64();
    }
    let mut r: u64 = 1;
    let mut i: u8 = 0;
    while i < e
        invariant
            i <= e <= 63,
            r == pow2(i as nat),
        decreases e - i,
    {
        proof {
            lemma2_to64();
            lemma_pow2_adds(i as nat, 1);
            lemma_pow2_strictly_increases_up_to_64(i as nat);
        }
        r = r * 2;
        i = i + 1;
    }
    r
}

/// For exponents below 63, doubling pow2 stays within 64 bits.
proof fn lemma_pow2_strictly_increases_up_to_64(e: nat)
    requires
        e < 63,
    ensures
        pow2(e) < pow2(64),
        2 * pow2(e) < pow2(64),
{
    lemma_pow2_adds(e, 1);
    lemma_pow2_adds((e + 1) as nat, (63 - e) as nat);
    lemma_pow2_pos((63 - e) as nat);
    lemma2_to64();
    assert(pow2((e + 1) as nat) * pow2((63 - e) as nat) == pow2(64));
    assert(pow2((e + 1) as nat) <= pow2(64) / 2) by (nonlinear_arith)
        requires
            pow2((e + 1) as nat) * pow2((63 - e) as nat) == pow2(64),
            pow2((63 - e) as nat) >= 2,
            pow2((e + 1) as nat) >= 0,
    ;
}

impl IpBlock {
    /// Builds a block, rejecting prefix lengths over 32.
    pub fn new(base: u32, prefix: u8) -> (r: Option<IpBlock>)
        ensures
            prefix <= 32 ==> r == Some(IpBlock { base, prefix }),
            prefix > 32 ==> r is None,
    {
        if prefix <= 32 {
            Some(IpBlock { base, prefix })
        } else {
            None
        }
    }

    /// The span of the block as a machine integer.
    pub fn span_u64(&self) -> (r: u64)
        requires
            self.wf(),
        ensures
            r == self.span(),
    {
        pow2_u64(32 - self.prefix)
    }

    /// The network address of the block.
    pub fn network_addr(&self) -> (r: u32)
        requires
            self.wf(),
        ensures
            r == self.network(),
    {
        proof {
            lemma_block_bounds(*self);
        }
        let s = self.span_u64();
        let rem = (self.base as u64) % s;
        (self.base as u64 - rem) as u32
    }

    /// The i-th usable host address of the block.
    pub fn host_address(&self, i: u64) -> (r: u32)
        requires
            self.wf(),
            i < self.host_count(),
        ensures
            r == self.host_at(i as int),
            self.network() < r < self.broadcast(),
    {
        proof {
            lemma_block_bounds(*self);
        }
        let net = self.network_addr();
        (net as u64 + 1 + i) as u32
    }

    /// The number of usable host addresses of the block.
    pub fn count_hosts(&self) -> (r: u64)
        requires
            self.wf(),
        ensures
            r == self.host_count(),
    {
        proof {
            lemma_block_bounds(*self);
        }
        if self.prefix <= 30 {
            proof {
                lemma_pow2_adds(2, (30 - self.prefix) as nat);
                lemma_pow2_pos((30 - self.prefix) as nat);
                lemma2_to64();
                assert(self.span() >= 4) by (nonlinear_arith)
                    requires
                        self.span() == 4 * pow2((30 - self.prefix) as nat),
                        pow2((30 - self.prefix) as nat) >= 1,
                ;
            }
            self.span_u64() - 2
        } else {
            0
        }
    }
}

/// A restartable enumerator of the usable host addresses of a block, in
/// ascending numeric order. The network and broadcast addresses are never
/// yielded, and blocks with prefix length 31 or 32 yield nothing.
pub struct AddressEnumerator {
    pub block: IpBlock,
    pub next_index: u64,
}

impl AddressEnumerator {
    pub open spec fn wf(self) -> bool {
        &&& self.block.wf()
        &&& self.next_index <= self.block.host_count()
    }

    pub fn new(block: IpBlock) -> (r: AddressEnumerator)
        requires
            block.wf(),
        ensures
            r.wf(),
            r.block == block,
            r.next_index == 0,
    {
        AddressEnumerator { block, next_index: 0 }
    }

    /// Restarts the enumeration from the first usable host.
    pub fn reset(&mut self)
        requires
            old(self).wf(),
        ensures
            final(self).wf(),
            final(self).block == old(self).block,
            final(self).next_index == 0,
    {
        self.next_index = 0;
    }

    /// Yields the next usable host address, or `None` when the block is
    /// exhausted.
    pub fn next(&mut self) -> (r: Option<u32>)
        requires
            old(self).wf(),
        ensures
            final(self).wf(),
            final(self).block == old(self).block,
            old(self).next_index < old(self).block.host_count() ==> {
                &&& r == Some(old(self).block.host_at(old(self).next_index as int) as u32)
                &&& old(self).block.host_at(old(self).next_index as int) < pow2(32)
                &&& final(self).next_index == old(self).next_index + 1
            },
            old(self).next_index >= old(self).block.host_count() ==> {
                &&& r is None
                &&& *final(self) == *old(self)
            },
    {
        proof {
            lemma_block_bounds(self.block);
        }
        let count = self.block.count_hosts();
        if self.next_index < count {
            let net = self.block.network_addr();
            proof {
                assert(net + 1 + self.next_index < pow2(32));
            }
            let a = (net as u64 + 1 + self.next_index) as u32;
            self.next_index = self.next_index + 1;
            Some(a)
        } else {
            None
        }
    }
}

impl IpBlock {
    /// Collects every usable host address of the block, ascending, each one
    /// strictly between the network and broadcast addresses.
    pub fn hosts(&self) -> (r: Vec<u32>)
        requires
            self.wf(),
            self.host_count() <= usize::MAX,
        ensures
            r@.len() == self.host_count(),
            forall|i: int| 0 <= i < r@.len() ==> r@[i] == self.host_at(i),
            forall|i: int|
                0 <= i < r@.len() ==> self.network() < #[trigger] r@[i]
                    < self.broadcast(),
            forall|i: int, j: int| 0 <= i < j < r@.len() ==> r@[i] < r@[j],
    {
        proof {
            lemma_block_bounds(*self);
        }
        let count = self.count_hosts();
        let mut e = AddressEnumerator::new(*self);
        let mut r: Vec<u32> = Vec::new();
        let mut k: u64 = 0;
        while k < count
            invariant
                self.wf(),
                e.wf(),
                e.block == *self,
                e.next_index == k,
                count == self.host_count() <= usize::MAX,
                r@.len() == k,
                forall|i: int| 0 <= i < k ==> #[trigger] r@[i] == self.host_at(i),
            decreases count - k,
        {
            let ghost r0 = r@;
            let a = e.next();
            match a {
                Some(a) => {
                    r.push(a);
                    proof {
                        lemma_block_bounds(*self);
                        assert(r@ == r0.push(a));
                        assert(r@[k as int] == self.host_at(k as int));
                        assert(forall|i: int|
                            0 <= i < k ==> #[trigger] r@[i] == r0[i]);
                    }
                },
                None => {
                    proof {
                        assert(false);
                    }
                },
            }
            k = k + 1;
        }
        proof {
            lemma_block_bounds(*self);
        }
        r
    }
}

/// A block with prefix length at least 31 has no usable hosts.
pub proof fn lemma_no_hosts_for_long_prefix(b: IpBlock)
    requires
        b.wf(),
        b.prefix >= 31,
    ensures
        b.host_count() == 0,
{
}

/// The decimal digits of `n`, most significant first.
pub open spec fn dec_of(n: nat) -> Seq<u8>
    decreases n,
{
    if n < 10 {
        seq![(48 + n) as u8]
    } else {
        dec_of(n / 10).push((48 + n % 10) as u8)
    }
}

/// One hexadecimal digit, lower case.
pub open spec fn hex_digit(n: nat) -> u8 {
    if n < 10 {
        (48 + n) as u8
    } else {
        (87 + n) as u8
    }
}

/// The canonical dotted-quad rendering of an address, as ASCII bytes.
pub open spec fn ipv4_text(a: u32) -> Seq<u8> {
    dec_of((a as nat) / 0x1000000) + seq![46u8] + dec_of((a as nat) / 0x10000 % 256)
        + seq![46u8] + dec_of((a as nat) / 256 % 256) + seq![46u8] + dec_of(
        (a as nat) % 256,
    )
}

/// The canonical rendering of a 48-bit hardware address, as ASCII bytes:
/// six lower-case hexadecimal byte pairs separated by colons.
pub open spec fn mac_text(hw: u64) -> Seq<u8>
    decreases 6int,
{
    mac_text_bytes(hw, 6)
}

/// The rendering of the low `k` bytes of a hardware address.
pub open spec fn mac_text_bytes(hw: u64, k: int) -> Seq<u8>
    decreases k,
{
    if k <= 0 {
        Seq::empty()
    } else {
        let b = (hw as nat) / pow2(((k - 1) * 8) as nat) % 256;
        let pair = seq![hex_digit(b / 16), hex_digit(b % 16)];
        if k == 1 {
            pair
        } else {
            pair + seq![58u8] + mac_text_bytes(hw, k - 1)
        }
    }
}

/// Renders one number below 1000 in decimal.
fn push_dec(out: &mut Vec<u8>, n: u32)
    requires
        n < 1000,
    ensures
        final(out)@ == old(out)@ + dec_of(n as nat),
{
    let ghost pre = out@;
    if n >= 100 {
        out.push((48 + n / 100) as u8);
        out.push((48 + n / 10 % 10) as u8);
        out.push((48 + n % 10) as u8);
        proof {
            assert(dec_of(n as nat) == dec_of(n as nat / 10).push((48 + n as nat % 10) as u8));
            assert(dec_of(n as nat / 10) == dec_of(n as nat / 100).push(
                (48 + n as nat / 10 % 10) as u8,
            ));
            assert(n as nat / 10 / 10 == n as nat / 100);
            assert(n as nat / 100 < 10);
            assert(out@ =~= pre + dec_of(n as nat));
        }
    } else if n >= 10 {
        out.push((48 + n / 10) as u8);
        out.push((48 + n % 10) as u8);
        proof {
            assert(dec_of(n as nat) == dec_of(n as nat / 10).push((48 + n as nat % 10) as u8));
            assert(n as nat / 10 < 10);
            assert(out@ =~= pre + dec_of(n as nat));
        }
    } else {
        out.push((48 + n) as u8);
        proof {
            assert(out@ =~= pre + dec_of(n as nat));
        }
    }
}

/// Renders an address in its canonical dotted-quad form.
pub fn format_ipv4(a: u32) -> (r: Vec<u8>)
    ensures
        r@ == ipv4_text(a),
{
    let mut out: Vec<u8> = Vec::new();
    push_dec(&mut out, a / 0x1000000);
    out.push(46);
    push_dec(&mut out, a / 0x10000 % 256);
    out.push(46);
    push_dec(&mut out, a / 256 % 256);
    out.push(46);
    push_dec(&mut out, a % 256);
    proof {
        assert(out@ =~= ipv4_text(a));
    }
    out
}

/// Renders one hexadecimal digit, lower case.
fn push_hex_digit(out: &mut Vec<u8>, n: u64)
    requires
        n < 16,
    ensures
        final(out)@ == old(out)@.push(hex_digit(n as nat)),
{
    if n < 10 {
        out.push((48 + n) as u8);
    } else {
        out.push((87 + n) as u8);
    }
}

/// Renders a 48-bit hardware address in its canonical form: six lower-case
/// hexadecimal byte pairs separated by colons.
pub fn format_mac(hw: u64) -> (r: Vec<u8>)
    requires
        hw < 0x1_0000_0000_0000,
    ensures
        r@ == mac_text(hw),
{
    proof {
        lemma2_to64();
    }
    let mut out: Vec<u8> = Vec::new();
    let mut k: u64 = 6;
    while k > 0
        invariant
            k <= 6,
            hw < 0x1_0000_0000_0000,
            out@ + mac_text_bytes(hw, k as int) == mac_text(hw),
        decreases k,
    {
        let ghost pre = out@;
        let shift = pow2_u64((8 * (k - 1)) as u8);
        proof {
            lemma2_to64();
            lemma_pow2_pos((8 * (k - 1)) as nat);
        }
        let b = hw / shift % 256;
        push_hex_digit(&mut out, b / 16);
        push_hex_digit(&mut out, b % 16);
        if k > 1 {
            out.push(58);
        }
        proof {
            assert(out@ + mac_text_bytes(hw, k - 1) =~= pre + mac_text_bytes(hw, k as int));
        }
        k = k - 1;
    }
    proof {
        assert(mac_text_bytes(hw, 0) =~= Seq::<u8>::empty());
        assert(out@ =~= mac_text(hw));
    }
    out
}

/// An ASCII decimal digit.
pub open spec fn is_digit(c: u8) -> bool {
    48 <= c <= 57
}

/// The value of a string of decimal digits, most significant first.
pub open spec fn dec_val(ds: Seq<u8>) -> nat
    decreases ds.len(),
{
    if ds.len() == 0 {
        0
    } else {
        dec_val(ds.drop_last()) * 10 + (if is_digit(ds.last()) {
            (ds.last() - 48) as nat
        } else {
            0
        })
    }
}

/// Reading the decimal rendering of a number back yields the number, the
/// rendering holds digits alone, it never starts with a zero unless it is
/// the single digit zero, and numbers below 1000 render in at most three
/// digits.
pub proof fn lemma_dec_of_props(n: nat)
    ensures
        dec_val(dec_of(n)) == n,
        forall|i: int| 0 <= i < dec_of(n).len() ==> is_digit(#[trigger] dec_of(n)[i]),
        dec_of(n).len() >= 1,
        n > 0 ==> dec_of(n)[0] != 48,
        n < 10 ==> dec_of(n).len() == 1,
        n < 100 ==> dec_of(n).len() <= 2,
        n < 1000 ==> dec_of(n).len() <= 3,
    decreases n,
{
    if n < 10 {
        assert(dec_of(n) == seq![(48 + n) as u8]);
        assert(dec_of(n).drop_last() =~= Seq::<u8>::empty());
        assert(dec_val(Seq::<u8>::empty()) == 0);
        assert(dec_val(dec_of(n)) == dec_val(dec_of(n).drop_last()) * 10 + (dec_of(n).last()
            - 48));
    } else {
        lemma_dec_of_props(n / 10);
        let d = dec_of(n);
        assert(d == dec_of(n / 10).push((48 + n % 10) as u8));
        assert(d.drop_last() =~= dec_of(n / 10));
        assert(d.last() == (48 + n % 10) as u8);
        assert(dec_val(d) == (n / 10) * 10 + n % 10);
        assert((n / 10) * 10 + n % 10 == n) by (nonlinear_arith);
        assert(forall|i: int| 0 <= i < d.len() - 1 ==> d[i] == dec_of(n / 10)[i]);
        assert(d[0] == dec_of(n / 10)[0]);
    }
}

/// Finds the first byte at or after `from` that is not a decimal digit.
fn scan_digits(s: &Vec<u8>, from: usize) -> (j: usize)
    requires
        from <= s@.len(),
    ensures
        from <= j <= s@.len(),
        forall|i: int| from <= i < j ==> is_digit(#[trigger] s@[i]),
        j < s@.len() ==> !is_digit(s@[j as int]),
{
    let mut j = from;
    while j < s.len() && 48 <= s[j] && s[j] <= 57
        invariant
            from <= j <= s@.len(),
            forall|i: int| from <= i < j ==> is_digit(#[trigger] s@[i]),
        decreases s@.len() - j,
    {
        j = j + 1;
    }
    j
}

/// The value of the digits `s[from..to]`, refused when the run is longer
/// than three digits.
fn digits_val(s: &Vec<u8>, from: usize, to: usize) -> (r: Option<u32>)
    requires
        from <= to <= s@.len(),
        forall|i: int| from <= i < to ==> is_digit(#[trigger] s@[i]),
    ensures
        to - from <= 3 ==> r == Some(dec_val(s@.subrange(from as int, to as int)) as u32),
        to - from > 3 ==> r is None,
        r is Some ==> dec_val(s@.subrange(from as int, to as int)) < 1000,
{
    if to - from > 3 {
        return None;
    }
    let mut val: u32 = 0;
    let mut i = from;
    proof {
        assert(s@.subrange(from as int, from as int) =~= Seq::<u8>::empty());
    }
    while i < to
        invariant
            from <= i <= to <= s@.len(),
            to - from <= 3,
            forall|k: int| from <= k < to ==> is_digit(#[trigger] s@[k]),
            val == dec_val(s@.subrange(from as int, i as int)),
            val < pow10_spec((i - from) as nat),
        decreases to - i,
    {
        proof {
            assert(s@.subrange(from as int, i + 1).drop_last() =~= s@.subrange(
                from as int,
                i as int,
            ));
            assert(s@.subrange(from as int, i + 1).last() == s@[i as int]);
            assert(pow10_spec(0) == 1);
            assert(pow10_spec(1) == 10 * pow10_spec(0));
            assert(pow10_spec(2) == 10 * pow10_spec(1));
            assert(pow10_spec(3) == 10 * pow10_spec(2));
            assert(is_digit(s@[i as int]));
            assert(val < 100);
            assert(pow10_spec((i + 1 - from) as nat) == 10 * pow10_spec((i - from) as nat));
        }
        val = val * 10 + ((s[i] - 48) as u32);
        i = i + 1;
    }
    proof {
        assert(pow10_spec(0) == 1);
        assert(pow10_spec(1) == 10 * pow10_spec(0));
        assert(pow10_spec(2) == 10 * pow10_spec(1));
        assert(pow10_spec(3) == 10 * pow10_spec(2));
        assert(val < 1000);
    }
    Some(val)
}

/// 10 to the power of `k`.
pub open spec fn pow10_spec(k: nat) -> nat
    decreases k,
{
    if k == 0 {
        1
    } else {
        10 * pow10_spec((k - 1) as nat)
    }
}

/// The canonical rendering of a block: dotted quad, a slash, the prefix
/// length in decimal.
pub open spec fn block_text(b: IpBlock) -> Seq<u8> {
    ipv4_text(b.base) + seq![47u8] + dec_of(b.prefix as nat)
}

/// Renders a block in its canonical form.
pub fn format_block(b: &IpBlock) -> (r: Vec<u8>)
    requires
        b.wf(),
    ensures
        r@ == block_text(*b),
{
    let mut out = format_ipv4(b.base);
    out.push(47);
    push_dec(&mut out, b.prefix as u32);
    proof {
        assert(out@ =~= block_text(*b));
    }
    out
}

/// Where each piece of a block's canonical rendering stands.
pub proof fn lemma_canonical_shape(s: Seq<u8>, b: IpBlock)
    requires
        b.wf(),
        s == block_text(b),
    ensures
        ({
            let d1 = dec_of(b.base as nat / 0x1000000);
            let d2 = dec_of(b.base as nat / 0x10000 % 256);
            let d3 = dec_of(b.base as nat / 256 % 256);
            let d4 = dec_of(b.base as nat % 256);
            let dp = dec_of(b.prefix as nat);
            let l1 = d1.len() as int;
            let l2 = l1 + 1 + d2.len();
            let l3 = l2 + 1 + d3.len();
            let l4 = l3 + 1 + d4.len();
            &&& s.len() == l4 + 1 + dp.len()
            &&& s.subrange(0, l1) == d1
            &&& s[l1] == 46u8
            &&& s.subrange(l1 + 1, l2) == d2
            &&& s[l2] == 46u8
            &&& s.subrange(l2 + 1, l3) == d3
            &&& s[l3] == 46u8
            &&& s.subrange(l3 + 1, l4) == d4
            &&& s[l4] == 47u8
            &&& s.subrange(l4 + 1, s.len() as int) == dp
        }),
{
    let d1 = dec_of(b.base as nat / 0x1000000);
    let d2 = dec_of(b.base as nat / 0x10000 % 256);
    let d3 = dec_of(b.base as nat / 256 % 256);
    let d4 = dec_of(b.base as nat % 256);
    let dp = dec_of(b.prefix as nat);
    let l1 = d1.len() as int;
    let l2 = l1 + 1 + d2.len();
    let l3 = l2 + 1 + d3.len();
    let l4 = l3 + 1 + d4.len();
    assert(s.subrange(0, l1) =~= d1);
    assert(s.subrange(l1 + 1, l2) =~= d2);
    assert(s.subrange(l2 + 1, l3) =~= d3);
    assert(s.subrange(l3 + 1, l4) =~= d4);
    assert(s.subrange(l4 + 1, s.len() as int) =~= dp);
}

/// A run of digits bounded on both sides the same way starts and ends at
/// the same place.
proof fn lemma_scan_pins(s: Seq<u8>, from: int, j: int, l: int)
    requires
        from <= j <= s.len(),
        forall|i: int| from <= i < j ==> is_digit(#[trigger] s[i]),
        j < s.len() ==> !is_digit(s[j]),
        from <= l <= s.len(),
        forall|i: int| from <= i < l ==> is_digit(#[trigger] s[i]),
        l < s.len() ==> !is_digit(s[l]),
    ensures
        j == l,
{
    if j < l {
        assert(is_digit(s[j]));
    }
    if l < j {
        assert(is_digit(s[l]));
    }
}

/// Compares two byte strings.
fn bytes_eq(a: &Vec<u8>, b: &Vec<u8>) -> (r: bool)
    ensures
        r == (a@ == b@),
{
    if a.len() != b.len() {
        proof {
            assert(a@ != b@);
        }
        return false;
    }
    let mut i: usize = 0;
    while i < a.len()
        invariant
            i <= a@.len() == b@.len(),
            forall|k: int| 0 <= k < i ==> a@[k] == b@[k],
        decreases a@.len() - i,
    {
        if a[i] != b[i] {
            proof {
                assert(a@[i as int] != b@[i as int]);
            }
            return false;
        }
        i = i + 1;
    }
    proof {
        assert(a@ =~= b@);
    }
    true
}

/// Reads a block from its canonical rendering: an address as a dotted
/// quad, a slash, and a prefix length up to 32, all in decimal without
/// leading zeros. Returns a block exactly when the input is the canonical
/// rendering of a well-formed block.
#[verifier::rlimit(100)]
pub fn parse_block(s: &Vec<u8>) -> (r: Option<IpBlock>)
    ensures
        match r {
            Some(b) => b.wf() && s@ == block_text(b),
            None => forall|b: IpBlock| b.wf() ==> s@ != block_text(b),
        },
{
    let n = s.len();
    let j1 = scan_digits(s, 0);
    let j2 = if j1 < n {
        scan_digits(s, j1 + 1)
    } else {
        n
    };
    let j3 = if j2 < n {
        scan_digits(s, j2 + 1)
    } else {
        n
    };
    let j4 = if j3 < n {
        scan_digits(s, j3 + 1)
    } else {
        n
    };
    let j5 = if j4 < n {
        scan_digits(s, j4 + 1)
    } else {
        n
    };
    let mut r: Option<IpBlock> = None;
    if j1 < n && s[j1] == 46 && j2 < n && s[j2] == 46 && j3 < n && s[j3] == 46 && j4 < n
        && s[j4] == 47 && j5 == n {
        let v1 = digits_val(s, 0, j1);
        let v2 = digits_val(s, j1 + 1, j2);
        let v3 = digits_val(s, j2 + 1, j3);
        let v4 = digits_val(s, j3 + 1, j4);
        let vp = digits_val(s, j4 + 1, j5);
        match (v1, v2, v3, v4, vp) {
            (Some(v1), Some(v2), Some(v3), Some(v4), Some(vp)) => {
                if v1 <= 255 && v2 <= 255 && v3 <= 255 && v4 <= 255 && vp <= 32 {
                    let base = v1 * 0x1000000 + v2 * 0x10000 + v3 * 0x100 + v4;
                    let cand = IpBlock { base, prefix: vp as u8 };
                    let rendered = format_block(&cand);
                    if bytes_eq(&rendered, s) {
                        r = Some(cand);
                    }
                }
            },
            _ => {},
        }
    }
    proof {
        if r is None {
            assert forall|b: IpBlock| b.wf() implies s@ != block_text(b) by {
                if s@ == block_text(b) {
                    lemma_canonical_shape(s@, b);
                    let o1 = b.base as nat / 0x1000000;
                    let o2 = b.base as nat / 0x10000 % 256;
                    let o3 = b.base as nat / 256 % 256;
                    let o4 = b.base as nat % 256;
                    let op = b.prefix as nat;
                    lemma_dec_of_props(o1);
                    lemma_dec_of_props(o2);
                    lemma_dec_of_props(o3);
                    lemma_dec_of_props(o4);
                    lemma_dec_of_props(op);
                    let d1 = dec_of(o1);
                    let d2 = dec_of(o2);
                    let d3 = dec_of(o3);
                    let d4 = dec_of(o4);
                    let dp = dec_of(op);
                    let l1 = d1.len() as int;
                    let l2 = l1 + 1 + d2.len();
                    let l3 = l2 + 1 + d3.len();
                    let l4 = l3 + 1 + d4.len();
                    let l5 = l4 + 1 + dp.len();
                    assert(o1 < 256) by (nonlinear_arith)
                        requires
                            o1 == b.base as nat / 0x1000000,
                            b.base < 0x100000000,
                    ;
                    assert(op <= 32);
                    assert(forall|i: int| 0 <= i < l1 ==> is_digit(#[trigger] s@[i]));
                    lemma_scan_pins(s@, 0, j1 as int, l1);
                    assert(forall|i: int| l1 + 1 <= i < l2 ==> is_digit(#[trigger] s@[i]));
                    lemma_scan_pins(s@, l1 + 1, j2 as int, l2);
                    assert(forall|i: int| l2 + 1 <= i < l3 ==> is_digit(#[trigger] s@[i]));
                    lemma_scan_pins(s@, l2 + 1, j3 as int, l3);
                    assert(forall|i: int| l3 + 1 <= i < l4 ==> is_digit(#[trigger] s@[i]));
                    lemma_scan_pins(s@, l3 + 1, j4 as int, l4);
                    assert(forall|i: int| l4 + 1 <= i < l5 ==> is_digit(#[trigger] s@[i]));
                    lemma_scan_pins(s@, l4 + 1, j5 as int, l5);
                    assert(dec_val(s@.subrange(0, j1 as int)) == o1);
                    assert(dec_val(s@.subrange(j1 + 1, j2 as int)) == o2);
                    assert(dec_val(s@.subrange(j2 + 1, j3 as int)) == o3);
                    assert(dec_val(s@.subrange(j3 + 1, j4 as int)) == o4);
                    assert(dec_val(s@.subrange(j4 + 1, j5 as int)) == op);
                    let x = b.base;
                    assert((x / 0x1000000) * 0x1000000 + ((x / 0x10000) % 0x100) * 0x10000
                        + ((x / 0x100) % 0x100) * 0x100 + (x % 0x100) == x) by (bit_vector);
                    assert(o1 == x / 0x1000000);
                    assert(o2 == (x / 0x10000) % 0x100);
                    assert(o3 == (x / 0x100) % 0x100);
                    assert(o4 == x % 0x100);
                    assert(o1 * 0x1000000 + o2 * 0x10000 + o3 * 0x100 + o4 == b.base);
                }
            }
        }
    }
    r
}

} // verus!
