//! Fixed-width integers on the wire, and the bounded byte sink and byte source
//! that encode and decode programs run against.

use vstd::prelude::*;

verus! {

/// Byte order of a multi-byte integer on the wire.
#[derive(Clone, Copy, PartialEq, Eq, Structural, Debug)]
pub enum ByteOrder {
    Big,
    Little,
}

/// Width of a fixed-width integer on the wire.
#[derive(Clone, Copy, PartialEq, Eq, Structural, Debug)]
pub enum IntWidth {
    W8,
    W16,
    W32,
    W64,
}

/// 256 to the power `n`.
pub open spec fn pow256(n: nat) -> nat
    decreases n,
{
    if n == 0 {
        1
    } else {
        256 * pow256((n - 1) as nat)
    }
}

impl IntWidth {
    /// Number of bytes that an integer of this width occupies.
    pub open spec fn size(self) -> nat {
        match self {
            IntWidth::W8 => 1,
            IntWidth::W16 => 2,
            IntWidth::W32 => 4,
            IntWidth::W64 => 8,
        }
    }

    /// The least value that does not fit: `256` to the power `size()`.
    pub open spec fn limit(self) -> nat {
        match self {
            IntWidth::W8 => 0x100,
            IntWidth::W16 => 0x1_0000,
            IntWidth::W32 => 0x1_0000_0000,
            IntWidth::W64 => 0x1_0000_0000_0000_0000,
        }
    }

    /// Whether `v` can be written in this width without loss.
    pub open spec fn holds(self, v: u64) -> bool {
        (v as nat) < self.limit()
    }

    /// Number of bytes that an integer of this width occupies.
    pub fn bytes(self) -> (n: usize)
        ensures
            n == self.size(),
    {
        match self {
            IntWidth::W8 => 1,
            IntWidth::W16 => 2,
            IntWidth::W32 => 4,
            IntWidth::W64 => 8,
        }
    }

    /// Tests whether `v` can be written in this width without loss.
    pub fn fits(self, v: u64) -> (ok: bool)
        ensures
            ok == self.holds(v),
    {
        match self {
            IntWidth::W8 => v <= 0xff,
            IntWidth::W16 => v <= 0xffff,
            IntWidth::W32 => v <= 0xffff_ffff,
            IntWidth::W64 => true,
        }
    }
}

/// `limit()` is `256` to the power `size()`.
pub proof fn limit_is_power(w: IntWidth)
    ensures
        w.limit() == pow256(w.size()),
{
    reveal_with_fuel(pow256, 10);
}

/// The `n` low-order base-256 digits of `v`, least significant first.
pub open spec fn le_bytes(v: nat, n: nat) -> Seq<u8>
    decreases n,
{
    if n == 0 {
        Seq::empty()
    } else {
        seq![(v % 256) as u8] + le_bytes(v / 256, (n - 1) as nat)
    }
}

/// The number whose base-256 digits are `b`, least significant first.
pub open spec fn le_value(b: Seq<u8>) -> nat
    decreases b.len(),
{
    if b.len() == 0 {
        0
    } else {
        b[0] as nat + 256 * le_value(b.drop_first())
    }
}

/// The `n` bytes that stand for `v` in the given byte order.
pub open spec fn int_bytes(v: nat, n: nat, order: ByteOrder) -> Seq<u8> {
    match order {
        ByteOrder::Little => le_bytes(v, n),
        ByteOrder::Big => le_bytes(v, n).reverse(),
    }
}

/// The number that `b` stands for in the given byte order.
pub open spec fn int_value(b: Seq<u8>, order: ByteOrder) -> nat {
    match order {
        ByteOrder::Little => le_value(b),
        ByteOrder::Big => le_value(b.reverse()),
    }
}

/// `n` digits are `n` bytes.
pub proof fn le_bytes_len(v: nat, n: nat)
    ensures
        le_bytes(v, n).len() == n,
    decreases n,
{
    if n > 0 {
        le_bytes_len(v / 256, (n - 1) as nat);
    }
}

/// An integer written in `n` bytes has `n` bytes.
pub proof fn int_bytes_len(v: nat, n: nat, order: ByteOrder)
    ensures
        int_bytes(v, n, order).len() == n,
{
    le_bytes_len(v, n);
}

/// Reading back the digits of a number that fits gives the number.
pub proof fn le_round_trip(v: nat, n: nat)
    requires
        v < pow256(n),
    ensures
        le_value(le_bytes(v, n)) == v,
    decreases n,
{
    if n > 0 {
        let rest = le_bytes(v / 256, (n - 1) as nat);
        let b = le_bytes(v, n);
        assert(b.drop_first() =~= rest);
        let p = pow256((n - 1) as nat);
        assert(v / 256 < p) by (nonlinear_arith)
            requires
                v < 256 * p,
        ;
        le_round_trip(v / 256, (n - 1) as nat);
        le_bytes_len(v, n);
        assert(v == v % 256 + 256 * (v / 256)) by (nonlinear_arith);
    } else {
        assert(le_bytes(v, n).len() == 0);
    }
}

/// Reading back the bytes of a number that fits gives the number.
pub proof fn int_round_trip(v: nat, n: nat, order: ByteOrder)
    requires
        v < pow256(n),
    ensures
        int_value(int_bytes(v, n, order), order) == v,
{
    le_round_trip(v, n);
    assert(le_bytes(v, n).reverse().reverse() =~= le_bytes(v, n));
}

/// A number written in `b.len()` digits is below `256` to that power.
pub proof fn le_value_bound(b: Seq<u8>)
    ensures
        le_value(b) < pow256(b.len()),
    decreases b.len(),
{
    if b.len() > 0 {
        le_value_bound(b.drop_first());
        let t = le_value(b.drop_first());
        let p = pow256((b.len() - 1) as nat);
        assert(b[0] as nat + 256 * t < 256 * p) by (nonlinear_arith)
            requires
                t < p,
                (b[0] as nat) < 256,
        ;
    }
}

/// Writing the number that bytes stand for gives the bytes back.
pub proof fn le_bytes_of_value(b: Seq<u8>)
    ensures
        le_bytes(le_value(b), b.len()) == b,
    decreases b.len(),
{
    if b.len() > 0 {
        let rest = b.drop_first();
        let t = le_value(rest);
        let v = le_value(b);
        le_bytes_of_value(rest);
        assert(v % 256 == b[0] as nat && v / 256 == t) by (nonlinear_arith)
            requires
                v == b[0] as nat + 256 * t,
                (b[0] as nat) < 256,
        ;
        assert(le_bytes(v, b.len()) =~= seq![b[0]] + rest);
        assert(seq![b[0]] + rest =~= b);
    } else {
        assert(le_bytes(le_value(b), b.len()) =~= b);
    }
}

/// Writing the number that bytes stand for, in the same byte order, gives the
/// bytes back, and the number is below `256` to the power of their count.
pub proof fn int_bytes_of_value(b: Seq<u8>, order: ByteOrder)
    ensures
        int_bytes(int_value(b, order), b.len(), order) == b,
        int_value(b, order) < pow256(b.len()),
{
    match order {
        ByteOrder::Little => {
            le_bytes_of_value(b);
            le_value_bound(b);
        },
        ByteOrder::Big => {
            le_bytes_of_value(b.reverse());
            le_value_bound(b.reverse());
            assert(b.reverse().reverse() =~= b);
        },
    }
}

/// Up to eight bytes hold no more than a `u64` does.
pub proof fn pow256_fits_u64(n: nat)
    requires
        n <= 8,
    ensures
        pow256(n) <= 0x1_0000_0000_0000_0000,
{
    reveal_with_fuel(pow256, 10);
}

/// The bytes of `s` in the opposite order.
pub fn reversed(s: &Vec<u8>) -> (out: Vec<u8>)
    ensures
        out@ == s@.reverse(),
{
    let n: usize = s.len();
    let mut out: Vec<u8> = Vec::new();
    let mut k: usize = 0;
    while k < n
        invariant
            n == s@.len(),
            k <= n,
            out@.len() == k,
            forall|j: int| 0 <= j < k ==> out@[j] == s@[n - 1 - j],
        decreases n - k,
    {
        out.push(s[n - 1 - k]);
        k = k + 1;
    }
    assert(out@ =~= s@.reverse());
    out
}

/// Writes `v` in `width` bytes. A value that does not fit loses its high-order
/// bytes: callers test `fits` first.
pub fn encode_int(v: u64, width: IntWidth, order: ByteOrder) -> (out: Vec<u8>)
    ensures
        out@ == int_bytes(v as nat, width.size(), order),
{
    let n: usize = width.bytes();
    let mut low_first: Vec<u8> = Vec::new();
    let mut x: u64 = v;
    let mut k: usize = 0;
    while k < n
        invariant
            k <= n,
            low_first@ + le_bytes(x as nat, (n - k) as nat) == le_bytes(v as nat, n as nat),
        decreases n - k,
    {
        let ghost before = low_first@;
        low_first.push((x % 256) as u8);
        proof {
            let rest = le_bytes((x / 256) as nat, (n - k - 1) as nat);
            assert(le_bytes(x as nat, (n - k) as nat) == seq![(x % 256) as u8] + rest);
            assert(low_first@ + rest =~= before + (seq![(x % 256) as u8] + rest));
        }
        x = x / 256;
        k = k + 1;
    }
    assert(low_first@ + le_bytes(x as nat, 0) =~= low_first@);
    match order {
        ByteOrder::Little => low_first,
        ByteOrder::Big => reversed(&low_first),
    }
}

/// Reads back a number of at most eight bytes.
pub fn decode_int(b: &Vec<u8>, order: ByteOrder) -> (v: u64)
    requires
        b@.len() <= 8,
    ensures
        v == int_value(b@, order),
{
    let n: usize = b.len();
    let digits: Vec<u8> = match order {
        ByteOrder::Little => reversed(b),
        ByteOrder::Big => reversed(&reversed(b)),
    };
    // `digits` holds the most significant byte first.
    let ghost low_first = int_low_first(b@, order);
    assert(digits@ =~= low_first.reverse()) by {
        assert(b@.reverse().reverse() =~= b@);
    }
    let mut acc: u64 = 0;
    let mut k: usize = 0;
    while k < n
        invariant
            n == digits@.len(),
            n == low_first.len(),
            n <= 8,
            k <= n,
            digits@ == low_first.reverse(),
            acc == le_value(low_first.skip(n - k)),
            acc < pow256(k as nat),
        decreases n - k,
    {
        let d: u8 = digits[k];
        proof {
            let sub = low_first.skip(n - k - 1);
            assert(sub[0] == d);
            assert(sub.drop_first() =~= low_first.skip(n - k));
            pow256_fits_u64((k + 1) as nat);
            let p = pow256(k as nat);
            assert(d as nat + 256 * (acc as nat) < 256 * p) by (nonlinear_arith)
                requires
                    (acc as nat) < p,
                    (d as nat) < 256,
            ;
        }
        acc = acc * 256 + (d as u64);
        k = k + 1;
    }
    assert(low_first.skip(0) =~= low_first);
    acc
}

/// The bytes of an integer field, least significant first.
pub open spec fn int_low_first(b: Seq<u8>, order: ByteOrder) -> Seq<u8> {
    match order {
        ByteOrder::Little => b,
        ByteOrder::Big => b.reverse(),
    }
}

/// What a sink of capacity `limit` keeps of `s`.
pub open spec fn clip(s: Seq<u8>, limit: nat) -> Seq<u8> {
    if s.len() <= limit {
        s
    } else {
        s.take(limit as int)
    }
}

/// A growable output buffer with a fixed capacity. A write that does not fit
/// fills the buffer to its capacity and reports failure.
#[derive(Debug)]
pub struct ByteSink {
    bytes: Vec<u8>,
    limit: usize,
}

impl View for ByteSink {
    type V = Seq<u8>;

    closed spec fn view(&self) -> Seq<u8> {
        self.bytes@
    }
}

impl ByteSink {
    /// The most that the sink can hold.
    pub closed spec fn capacity(&self) -> nat {
        self.limit as nat
    }

    /// A sink never holds more than its capacity.
    pub open spec fn wf(&self) -> bool {
        self@.len() <= self.capacity()
    }

    /// An empty sink that can hold `limit` bytes.
    pub fn new(limit: usize) -> (sink: ByteSink)
        ensures
            sink.wf(),
            sink@ == Seq::<u8>::empty(),
            sink.capacity() == limit,
    {
        ByteSink { bytes: Vec::new(), limit }
    }

    /// How many bytes the sink holds.
    pub fn len(&self) -> (n: usize)
        ensures
            n == self@.len(),
    {
        self.bytes.len()
    }

    /// The most that the sink can hold.
    pub fn limit(&self) -> (n: usize)
        ensures
            n == self.capacity(),
    {
        self.limit
    }

    /// The bytes written so far.
    pub fn as_slice(&self) -> (s: &[u8])
        ensures
            s@ == self@,
    {
        self.bytes.as_slice()
    }

    /// Gives up the sink for the bytes written.
    pub fn into_bytes(self) -> (v: Vec<u8>)
        ensures
            v@ == self@,
    {
        self.bytes
    }

    /// Appends `data`, as far as the capacity allows.
    pub fn write(&mut self, data: &[u8]) -> (ok: bool)
        requires
            old(self).wf(),
        ensures
            final(self).wf(),
            final(self).capacity() == old(self).capacity(),
            final(self)@ == clip(old(self)@ + data@, old(self).capacity()),
            ok == (old(self)@.len() + data@.len() <= old(self).capacity()),
    {
        let n: usize = data.len();
        let mut k: usize = 0;
        while k < n && self.bytes.len() < self.limit
            invariant
                n == data@.len(),
                k <= n,
                self.limit == old(self).limit,
                self.bytes@.len() <= self.limit,
                self.bytes@ == old(self).bytes@ + data@.take(k as int),
            decreases n - k,
        {
            self.bytes.push(data[k]);
            assert(data@.take(k + 1) =~= data@.take(k as int).push(data@[k as int]));
            k = k + 1;
        }
        proof {
            let whole = old(self).bytes@ + data@;
            if k == n {
                assert(data@.take(k as int) =~= data@);
            } else {
                assert(self.bytes@ =~= whole.take(self.limit as int));
            }
        }
        k == n
    }
}

/// An input buffer read front to back. Its view is what is still unread.
#[derive(Debug)]
pub struct ByteSource {
    data: Vec<u8>,
    pos: usize,
}

impl View for ByteSource {
    type V = Seq<u8>;

    open spec fn view(&self) -> Seq<u8> {
        self.whole().skip(self.consumed() as int)
    }
}

impl ByteSource {
    /// All the bytes of the buffer, read or not.
    pub closed spec fn whole(&self) -> Seq<u8> {
        self.data@
    }

    /// How many bytes have been read.
    pub closed spec fn consumed(&self) -> nat {
        self.pos as nat
    }

    /// A source never has read more than it holds.
    pub open spec fn wf(&self) -> bool {
        self.consumed() <= self.whole().len()
    }

    /// A source that reads `data` from its first byte.
    pub fn new(data: Vec<u8>) -> (source: ByteSource)
        ensures
            source.wf(),
            source.whole() == data@,
            source.consumed() == 0,
            source@ == data@,
    {
        assert(data@.skip(0) =~= data@);
        ByteSource { data, pos: 0 }
    }

    /// How many bytes have been read: a mark to come back to.
    pub fn position(&self) -> (p: usize)
        ensures
            p == self.consumed(),
    {
        self.pos
    }

    /// Goes back to an earlier position: the bytes read since then are unread
    /// again.
    pub fn rewind(&mut self, to: usize)
        requires
            old(self).wf(),
            to <= old(self).consumed(),
        ensures
            final(self).wf(),
            final(self).whole() == old(self).whole(),
            final(self).consumed() == to,
    {
        self.pos = to;
    }

    /// How many bytes are still unread.
    pub fn remaining(&self) -> (n: usize)
        requires
            self.wf(),
        ensures
            n == self@.len(),
    {
        self.data.len() - self.pos
    }

    /// Reads exactly `n` bytes, or nothing when fewer remain.
    pub fn take(&mut self, n: usize) -> (out: Option<Vec<u8>>)
        requires
            old(self).wf(),
        ensures
            final(self).wf(),
            final(self).whole() == old(self).whole(),
            out.is_some() == (n <= old(self)@.len()),
            out.is_some() ==> {
                &&& out.unwrap()@ == old(self)@.take(n as int)
                &&& final(self)@ == old(self)@.skip(n as int)
                &&& final(self).consumed() == old(self).consumed() + n
            },
            out.is_none() ==> final(self)@ == old(self)@ && final(self).consumed() == old(self).consumed(),
    {
        if n > self.data.len() - self.pos {
            return None;
        }
        let start: usize = self.pos;
        let total: usize = self.data.len();
        let mut out: Vec<u8> = Vec::new();
        let mut k: usize = 0;
        while k < n
            invariant
                k <= n,
                total == self.data@.len(),
                start + n <= total,
                self.pos == start,
                self.data@ == old(self).data@,
                out@ == self.data@.subrange(start as int, start + k),
            decreases n - k,
        {
            out.push(self.data[start + k]);
            assert(self.data@.subrange(start as int, start + k + 1) =~= self.data@.subrange(
                start as int,
                start + k,
            ).push(self.data@[start + k]));
            k = k + 1;
        }
        self.pos = start + n;
        assert(out@ =~= old(self)@.take(n as int));
        assert(self@ =~= old(self)@.skip(n as int));
        Some(out)
    }

    /// Reads everything that is left.
    pub fn take_rest(&mut self) -> (out: Vec<u8>)
        requires
            old(self).wf(),
        ensures
            final(self).wf(),
            final(self).whole() == old(self).whole(),
            final(self).consumed() >= old(self).consumed(),
            out@ == old(self)@,
            final(self)@ == Seq::<u8>::empty(),
    {
        let n: usize = self.data.len() - self.pos;
        let got = self.take(n);
        assert(old(self)@.take(n as int) =~= old(self)@);
        got.unwrap()
    }
}

/// The number of bytes that bring `n` bytes to a multiple of `align`.
pub open spec fn pad_len(n: nat, align: nat) -> nat {
    if align <= 1 {
        0
    } else {
        ((align - n % align) % (align as int)) as nat
    }
}

/// `n` zero bytes.
pub open spec fn zeros(n: nat) -> Seq<u8> {
    Seq::new(n, |i: int| 0u8)
}

/// `s` padded with zero bytes to a multiple of `align` bytes.
pub open spec fn padded(s: Seq<u8>, align: nat) -> Seq<u8> {
    s + zeros(pad_len(s.len(), align))
}

/// The number of bytes that bring `n` bytes to a multiple of `align`.
pub fn padding_for(n: usize, align: usize) -> (pad: usize)
    requires
        align >= 1,
    ensures
        pad == pad_len(n as nat, align as nat),
        pad < align,
{
    if align == 1 {
        0
    } else {
        (align - n % align) % align
    }
}

/// A buffer of `n` zero bytes.
pub fn zero_bytes(n: usize) -> (out: Vec<u8>)
    ensures
        out@ == zeros(n as nat),
{
    let mut out: Vec<u8> = Vec::new();
    let mut k: usize = 0;
    while k < n
        invariant
            k <= n,
            out@.len() == k,
            forall|j: int| 0 <= j < k ==> out@[j] == 0u8,
        decreases n - k,
    {
        out.push(0u8);
        k = k + 1;
    }
    assert(out@ =~= zeros(n as nat));
    out
}

} // verus!
