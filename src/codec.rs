//! The MLS presentation-language encoding: big-endian integers,
//! variable-length integers (RFC 9420, section 2.1.2) and length-prefixed
//! vectors.
use vstd::prelude::*;

verus! {

/// Largest value a variable-length integer can hold.
pub const MAX_VARINT: u64 = 0x3fff_ffff;

/// `a` is a prefix of `s`.
pub open spec fn prefix_of(a: Seq<u8>, s: Seq<u8>) -> bool {
    a.len() <= s.len() && s.subrange(0, a.len() as int) == a
}

/// The minimal variable-length encoding of `n` (for `n <= MAX_VARINT`).
pub open spec fn varint(n: nat) -> Seq<u8> {
    if n < 64 {
        seq![n as u8]
    } else if n < 16384 {
        seq![(64 + n / 256) as u8, (n % 256) as u8]
    } else {
        seq![(128 + n / 16777216) as u8, (n / 65536 % 256) as u8, (n / 256 % 256) as u8, (n % 256) as u8]
    }
}

proof fn lemma_varint_first(n: nat)
    requires
        n <= MAX_VARINT,
    ensures
        n < 64 ==> varint(n)[0] < 64 && varint(n).len() == 1 && varint(n)[0] == n,
        64 <= n < 16384 ==> 64 <= varint(n)[0] < 128 && varint(n).len() == 2
            && (varint(n)[0] - 64) * 256 + varint(n)[1] == n,
        16384 <= n ==> 128 <= varint(n)[0] < 192 && varint(n).len() == 4
            && (varint(n)[0] - 128) * 16777216 + varint(n)[1] * 65536 + varint(n)[2] * 256 + varint(n)[3] == n,
{
    if n < 64 {
    } else if n < 16384 {
        assert(n / 256 < 64) by (nonlinear_arith) requires n < 16384;
        assert((n / 256) * 256 + n % 256 == n) by (nonlinear_arith);
    } else {
        assert(n / 16777216 < 64) by (nonlinear_arith) requires n <= 0x3fff_ffff;
        assert(n == (n / 16777216) * 16777216 + (n / 65536 % 256) * 65536 + (n / 256 % 256) * 256 + n % 256) by (nonlinear_arith);
    }
}

/// Encodings of different values differ in their first bytes: at most one
/// variable-length integer is a prefix of `s`.
pub proof fn lemma_varint_unique(a: nat, b: nat, s: Seq<u8>)
    requires
        a <= MAX_VARINT,
        b <= MAX_VARINT,
        prefix_of(varint(a), s),
        prefix_of(varint(b), s),
    ensures
        a == b,
{
    lemma_varint_first(a);
    lemma_varint_first(b);
    assert(varint(a)[0] == s[0]);
    assert(varint(b)[0] == s[0]);
    if varint(a).len() >= 2 && varint(b).len() >= 2 {
        assert(varint(a)[1] == s[1]);
        assert(varint(b)[1] == s[1]);
    }
    if varint(a).len() == 4 && varint(b).len() == 4 {
        assert(varint(a)[2] == s[2]);
        assert(varint(b)[2] == s[2]);
        assert(varint(a)[3] == s[3]);
        assert(varint(b)[3] == s[3]);
    }
}

/// Append the variable-length encoding of `n`.
pub fn write_varint(out: &mut Vec<u8>, n: u64)
    requires
        n <= MAX_VARINT,
    ensures
        final(out)@ == old(out)@ + varint(n as nat),
{
    if n < 64 {
        out.push(n as u8);
    } else if n < 16384 {
        out.push((64 + n / 256) as u8);
        out.push((n % 256) as u8);
    } else {
        assert(n / 16777216 < 64) by (nonlinear_arith) requires n <= 0x3fff_ffff;
        out.push((128 + n / 16777216) as u8);
        out.push((n / 65536 % 256) as u8);
        out.push((n / 256 % 256) as u8);
        out.push((n % 256) as u8);
    }
    assert(out@ =~= old(out)@ + varint(n as nat));
}

/// Read a variable-length integer from `data[pos..end]`; non-minimal
/// encodings are refused.
pub fn read_varint(data: &[u8], pos: usize, end: usize) -> (r: Option<(u64, usize)>)
    requires
        pos <= end <= data@.len(),
    ensures
        match r {
            Some((n, p)) => n <= MAX_VARINT && pos <= p <= end
                && data@.subrange(pos as int, p as int) == varint(n as nat),
            None => forall|n: nat| n <= MAX_VARINT ==> !#[trigger] prefix_of(varint(n), data@.subrange(pos as int, end as int)),
        },
{
    let ghost s = data@.subrange(pos as int, end as int);
    if pos >= end {
        return None;
    }
    let b0 = data[pos] as u64;
    let prefix = b0 / 64;
    if prefix == 0 {
        proof {
            assert(data@.subrange(pos as int, pos + 1) =~= varint(b0 as nat));
        }
        Some((b0, pos + 1))
    } else if prefix == 1 {
        if end - pos < 2 {
            proof {
                assert forall|n: nat| n <= MAX_VARINT implies !#[trigger] prefix_of(varint(n), s) by {
                    lemma_varint_first(n);
                    if prefix_of(varint(n), s) {
                        assert(varint(n)[0] == s[0]);
                    }
                }
            }
            return None;
        }
        let n = (b0 - 64) * 256 + data[pos + 1] as u64;
        if n < 64 {
            proof {
                assert forall|m: nat| m <= MAX_VARINT implies !#[trigger] prefix_of(varint(m), s) by {
                    lemma_varint_first(m);
                    if prefix_of(varint(m), s) {
                        assert(varint(m)[0] == s[0]);
                        assert(varint(m)[1] == s[1]);
                    }
                }
            }
            return None;
        }
        proof {
            lemma_varint_first(n as nat);
            assert(n / 256 == b0 - 64 && n % 256 == data@[pos + 1]) by (nonlinear_arith)
                requires n == (b0 - 64) * 256 + data@[pos + 1], 0 <= data@[pos + 1] < 256, 64 <= b0 < 128;
            assert(data@.subrange(pos as int, pos + 2) =~= varint(n as nat));
        }
        Some((n, pos + 2))
    } else if prefix == 2 {
        if end - pos < 4 {
            proof {
                assert forall|n: nat| n <= MAX_VARINT implies !#[trigger] prefix_of(varint(n), s) by {
                    lemma_varint_first(n);
                    if prefix_of(varint(n), s) {
                        assert(varint(n)[0] == s[0]);
                    }
                }
            }
            return None;
        }
        let b1 = data[pos + 1] as u64;
        let b2 = data[pos + 2] as u64;
        let b3 = data[pos + 3] as u64;
        let n = (b0 - 128) * 16777216 + b1 * 65536 + b2 * 256 + b3;
        if n < 16384 {
            proof {
                assert forall|m: nat| m <= MAX_VARINT implies !#[trigger] prefix_of(varint(m), s) by {
                    lemma_varint_first(m);
                    if prefix_of(varint(m), s) {
                        assert(varint(m)[0] == s[0]);
                        assert(varint(m)[1] == s[1]);
                        assert(varint(m)[2] == s[2]);
                        assert(varint(m)[3] == s[3]);
                    }
                }
            }
            return None;
        }
        proof {
            lemma_varint_first(n as nat);
            assert(n / 16777216 == b0 - 128 && n / 65536 % 256 == b1 && n / 256 % 256 == b2 && n % 256 == b3)
                by (nonlinear_arith)
                requires n == (b0 - 128) * 16777216 + b1 * 65536 + b2 * 256 + b3,
                    0 <= b1 < 256, 0 <= b2 < 256, 0 <= b3 < 256, 128 <= b0 < 192;
            assert(data@.subrange(pos as int, pos + 4) =~= varint(n as nat));
        }
        Some((n, pos + 4))
    } else {
        proof {
            assert forall|n: nat| n <= MAX_VARINT implies !#[trigger] prefix_of(varint(n), s) by {
                lemma_varint_first(n);
                if prefix_of(varint(n), s) {
                    assert(varint(n)[0] == s[0]);
                }
            }
        }
        None
    }
}


pub proof fn lemma_prefix_split(a: Seq<u8>, b: Seq<u8>, s: Seq<u8>)
    requires
        prefix_of(a + b, s),
    ensures
        prefix_of(a, s),
        prefix_of(b, s.subrange(a.len() as int, s.len() as int)),
{
    let t = s.subrange(0, (a + b).len() as int);
    assert(t == a + b);
    assert(s.subrange(0, a.len() as int) =~= t.subrange(0, a.len() as int));
    assert(t.subrange(0, a.len() as int) =~= a);
    let rest = s.subrange(a.len() as int, s.len() as int);
    assert(rest.subrange(0, b.len() as int) =~= t.subrange(a.len() as int, t.len() as int));
    assert(t.subrange(a.len() as int, t.len() as int) =~= b);
}

/// A value with a canonical byte encoding that can be read back.
pub trait Codec: Sized {
    /// The encoding of the value.
    spec fn enc(&self) -> Seq<u8>;

    /// The value fits the encoding's length limits.
    spec fn encodable(&self) -> bool;

    /// At most one encoding of a value is a prefix of `s`.
    proof fn lemma_unique(a: &Self, b: &Self, s: Seq<u8>)
        requires
            a.encodable(),
            b.encodable(),
            prefix_of(a.enc(), s),
            prefix_of(b.enc(), s),
        ensures
            a.enc() == b.enc(),
    ;

    /// Encodings are never empty.
    proof fn lemma_nonempty(a: &Self)
        ensures
            a.enc().len() > 0,
    ;

    /// Whether the value fits the encoding's length limits.
    fn is_encodable(&self) -> (r: bool)
        ensures
            r == self.encodable(),
    ;

    /// Append the encoding of `self`.
    fn encode(&self, out: &mut Vec<u8>)
        requires
            self.encodable(),
        ensures
            final(out)@ == old(out)@ + self.enc(),
    ;

    /// Read a value at the start of `data[pos..end]`.
    fn decode(data: &[u8], pos: usize, end: usize) -> (r: Option<(Self, usize)>)
        requires
            pos <= end <= data@.len(),
        ensures
            match r {
                Some((x, p)) => pos <= p <= end && data@.subrange(pos as int, p as int) == x.enc() && x.encodable(),
                None => forall|x: Self| x.encodable() ==> !#[trigger] prefix_of(x.enc(), data@.subrange(pos as int, end as int)),
            },
    ;
}

proof fn lemma_fixed_unique(a: Seq<u8>, b: Seq<u8>, s: Seq<u8>)
    requires
        a.len() == b.len(),
        prefix_of(a, s),
        prefix_of(b, s),
    ensures
        a == b,
{
}

impl Codec for u8 {
    open spec fn enc(&self) -> Seq<u8> {
        seq![*self]
    }

    open spec fn encodable(&self) -> bool {
        true
    }

    proof fn lemma_unique(a: &Self, b: &Self, s: Seq<u8>) {
        lemma_fixed_unique(a.enc(), b.enc(), s);
    }

    proof fn lemma_nonempty(a: &Self) {
    }

    fn is_encodable(&self) -> (r: bool) {
        true
    }

    fn encode(&self, out: &mut Vec<u8>) {
        out.push(*self);
        assert(out@ =~= old(out)@ + self.enc());
    }

    fn decode(data: &[u8], pos: usize, end: usize) -> (r: Option<(Self, usize)>) {
        if pos < end {
            assert(data@.subrange(pos as int, pos + 1) =~= seq![data@[pos as int]]);
            Some((data[pos], pos + 1))
        } else {
            None
        }
    }
}

/// Big-endian bytes of a 16-bit value.
pub open spec fn be16(v: u16) -> Seq<u8> {
    seq![(v / 256) as u8, (v % 256) as u8]
}

impl Codec for u16 {
    open spec fn enc(&self) -> Seq<u8> {
        be16(*self)
    }

    open spec fn encodable(&self) -> bool {
        true
    }

    proof fn lemma_unique(a: &Self, b: &Self, s: Seq<u8>) {
        lemma_fixed_unique(a.enc(), b.enc(), s);
    }

    proof fn lemma_nonempty(a: &Self) {
    }

    fn is_encodable(&self) -> (r: bool) {
        true
    }

    fn encode(&self, out: &mut Vec<u8>) {
        out.push((*self / 256) as u8);
        out.push((*self % 256) as u8);
        assert(out@ =~= old(out)@ + self.enc());
    }

    fn decode(data: &[u8], pos: usize, end: usize) -> (r: Option<(Self, usize)>) {
        if end - pos >= 2 {
            let hi = data[pos] as u16;
            let lo = data[pos + 1] as u16;
            let v: u16 = hi * 256 + lo;
            assert(v / 256 == hi && v % 256 == lo) by (nonlinear_arith)
                requires v == hi * 256 + lo, 0 <= lo < 256;
            assert(data@.subrange(pos as int, pos + 2) =~= be16(v));
            Some((v, pos + 2))
        } else {
            None
        }
    }
}

/// Big-endian bytes of a 32-bit value.
pub open spec fn be32(v: u32) -> Seq<u8> {
    seq![(v / 16777216) as u8, (v / 65536 % 256) as u8, (v / 256 % 256) as u8, (v % 256) as u8]
}

fn read_be32(data: &[u8], pos: usize) -> (r: u32)
    requires
        pos + 4 <= data@.len(),
    ensures
        data@.subrange(pos as int, pos + 4) == be32(r),
{
    let b0 = data[pos] as u32;
    let b1 = data[pos + 1] as u32;
    let b2 = data[pos + 2] as u32;
    let b3 = data[pos + 3] as u32;
    assert(b0 * 16777216 + b1 * 65536 + b2 * 256 + b3 <= 0xffff_ffff) by (nonlinear_arith)
        requires b0 < 256, b1 < 256, b2 < 256, b3 < 256;
    let v: u32 = b0 * 16777216 + b1 * 65536 + b2 * 256 + b3;
    assert(v / 16777216 == b0 && v / 65536 % 256 == b1 && v / 256 % 256 == b2 && v % 256 == b3)
        by (nonlinear_arith)
        requires v == b0 * 16777216 + b1 * 65536 + b2 * 256 + b3, b1 < 256, b2 < 256, b3 < 256;
    assert(data@.subrange(pos as int, pos + 4) =~= be32(v));
    v
}

impl Codec for u32 {
    open spec fn enc(&self) -> Seq<u8> {
        be32(*self)
    }

    open spec fn encodable(&self) -> bool {
        true
    }

    proof fn lemma_unique(a: &Self, b: &Self, s: Seq<u8>) {
        lemma_fixed_unique(a.enc(), b.enc(), s);
    }

    proof fn lemma_nonempty(a: &Self) {
    }

    fn is_encodable(&self) -> (r: bool) {
        true
    }

    fn encode(&self, out: &mut Vec<u8>) {
        let v = *self;
        assert(v / 16777216 < 256) by (nonlinear_arith) requires v <= 0xffff_ffff;
        out.push((v / 16777216) as u8);
        out.push((v / 65536 % 256) as u8);
        out.push((v / 256 % 256) as u8);
        out.push((v % 256) as u8);
        assert(out@ =~= old(out)@ + self.enc());
    }

    fn decode(data: &[u8], pos: usize, end: usize) -> (r: Option<(Self, usize)>) {
        if end - pos >= 4 {
            Some((read_be32(data, pos), pos + 4))
        } else {
            None
        }
    }
}

/// Big-endian bytes of a 64-bit value.
pub open spec fn be64(v: u64) -> Seq<u8> {
    be32((v / 4294967296) as u32) + be32((v % 4294967296) as u32)
}

impl Codec for u64 {
    open spec fn enc(&self) -> Seq<u8> {
        be64(*self)
    }

    open spec fn encodable(&self) -> bool {
        true
    }

    proof fn lemma_unique(a: &Self, b: &Self, s: Seq<u8>) {
        lemma_fixed_unique(a.enc(), b.enc(), s);
    }

    proof fn lemma_nonempty(a: &Self) {
    }

    fn is_encodable(&self) -> (r: bool) {
        true
    }

    fn encode(&self, out: &mut Vec<u8>) {
        let v = *self;
        assert(v / 4294967296 <= 0xffff_ffff) by (nonlinear_arith) requires v <= 0xffff_ffff_ffff_ffff;
        let hi = (v / 4294967296) as u32;
        let lo = (v % 4294967296) as u32;
        hi.encode(out);
        lo.encode(out);
        assert(out@ =~= old(out)@ + self.enc());
    }

    fn decode(data: &[u8], pos: usize, end: usize) -> (r: Option<(Self, usize)>) {
        if end - pos >= 8 {
            let hi = read_be32(data, pos);
            let lo = read_be32(data, pos + 4);
            assert(hi as u64 * 4294967296 + lo as u64 <= 0xffff_ffff_ffff_ffff) by (nonlinear_arith)
                requires hi <= 0xffff_ffff, lo <= 0xffff_ffff;
            let v: u64 = hi as u64 * 4294967296 + lo as u64;
            assert(v / 4294967296 == hi && v % 4294967296 == lo) by (nonlinear_arith)
                requires v == hi * 4294967296 + lo, lo <= 0xffff_ffff;
            assert(data@.subrange(pos as int, pos + 8) =~= data@.subrange(pos as int, pos + 4) + data@.subrange(pos + 4, pos + 8));
            Some((v, pos + 8))
        } else {
            None
        }
    }
}


impl<A: Codec, B: Codec> Codec for (A, B) {
    open spec fn enc(&self) -> Seq<u8> {
        self.0.enc() + self.1.enc()
    }

    open spec fn encodable(&self) -> bool {
        self.0.encodable() && self.1.encodable()
    }

    proof fn lemma_unique(a: &Self, b: &Self, s: Seq<u8>) {
        lemma_prefix_split(a.0.enc(), a.1.enc(), s);
        lemma_prefix_split(b.0.enc(), b.1.enc(), s);
        A::lemma_unique(&a.0, &b.0, s);
        B::lemma_unique(&a.1, &b.1, s.subrange(a.0.enc().len() as int, s.len() as int));
    }

    proof fn lemma_nonempty(a: &Self) {
        A::lemma_nonempty(&a.0);
    }

    fn is_encodable(&self) -> (r: bool) {
        self.0.is_encodable() && self.1.is_encodable()
    }

    fn encode(&self, out: &mut Vec<u8>) {
        self.0.encode(out);
        self.1.encode(out);
        assert(out@ =~= old(out)@ + self.enc());
    }

    fn decode(data: &[u8], pos: usize, end: usize) -> (r: Option<(Self, usize)>) {
        let ghost s = data@.subrange(pos as int, end as int);
        let (a, p1) = match A::decode(data, pos, end) {
            Some(x) => x,
            None => {
                proof {
                    assert forall|x: (A, B)| x.encodable() implies !#[trigger] prefix_of(x.enc(), s) by {
                        if prefix_of(x.enc(), s) {
                            lemma_prefix_split(x.0.enc(), x.1.enc(), s);
                        }
                    }
                }
                return None;
            },
        };
        proof {
            assert(s.subrange(0, (p1 - pos) as int) =~= data@.subrange(pos as int, p1 as int));
            assert(s.subrange((p1 - pos) as int, s.len() as int) =~= data@.subrange(p1 as int, end as int));
        }
        let (b, p2) = match B::decode(data, p1, end) {
            Some(x) => x,
            None => {
                proof {
                    assert forall|x: (A, B)| x.encodable() implies !#[trigger] prefix_of(x.enc(), s) by {
                        if prefix_of(x.enc(), s) {
                            lemma_prefix_split(x.0.enc(), x.1.enc(), s);
                            A::lemma_unique(&a, &x.0, s);
                        }
                    }
                }
                return None;
            },
        };
        proof {
            assert(data@.subrange(pos as int, p2 as int) =~= data@.subrange(pos as int, p1 as int) + data@.subrange(p1 as int, p2 as int));
        }
        Some(((a, b), p2))
    }
}

impl<T: Codec> Codec for Option<T> {
    open spec fn enc(&self) -> Seq<u8> {
        match self {
            None => seq![0u8],
            Some(x) => seq![1u8] + x.enc(),
        }
    }

    open spec fn encodable(&self) -> bool {
        match self {
            None => true,
            Some(x) => x.encodable(),
        }
    }

    proof fn lemma_unique(a: &Self, b: &Self, s: Seq<u8>) {
        assert(a.enc()[0] == s[0]);
        assert(b.enc()[0] == s[0]);
        match (a, b) {
            (Some(x), Some(y)) => {
                lemma_prefix_split(seq![1u8], x.enc(), s);
                lemma_prefix_split(seq![1u8], y.enc(), s);
                T::lemma_unique(x, y, s.subrange(1, s.len() as int));
            },
            _ => {},
        }
    }

    proof fn lemma_nonempty(a: &Self) {
    }

    fn is_encodable(&self) -> (r: bool) {
        match self {
            None => true,
            Some(x) => x.is_encodable(),
        }
    }

    fn encode(&self, out: &mut Vec<u8>) {
        match self {
            None => {
                out.push(0u8);
            },
            Some(x) => {
                out.push(1u8);
                x.encode(out);
            },
        }
        assert(out@ =~= old(out)@ + self.enc());
    }

    fn decode(data: &[u8], pos: usize, end: usize) -> (r: Option<(Self, usize)>) {
        let ghost s = data@.subrange(pos as int, end as int);
        if pos >= end {
            return None;
        }
        let tag = data[pos];
        if tag == 0 {
            assert(data@.subrange(pos as int, pos + 1) =~= seq![0u8]);
            Some((None, pos + 1))
        } else if tag == 1 {
            match T::decode(data, pos + 1, end) {
                Some((x, p)) => {
                    assert(data@.subrange(pos as int, p as int) =~= seq![1u8] + data@.subrange(pos + 1, p as int));
                    Some((Some(x), p))
                },
                None => {
                    proof {
                        assert forall|x: Option<T>| x.encodable() implies !#[trigger] prefix_of(x.enc(), s) by {
                            if prefix_of(x.enc(), s) {
                                assert(x.enc()[0] == s[0]);
                                match x {
                                    Some(y) => {
                                        lemma_prefix_split(seq![1u8], y.enc(), s);
                                        assert(s.subrange(1, s.len() as int) =~= data@.subrange(pos + 1, end as int));
                                    },
                                    None => {},
                                }
                            }
                        }
                    }
                    None
                },
            }
        } else {
            proof {
                assert forall|x: Option<T>| x.encodable() implies !#[trigger] prefix_of(x.enc(), s) by {
                    if prefix_of(x.enc(), s) {
                        assert(x.enc()[0] == s[0]);
                    }
                }
            }
            None
        }
    }
}

/// The encodings of the items of `s`, one after the other.
pub open spec fn concat_enc<T: Codec>(s: Seq<T>) -> Seq<u8>
    decreases s.len(),
{
    if s.len() == 0 {
        Seq::empty()
    } else {
        s[0].enc() + concat_enc(s.drop_first())
    }
}

proof fn lemma_concat_push<T: Codec>(s: Seq<T>, x: T)
    ensures
        concat_enc(s.push(x)) == concat_enc(s) + x.enc(),
    decreases s.len(),
{
    if s.len() == 0 {
        assert(s.push(x).drop_first() =~= Seq::<T>::empty());
        assert(concat_enc(s.push(x).drop_first()) == Seq::<u8>::empty());
        assert(s.push(x)[0] == x);
        assert(concat_enc(s.push(x)) =~= concat_enc(s) + x.enc());
    } else {
        lemma_concat_push(s.drop_first(), x);
        assert(s.push(x).drop_first() =~= s.drop_first().push(x));
        assert(concat_enc(s.push(x)) =~= concat_enc(s) + x.enc());
    }
}

/// Reading a vector got stuck at `p`: no item is encoded there, so no
/// vector is encoded at `pos`.
proof fn lemma_list_stuck<T: Codec>(data: Seq<u8>, pos: int, end: int, start: int, stop: int, p: int, items: Seq<T>)
    requires
        0 <= pos <= start <= p < stop <= end <= data.len(),
        stop - start <= MAX_VARINT,
        data.subrange(pos, start) == varint((stop - start) as nat),
        concat_enc(items) == data.subrange(start, p),
        all_encodable(items),
        forall|x: T| x.encodable() ==> !#[trigger] prefix_of(x.enc(), data.subrange(p, stop)),
    ensures
        forall|xs: Vec<T>| xs.encodable() ==> !#[trigger] prefix_of(xs.enc(), data.subrange(pos, end)),
{
    let s = data.subrange(pos, end);
    let len = (stop - start) as nat;
    let region = data.subrange(start, stop);
    assert(s.subrange(0, start - pos) =~= data.subrange(pos, start));
    assert(prefix_of(varint(len), s));
    assert forall|xs: Vec<T>| xs.encodable() implies !#[trigger] prefix_of(xs.enc(), s) by {
        if prefix_of(xs.enc(), s) {
            lemma_prefix_split(varint(concat_enc(xs@).len()), concat_enc(xs@), s);
            lemma_varint_unique(concat_enc(xs@).len(), len, s);
            assert(s.subrange(varint(len).len() as int, s.len() as int).subrange(0, len as int) =~= region);
            assert(concat_enc(xs@) == region);
            assert(region.subrange(0, concat_enc(items).len() as int) =~= data.subrange(start, p));
            assert(prefix_of(concat_enc(items), region));
            lemma_concat_align(xs@, items, region);
            let j = choose|j: int| 0 <= j < xs@.len() && #[trigger] prefix_of(xs@[j].enc(), region.subrange(concat_enc(items).len() as int, region.len() as int));
            assert(region.subrange(concat_enc(items).len() as int, region.len() as int) =~= data.subrange(p, stop));
            assert(xs@[j].encodable());
        }
    }
}

/// All items of `s` are encodable.
pub open spec fn all_encodable<T: Codec>(s: Seq<T>) -> bool {
    forall|i: int| 0 <= i < s.len() ==> #[trigger] s[i].encodable()
}

/// If `xs` encodes to `r` and `ys` to a proper prefix of `r`, some item of
/// `xs` is encoded at the point where `ys` stops.
proof fn lemma_concat_align<T: Codec>(xs: Seq<T>, ys: Seq<T>, r: Seq<u8>)
    requires
        all_encodable(xs),
        all_encodable(ys),
        concat_enc(xs) == r,
        prefix_of(concat_enc(ys), r),
        concat_enc(ys).len() < r.len(),
    ensures
        exists|j: int| 0 <= j < xs.len() && #[trigger] prefix_of(xs[j].enc(), r.subrange(concat_enc(ys).len() as int, r.len() as int)),
    decreases ys.len(),
{
    if xs.len() == 0 {
        assert(r.len() == 0);
    }
    assert(r.subrange(0, r.len() as int) =~= r);
    lemma_prefix_split(xs[0].enc(), concat_enc(xs.drop_first()), r);
    if ys.len() == 0 {
        assert(r.subrange(0, r.len() as int) =~= r);
        assert(prefix_of(xs[0].enc(), r.subrange(concat_enc(ys).len() as int, r.len() as int)));
    } else {
        lemma_prefix_split(ys[0].enc(), concat_enc(ys.drop_first()), r);
        T::lemma_unique(&xs[0], &ys[0], r);
        let k = xs[0].enc().len() as int;
        let r2 = r.subrange(k, r.len() as int);
        assert(r2 =~= concat_enc(xs.drop_first()));
        lemma_concat_align(xs.drop_first(), ys.drop_first(), r2);
        let j = choose|j: int| 0 <= j < xs.drop_first().len() && #[trigger] prefix_of(xs.drop_first()[j].enc(), r2.subrange(concat_enc(ys.drop_first()).len() as int, r2.len() as int));
        assert(r2.subrange(concat_enc(ys.drop_first()).len() as int, r2.len() as int) =~= r.subrange(concat_enc(ys).len() as int, r.len() as int));
        assert(xs[j + 1] == xs.drop_first()[j]);
    }
}

impl<T: Codec> Codec for Vec<T> {
    open spec fn enc(&self) -> Seq<u8> {
        varint(concat_enc(self@).len()) + concat_enc(self@)
    }

    open spec fn encodable(&self) -> bool {
        all_encodable(self@) && concat_enc(self@).len() <= MAX_VARINT
    }

    proof fn lemma_unique(a: &Self, b: &Self, s: Seq<u8>) {
        let la = concat_enc(a@).len();
        let lb = concat_enc(b@).len();
        lemma_prefix_split(varint(la), concat_enc(a@), s);
        lemma_prefix_split(varint(lb), concat_enc(b@), s);
        lemma_varint_unique(la, lb, s);
        assert(a.enc() =~= b.enc());
    }

    proof fn lemma_nonempty(a: &Self) {
    }

    fn is_encodable(&self) -> (r: bool) {
        let mut i: usize = 0;
        while i < self.len()
            invariant
                i <= self@.len(),
                forall|j: int| 0 <= j < i ==> #[trigger] self@[j].encodable(),
            decreases self@.len() - i,
        {
            if !self[i].is_encodable() {
                return false;
            }
            i = i + 1;
        }
        let mut body: Vec<u8> = Vec::new();
        let mut i: usize = 0;
        while i < self.len()
            invariant
                i <= self@.len(),
                all_encodable(self@),
                body@ == concat_enc(self@.take(i as int)),
            decreases self@.len() - i,
        {
            proof {
                lemma_concat_push(self@.take(i as int), self@[i as int]);
                assert(self@.take(i + 1) =~= self@.take(i as int).push(self@[i as int]));
            }
            self[i].encode(&mut body);
            i = i + 1;
        }
        proof {
            assert(self@.take(i as int) =~= self@);
        }
        body.len() as u64 <= MAX_VARINT
    }

    fn encode(&self, out: &mut Vec<u8>) {
        let mut body: Vec<u8> = Vec::new();
        let mut i: usize = 0;
        while i < self.len()
            invariant
                i <= self@.len(),
                all_encodable(self@),
                body@ == concat_enc(self@.take(i as int)),
            decreases self@.len() - i,
        {
            proof {
                lemma_concat_push(self@.take(i as int), self@[i as int]);
                assert(self@.take(i + 1) =~= self@.take(i as int).push(self@[i as int]));
            }
            self[i].encode(&mut body);
            i = i + 1;
        }
        proof {
            assert(self@.take(i as int) =~= self@);
        }
        write_varint(out, body.len() as u64);
        out.append(&mut body);
        assert(out@ =~= old(out)@ + self.enc());
    }

    fn decode(data: &[u8], pos: usize, end: usize) -> (r: Option<(Self, usize)>) {
        let ghost s = data@.subrange(pos as int, end as int);
        let (len, start) = match read_varint(data, pos, end) {
            Some(x) => x,
            None => {
                proof {
                    assert forall|x: Vec<T>| x.encodable() implies !#[trigger] prefix_of(x.enc(), s) by {
                        if prefix_of(x.enc(), s) {
                            lemma_prefix_split(varint(concat_enc(x@).len()), concat_enc(x@), s);
                        }
                    }
                }
                return None;
            },
        };
        proof {
            assert(s.subrange(0, (start - pos) as int) =~= data@.subrange(pos as int, start as int));
        }
        if len as usize > end - start {
            proof {
                assert forall|x: Vec<T>| x.encodable() implies !#[trigger] prefix_of(x.enc(), s) by {
                    if prefix_of(x.enc(), s) {
                        lemma_prefix_split(varint(concat_enc(x@).len()), concat_enc(x@), s);
                        assert(prefix_of(varint(len as nat), s));
                        lemma_varint_unique(concat_enc(x@).len(), len as nat, s);
                        assert(data@.subrange(pos as int, start as int).len() == varint(len as nat).len());
                    }
                }
            }
            return None;
        }
        let stop = start + len as usize;
        let mut items: Vec<T> = Vec::new();
        let mut p = start;
        while p < stop
            invariant
                pos <= start <= p <= stop <= end <= data@.len(),
                stop == start + len,
                len <= MAX_VARINT,
                data@.subrange(pos as int, start as int) == varint(len as nat),
                concat_enc(items@) == data@.subrange(start as int, p as int),
                all_encodable(items@),
            decreases stop - p,
        {
            match T::decode(data, p, stop) {
                Some((x, q)) => {
                    proof {
                        T::lemma_nonempty(&x);
                        lemma_concat_push(items@, x);
                        assert(data@.subrange(start as int, q as int) =~= data@.subrange(start as int, p as int) + data@.subrange(p as int, q as int));
                    }
                    items.push(x);
                    p = q;
                },
                None => {
                    proof {
                        lemma_list_stuck::<T>(data@, pos as int, end as int, start as int, stop as int, p as int, items@);
                    }
                    return None;
                },
            }
        }
        proof {
            assert(data@.subrange(pos as int, stop as int) =~= data@.subrange(pos as int, start as int) + data@.subrange(start as int, stop as int));
        }
        Some((items, stop))
    }
}

} // verus!
