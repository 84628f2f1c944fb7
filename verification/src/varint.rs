//! Variable-length integer codec: seven value bits per byte, least
//! significant group first, with the high bit of every byte but the last
//! set as a continuation marker.

use vstd::prelude::*;

verus! {

/// The encoding of `v`: seven bits per byte, least significant group first,
/// continuation bit (0x80) set on every byte but the last.
pub open spec fn varint_bytes(v: nat) -> Seq<u8>
    decreases v,
{
    if v < 128 {
        seq![v as u8]
    } else {
        seq![(v % 128 + 128) as u8] + varint_bytes(v / 128)
    }
}

/// The value that a sequence of seven-bit groups stands for, least
/// significant group first; continuation bits are ignored.
pub open spec fn varint_value(s: Seq<u8>) -> nat
    decreases s.len(),
{
    if s.len() == 0 {
        0
    } else {
        (s[0] % 128) as nat + 128 * varint_value(s.drop_first())
    }
}

/// The leading bytes of `s` up to and including the first byte whose
/// continuation bit is clear (all of `s` if every byte has it set).
pub open spec fn varint_prefix(s: Seq<u8>) -> Seq<u8>
    decreases s.len(),
{
    if s.len() == 0 {
        Seq::empty()
    } else if s[0] < 128 {
        seq![s[0]]
    } else {
        seq![s[0]] + varint_prefix(s.drop_first())
    }
}

/// Powers of 128; `p128(e)` is the weight of the `e`-th seven-bit group.
pub open spec fn p128(e: nat) -> nat
    decreases e,
{
    if e == 0 {
        1
    } else {
        128 * p128((e - 1) as nat)
    }
}

/// One more than the largest value a `u128` can hold.
pub open spec fn m128() -> nat {
    0x10000000000000000 * 0x10000000000000000
}

/// A cursor over a byte buffer; the view is the bytes not yet read.
pub struct ByteStream {
    data: Vec<u8>,
    pos: usize,
}

impl View for ByteStream {
    type V = Seq<u8>;

    closed spec fn view(&self) -> Seq<u8> {
        self.data@.skip(self.pos as int)
    }
}

impl ByteStream {
    pub closed spec fn wf(&self) -> bool {
        self.pos <= self.data@.len()
    }

    pub fn new(data: Vec<u8>) -> (r: ByteStream)
        ensures
            r.wf(),
            r@ == data@,
    {
        let r = ByteStream { data, pos: 0 };
        proof {
            assert(r@ =~= r.data@);
        }
        r
    }

    /// Remove and return the front byte, or `None` at the end of the buffer.
    pub fn next(&mut self) -> (r: Option<u8>)
        requires
            old(self).wf(),
        ensures
            final(self).wf(),
            old(self)@.len() == 0 ==> r is None && final(self)@ == old(self)@,
            old(self)@.len() > 0 ==> r == Some(old(self)@[0]) && final(self)@ == old(
                self,
            )@.drop_first(),
    {
        if self.pos < self.data.len() {
            let b = self.data[self.pos];
            self.pos = self.pos + 1;
            proof {
                assert(self@ =~= old(self)@.drop_first());
            }
            Some(b)
        } else {
            None
        }
    }
}

/// Encode `value`, returning its byte encoding.
pub fn encode(value: u128) -> (r: Vec<u8>)
    ensures
        r@ == varint_bytes(value as nat),
{
    let mut data: Vec<u8> = Vec::new();
    let mut v: u128 = value;
    while v > 0x7f
        invariant
            varint_bytes(value as nat) =~= data@ + varint_bytes(v as nat),
        decreases v,
    {
        data.push(((v % 128) + 128) as u8);
        v = v / 128;
        proof {
            assert(varint_bytes(value as nat) =~= data@ + varint_bytes(v as nat));
        }
    }
    data.push(v as u8);
    proof {
        assert(data@ =~= varint_bytes(value as nat));
    }
    data
}

/// If every byte of `a` has its continuation bit set, the varint prefix of
/// `a + rest` is `a` followed by the prefix of `rest`.
proof fn lemma_prefix_cont(a: Seq<u8>, rest: Seq<u8>)
    requires
        forall|j: int| 0 <= j < a.len() ==> a[j] >= 128,
    ensures
        varint_prefix(a + rest) == a + varint_prefix(rest),
    decreases a.len(),
{
    if a.len() == 0 {
        assert(a + rest =~= rest);
        assert(a + varint_prefix(rest) =~= varint_prefix(rest));
    } else {
        assert((a + rest)[0] == a[0]);
        assert((a + rest).drop_first() =~= a.drop_first() + rest);
        lemma_prefix_cont(a.drop_first(), rest);
        assert(varint_prefix(a + rest) == seq![a[0]] + (a.drop_first() + varint_prefix(rest)));
        assert(seq![a[0]] + (a.drop_first() + varint_prefix(rest)) =~= a + varint_prefix(rest));
    }
}

/// If `s` is a complete varint (continuation bits on all but its final
/// byte), the varint prefix of `s + rest` is exactly `s`.
proof fn lemma_prefix_terminated(s: Seq<u8>, rest: Seq<u8>)
    requires
        s.len() >= 1,
        forall|j: int| 0 <= j < s.len() - 1 ==> s[j] >= 128,
        s[s.len() - 1] < 128,
    ensures
        varint_prefix(s + rest) == s,
{
    let a = s.drop_last();
    let tail = seq![s[s.len() - 1]] + rest;
    assert(s + rest =~= a + tail);
    lemma_prefix_cont(a, tail);
    assert(varint_prefix(tail) == seq![tail[0]]);
    assert(a + varint_prefix(tail) =~= s);
}

/// The bytes of an encoding: at least one byte, continuation bits on all
/// but the last, none on the last.
proof fn lemma_varint_bytes_form(v: nat)
    ensures
        varint_bytes(v).len() >= 1,
        forall|j: int| 0 <= j < varint_bytes(v).len() - 1 ==> varint_bytes(v)[j] >= 128,
        varint_bytes(v)[varint_bytes(v).len() - 1] < 128,
    decreases v,
{
    if v < 128 {
    } else {
        lemma_varint_bytes_form(v / 128);
        let b = (v % 128 + 128) as u8;
        let s = varint_bytes(v);
        let t = varint_bytes(v / 128);
        assert(s == seq![b] + t);
        assert(b >= 128);
        assert(forall|j: int| 1 <= j < s.len() ==> s[j] == t[j - 1]);
    }
}

/// Decoding inverts encoding at the level of the specification functions.
proof fn lemma_varint_value_of_bytes(v: nat)
    ensures
        varint_value(varint_bytes(v)) == v,
    decreases v,
{
    if v < 128 {
        let s = varint_bytes(v);
        assert(s[0] == v as u8);
        assert(s.drop_first() =~= Seq::<u8>::empty());
        assert(varint_value(s.drop_first()) == 0);
        assert((v as u8) % 128 == v);
    } else {
        lemma_varint_value_of_bytes(v / 128);
        let b = (v % 128 + 128) as u8;
        let s = varint_bytes(v);
        let t = varint_bytes(v / 128);
        assert(s == seq![b] + t);
        assert(s.drop_first() =~= t);
        assert(s[0] == b);
        assert(b % 128 == v % 128) by {
            assert(v % 128 < 128);
        };
        assert(varint_value(s) == v % 128 + 128 * (v / 128));
        vstd::arithmetic::div_mod::lemma_fundamental_div_mod(v as int, 128);
    }
}

/// An encoding of a value below `p128(n)` takes at most `n` bytes.
proof fn lemma_varint_bytes_len(v: nat, n: nat)
    requires
        n >= 1,
        v < p128(n),
    ensures
        varint_bytes(v).len() <= n,
    decreases n,
{
    if v < 128 {
    } else {
        assert(n >= 2) by {
            reveal_with_fuel(p128, 3);
            if n == 1 {
                assert(p128(1int as nat) == 128);
            }
        };
        assert(p128(n) == 128 * p128((n - 1) as nat));
        assert(v / 128 < p128((n - 1) as nat)) by (nonlinear_arith)
            requires
                v < 128 * p128((n - 1) as nat),
                p128((n - 1) as nat) >= 1,
        ;
        lemma_varint_bytes_len(v / 128, (n - 1) as nat);
    }
}

/// `p128` is monotone in its exponent.
proof fn lemma_p128_le(e1: nat, e2: nat)
    requires
        e1 <= e2,
    ensures
        p128(e1) <= p128(e2),
        p128(e1) >= 1,
    decreases e2,
{
    if e2 == 0 {
    } else if e1 == e2 {
        lemma_p128_le((e2 - 1) as nat, (e2 - 1) as nat);
    } else {
        lemma_p128_le(e1, (e2 - 1) as nat);
    }
}

/// The concrete powers of 128 that the decoder's bounds rest on.
proof fn lemma_p128_values()
    ensures
        p128(18) == 0x40000000000000000000000000000000,
        p128(19) == 32 * m128(),
        m128() == 4 * p128(18),
        p128(18) < m128(),
        u128::MAX < p128(19),
{
    reveal_with_fuel(p128, 20);
}

/// A sequence of seven-bit groups of length `n` stands for a value below
/// `p128(n)`.
proof fn lemma_varint_value_bound(s: Seq<u8>)
    ensures
        varint_value(s) < p128(s.len()),
    decreases s.len(),
{
    if s.len() == 0 {
    } else {
        lemma_varint_value_bound(s.drop_first());
        assert(p128(s.len()) == 128 * p128((s.len() - 1) as nat));
    }
}

/// Appending one more group adds its value at the next power of 128.
proof fn lemma_varint_value_push(s: Seq<u8>, b: u8)
    ensures
        varint_value(s.push(b)) == varint_value(s) + (b % 128) * p128(s.len()),
    decreases s.len(),
{
    if s.len() == 0 {
        let p = s.push(b);
        assert(p[0] == b);
        assert(p.drop_first() =~= Seq::<u8>::empty());
        assert(varint_value(p.drop_first()) == 0);
        assert(varint_value(p) == (b % 128) as nat);
        assert(p128(0) == 1);
        assert(varint_value(s) == 0);
    } else {
        lemma_varint_value_push(s.drop_first(), b);
        let p = s.push(b);
        let n1 = (s.len() - 1) as nat;
        assert(p[0] == s[0]);
        assert(p.drop_first() =~= s.drop_first().push(b));
        assert(s.drop_first().len() == n1);
        assert(varint_value(p.drop_first()) == varint_value(s.drop_first()) + (b % 128) * p128(
            n1,
        ));
        assert(varint_value(p) == (s[0] % 128) as nat + 128 * varint_value(p.drop_first()));
        assert(128 * (varint_value(s.drop_first()) + (b % 128) * p128(n1)) == 128 * varint_value(
            s.drop_first(),
        ) + (b % 128) * (128 * p128(n1))) by (nonlinear_arith);
        assert(p128(s.len()) == 128 * p128(n1));
        assert(varint_value(s) == (s[0] % 128) as nat + 128 * varint_value(s.drop_first()));
    }
}

/// Law: encoding never yields more than 19 bytes, its varint prefix is the
/// whole encoding, and decoding it yields the value back.
pub proof fn lemma_encode_decode_round_trip(v: u128, rest: Seq<u8>)
    ensures
        varint_bytes(v as nat).len() <= 19,
        varint_prefix(varint_bytes(v as nat) + rest) == varint_bytes(v as nat),
        varint_value(varint_bytes(v as nat)) == v as nat,
{
    lemma_p128_values();
    lemma_varint_bytes_len(v as nat, 19);
    lemma_varint_bytes_form(v as nat);
    lemma_prefix_terminated(varint_bytes(v as nat), rest);
    lemma_varint_value_of_bytes(v as nat);
}

/// Take bytes while the continuation bit is set, and also the byte that
/// ends the run (the whole remainder if the stream ends first).
pub fn take_until_inclusive(stream: &mut ByteStream) -> (r: Vec<u8>)
    requires
        old(stream).wf(),
    ensures
        final(stream).wf(),
        r@ == varint_prefix(old(stream)@),
        final(stream)@ == old(stream)@.skip(r@.len() as int),
{
    let mut out: Vec<u8> = Vec::new();
    let ghost orig: Seq<u8> = stream@;
    loop
        invariant
            stream.wf(),
            orig == out@ + stream@,
            orig == old(stream)@,
            forall|j: int| 0 <= j < out@.len() ==> out@[j] >= 128,
        decreases stream@.len(),
    {
        let ghost before: Seq<u8> = stream@;
        match stream.next() {
            None => {
                proof {
                    assert(out@ + Seq::<u8>::empty() =~= out@);
                    lemma_prefix_cont(out@, Seq::<u8>::empty());
                    assert(out@ + varint_prefix(Seq::<u8>::empty()) =~= out@);
                    assert(orig.skip(out@.len() as int) =~= stream@);
                }
                return out;
            },
            Some(b) => {
                out.push(b);
                if b < 128 {
                    proof {
                        lemma_prefix_cont(out@.drop_last(), before);
                        assert(out@.drop_last() + before =~= orig);
                        assert(varint_prefix(before) == seq![b]);
                        assert(out@.drop_last() + varint_prefix(before) =~= out@);
                        assert(orig.skip(out@.len() as int) =~= stream@);
                    }
                    return out;
                }
                proof {
                    assert(out@ + stream@ =~= orig);
                }
            },
        }
    }
}

/// Decode one varint from the front of the stream, consuming exactly its
/// bytes; `None` only when the stream is already empty. Streams holding a
/// run of 20 or more bytes with continuation bits are ruled out, as are
/// values that overflow the 128-bit result beyond its truncation.
pub fn decode(stream: &mut ByteStream) -> (r: Option<u128>)
    requires
        old(stream).wf(),
        varint_prefix(old(stream)@).len() <= 19,
    ensures
        final(stream).wf(),
        final(stream)@ == old(stream)@.skip(varint_prefix(old(stream)@).len() as int),
        r is Some <==> old(stream)@.len() > 0,
        old(stream)@.len() > 0 ==> r == Some(
            (varint_value(varint_prefix(old(stream)@)) % m128()) as u128,
        ),
{
    let ghost orig: Seq<u8> = stream@;
    let bytes = take_until_inclusive(stream);
    if bytes.len() == 0 {
        return None;
    }
    let mut val: u128 = 0;
    let mut p: u128 = 1;
    let mut i: usize = 0;
    while i < bytes.len()
        invariant
            bytes@ == varint_prefix(orig),
            bytes@.len() <= 19,
            i <= bytes@.len(),
            i <= 18 ==> p as nat == p128(i as nat),
            i <= 18 ==> val as nat == varint_value(bytes@.take(i as int)),
            i > 18 ==> val as nat == varint_value(bytes@.take(i as int)) % m128(),
        decreases bytes@.len() - i,
    {
        let b = bytes[i];
        proof {
            lemma_varint_value_bound(bytes@.take(i as int));
            lemma_varint_value_push(bytes@.take(i as int), b);
            assert(bytes@.take(i as int).push(b) =~= bytes@.take(i as int + 1));
            lemma_p128_le(i as nat, 18);
            if i < 18 {
                lemma_p128_le((i + 1) as nat, 18);
                lemma_p128_values();
            }
        }
        if i < 18 {
            proof {
                assert((b % 128) as u128 as nat * p as nat == ((b % 128) as nat) * p128(i as nat));
                assert(varint_value(bytes@.take(i as int)) + ((b % 128) as nat) * p128(i as nat)
                    < p128((i + 1) as nat)) by (nonlinear_arith)
                    requires
                        varint_value(bytes@.take(i as int)) < p128(i as nat),
                        b % 128 < 128,
                        p128((i + 1) as nat) == 128 * p128(i as nat),
                        p128(i as nat) >= 1,
                ;
            }
            val = val + ((b % 128) as u128) * p;
            p = p * 128;
        } else {
            // The nineteenth byte: only its two lowest bits are still
            // representable; the rest fall outside 128 bits.
            proof {
                lemma_p128_values();
                vstd::arithmetic::div_mod::lemma_mod_mod(b as int, 4, 32);
                assert((b % 128) % 4 == b % 4);
                let lo = (b % 4) as nat;
                let q = ((b % 128) / 4) as nat;
                assert((b % 128) as nat == lo + 4 * q);
                assert(((b % 128) as nat) * p128(18) == lo * p128(18) + q * m128())
                    by (nonlinear_arith)
                    requires
                        (b % 128) as nat == lo + 4 * q,
                        m128() == 4 * p128(18),
                ;
                let base = varint_value(bytes@.take(i as int));
                assert(varint_value(bytes@.take(i as int + 1)) == base + lo * p128(18) + q
                    * m128());
                assert(base + lo * p128(18) < m128()) by (nonlinear_arith)
                    requires
                        base < p128(18),
                        lo <= 3,
                        m128() == 4 * p128(18),
                        p128(18) >= 1,
                ;
                vstd::arithmetic::div_mod::lemma_mod_multiples_vanish(
                    q as int,
                    (base + lo * p128(18)) as int,
                    m128() as int,
                );
                vstd::arithmetic::div_mod::lemma_small_mod((base + lo * p128(18)) as nat, m128());
                assert(lo * p128(18) == lo * 0x40000000000000000000000000000000);
            }
            val = val + ((b % 4) as u128) * p;
        }
        i = i + 1;
    }
    proof {
        assert(bytes@.take(i as int) =~= bytes@);
        if i <= 18 {
            vstd::arithmetic::div_mod::lemma_small_mod(varint_value(bytes@), m128());
            assert((val as nat) < m128()) by {
                lemma_varint_value_bound(bytes@);
                lemma_p128_le(bytes@.len(), 18);
                lemma_p128_values();
            };
        }
    }
    Some(val)
}

} // verus!

