//! Checksum primitives: the weak rolling checksum used as a cheap
//! pre-filter, and the strong digest used to confirm a candidate match.
//!
//! The weak checksum is an Adler-style 32-bit hash: two running sums
//! reduced modulo 65521, packed as `high << 16 | low`.  Its value on a
//! window can be updated in constant time when the window slides by one
//! byte, which the matcher depends on.

use vstd::prelude::*;
use vstd::arithmetic::div_mod::{
    lemma_add_mod_noop, lemma_add_mod_noop_right, lemma_mod_bound, lemma_mod_multiples_vanish,
    lemma_mul_mod_noop_left, lemma_small_mod, lemma_sub_mod_noop_right,
};

verus! {

/// Modulus of the two running sums of the weak checksum.
pub const WEAK_MOD: u32 = 65521;

/// Sum of the bytes of `s`, unreduced.
pub open spec fn byte_sum(s: Seq<u8>) -> int
    decreases s.len(),
{
    if s.len() == 0 {
        0
    } else {
        s[0] + byte_sum(s.drop_first())
    }
}

/// First running sum over `s`, unreduced: one plus the byte sum.
pub open spec fn weak_a(s: Seq<u8>) -> int {
    1 + byte_sum(s)
}

/// Second running sum over `s`, unreduced: the sum of the first running
/// sum taken after each byte.
pub open spec fn weak_b(s: Seq<u8>) -> int
    decreases s.len(),
{
    if s.len() == 0 {
        0
    } else {
        weak_b(s.drop_last()) + weak_a(s)
    }
}

/// The weak checksum of a byte sequence.
pub open spec fn weak_of(s: Seq<u8>) -> u32 {
    ((weak_b(s) % (WEAK_MOD as int)) * 0x10000 + weak_a(s) % (WEAK_MOD as int)) as u32
}

proof fn lemma_byte_sum_push(s: Seq<u8>, x: u8)
    ensures
        byte_sum(s.push(x)) == byte_sum(s) + x,
    decreases s.len(),
{
    assert(s.push(x)[0] == if s.len() == 0 { x } else { s[0] });
    if s.len() == 0 {
        assert(s.push(x).drop_first() =~= Seq::<u8>::empty());
        assert(byte_sum(Seq::<u8>::empty()) == 0);
        assert(byte_sum(s.push(x)) == x + byte_sum(s.push(x).drop_first()));
    } else {
        assert(s.push(x).drop_first() =~= s.drop_first().push(x));
        lemma_byte_sum_push(s.drop_first(), x);
        assert(byte_sum(s.push(x)) == s[0] + byte_sum(s.drop_first().push(x)));
        assert(byte_sum(s) == s[0] + byte_sum(s.drop_first()));
    }
}

proof fn lemma_weak_b_push(s: Seq<u8>, x: u8)
    ensures
        weak_b(s.push(x)) == weak_b(s) + weak_a(s) + x,
{
    assert(s.push(x).drop_last() =~= s);
    lemma_byte_sum_push(s, x);
}

/// Dropping the first byte of a window lowers the second running sum by
/// the window length times that byte, plus one.
proof fn lemma_weak_b_drop_first(s: Seq<u8>)
    requires
        s.len() >= 1,
    ensures
        weak_b(s.drop_first()) == weak_b(s) - s.len() * s[0] - 1,
    decreases s.len(),
{
    if s.len() == 1 {
        assert(s.drop_first() =~= Seq::<u8>::empty());
        assert(s.drop_last() =~= Seq::<u8>::empty());
        assert(weak_b(Seq::<u8>::empty()) == 0);
        assert(byte_sum(Seq::<u8>::empty()) == 0);
        assert(weak_b(s) == weak_b(s.drop_last()) + weak_a(s));
        assert(byte_sum(s) == s[0] + byte_sum(s.drop_first()));
    } else {
        let t = s.drop_last();
        let y = s.last();
        lemma_weak_b_drop_first(t);
        assert(s.drop_first() =~= t.drop_first().push(y));
        lemma_weak_b_push(t.drop_first(), y);
        assert(t.push(y) =~= s);
        lemma_byte_sum_push(t, y);
        assert(t[0] == s[0]);
        assert(byte_sum(t) == t[0] + byte_sum(t.drop_first()));
        assert(weak_a(t.drop_first()) == 1 + byte_sum(t) - t[0]);
        assert(weak_b(s) == weak_b(t) + weak_a(s));
        assert(weak_b(s.drop_first()) == weak_b(t) - t.len() * t[0] - 1 + 1 + byte_sum(t) - t[0]
            + y);
        assert(s.len() * s[0] == (s.len() - 1) * s[0] + s[0]) by (nonlinear_arith);
    }
}

/// The state of the weak checksum over some current window, kept reduced
/// so that the window can slide in constant time.
pub struct RollingWeak {
    a: u32,
    b: u32,
}

impl RollingWeak {
    /// The state holds the two reduced running sums of the window `w`.
    pub closed spec fn is_for(self, w: Seq<u8>) -> bool {
        &&& self.a == weak_a(w) % (WEAK_MOD as int)
        &&& self.b == weak_b(w) % (WEAK_MOD as int)
    }

    /// Computes the state for a full window in one pass.
    pub fn new(data: &[u8]) -> (r: Self)
        ensures
            r.is_for(data@),
    {
        let ghost m = WEAK_MOD as int;
        let mut a: u32 = 1;
        let mut b: u32 = 0;
        let mut i: usize = 0;
        while i < data.len()
            invariant
                i <= data@.len(),
                a == weak_a(data@.take(i as int)) % (WEAK_MOD as int),
                b == weak_b(data@.take(i as int)) % (WEAK_MOD as int),
                a < WEAK_MOD,
                b < WEAK_MOD,
            decreases data@.len() - i,
        {
            let ghost pre = data@.take(i as int);
            let x = data[i];
            proof {
                let m = WEAK_MOD as int;
                assert(data@.take(i + 1) =~= pre.push(x));
                lemma_byte_sum_push(pre, x);
                lemma_weak_b_push(pre, x);
                lemma_add_mod_noop(weak_a(pre), x as int, m);
                lemma_small_mod(x as nat, WEAK_MOD as nat);
                lemma_add_mod_noop(weak_b(pre), weak_a(pre.push(x)), m);
                lemma_mod_bound(weak_a(pre.push(x)), m);
                lemma_mod_bound(weak_b(pre.push(x)), m);
            }
            a = (a + x as u32) % WEAK_MOD;
            b = (b + a) % WEAK_MOD;
            i = i + 1;
        }
        proof {
            assert(data@.take(data@.len() as int) =~= data@);
        }
        RollingWeak { a, b }
    }

    /// Packs the two running sums into the 32-bit weak checksum.
    pub fn hash(&self, Ghost(w): Ghost<Seq<u8>>) -> (r: u32)
        requires
            self.is_for(w),
        ensures
            r == weak_of(w),
    {
        proof {
            lemma_mod_bound(weak_a(w), WEAK_MOD as int);
            lemma_mod_bound(weak_b(w), WEAK_MOD as int);
        }
        self.b * 0x10000 + self.a
    }

    /// Slides the window one byte forward: `out` leaves at the front and
    /// `inb` enters at the back.  Constant time.
    pub fn roll(&mut self, len: usize, out: u8, inb: u8, Ghost(w): Ghost<Seq<u8>>)
        requires
            old(self).is_for(w),
            w.len() == len,
            len >= 1,
            w[0] == out,
        ensures
            final(self).is_for(w.drop_first().push(inb)),
    {
        let ghost m = WEAK_MOD as int;
        let ghost t = w.drop_first();
        let ghost wp = t.push(inb);
        let ghost va = weak_a(w);
        let ghost vb = weak_b(w);
        proof {
            lemma_mod_bound(va, m);
            lemma_mod_bound(vb, m);
        }
        let a2: u32 = (self.a + (WEAK_MOD - out as u32) + inb as u32) % WEAK_MOD;
        proof {
            lemma_byte_sum_push(t, inb);
            assert(weak_a(wp) == va - out + inb);
            // ((va % m) + (m - out + inb)) % m == (va + (m - out + inb)) % m
            lemma_add_mod_noop_right(m - out + inb, va, m);
            // (m * 1 + (va - out + inb)) % m == (va - out + inb) % m
            lemma_mod_multiples_vanish(1, va - out + inb, m);
            assert(a2 == weak_a(wp) % m);
        }
        // weak_b(wp) == vb + va - 1 - (len + 1) * out + inb
        let lm: u32 = ((len % (WEAK_MOD as usize)) as u32 + 1) % WEAK_MOD;
        proof {
            lemma_mod_bound(len as int, WEAK_MOD as int);
            lemma_mod_bound((len as int) % (WEAK_MOD as int) + 1, WEAK_MOD as int);
            assert((lm as int) * (out as int) <= 65520 * 255) by (nonlinear_arith)
                requires
                    lm as int <= 65520,
                    out as int <= 255,
            ;
        }
        let lo: u32 = (lm * out as u32) % WEAK_MOD;
        let t1: u32 = (self.b + self.a) % WEAK_MOD;
        let b2: u32 = (t1 + (WEAK_MOD - 1) + (WEAK_MOD - lo) + inb as u32) % WEAK_MOD;
        proof {
            lemma_weak_b_drop_first(w);
            lemma_weak_b_push(t, inb);
            let s0 = vb + va;
            let l1 = (len + 1) * (out as int);
            assert(weak_b(wp) == s0 - 1 - l1 + inb) by (nonlinear_arith)
                requires
                    weak_b(t) == vb - w.len() * w[0] - 1,
                    weak_b(wp) == weak_b(t) + weak_a(t) + inb,
                    weak_a(t) == va - out,
                    w.len() == len,
                    w[0] == out,
                    l1 == (len + 1) * (out as int),
                    s0 == vb + va,
            ;
            // lm == (len + 1) % m
            lemma_small_mod((len % (WEAK_MOD as usize)) as nat, WEAK_MOD as nat);
            lemma_add_mod_noop(len as int, 1, m);
            lemma_small_mod(1nat, WEAK_MOD as nat);
            assert(lm == (len + 1) % m);
            // lo == l1 % m
            lemma_mul_mod_noop_left(len + 1, out as int, m);
            assert(lo == l1 % m);
            // t1 == s0 % m
            lemma_add_mod_noop(vb, va, m);
            assert(t1 == s0 % m);
            // ((s0 % m) + d) % m == (s0 + d) % m for the remaining summands
            lemma_add_mod_noop_right(2 * m - 1 - lo + inb, s0, m);
            // strip the two whole multiples of m
            lemma_mod_multiples_vanish(2, s0 - 1 - lo + inb, m);
            // replace the reduced length term by the unreduced one
            lemma_sub_mod_noop_right(s0 - 1 + inb, l1, m);
            assert(b2 == weak_b(wp) % m);
        }
        self.a = a2;
        self.b = b2;
    }

    /// Shrinks the window by dropping its first byte, with nothing
    /// entering: used once the scan nears the end of the destination.
    /// Constant time.
    pub fn shrink(&mut self, len: usize, out: u8, Ghost(w): Ghost<Seq<u8>>)
        requires
            old(self).is_for(w),
            w.len() == len,
            len >= 1,
            w[0] == out,
        ensures
            final(self).is_for(w.drop_first()),
    {
        let ghost m = WEAK_MOD as int;
        let ghost t = w.drop_first();
        let ghost va = weak_a(w);
        let ghost vb = weak_b(w);
        proof {
            lemma_mod_bound(va, m);
            lemma_mod_bound(vb, m);
        }
        let a2: u32 = (self.a + (WEAK_MOD - out as u32)) % WEAK_MOD;
        proof {
            assert(weak_a(t) == va - out);
            lemma_add_mod_noop_right(m - out, va, m);
            lemma_mod_multiples_vanish(1, va - out, m);
            assert(a2 == weak_a(t) % m);
        }
        let lm: u32 = (len % (WEAK_MOD as usize)) as u32;
        proof {
            lemma_mod_bound(len as int, WEAK_MOD as int);
            assert((lm as int) * (out as int) <= 65520 * 255) by (nonlinear_arith)
                requires
                    lm as int <= 65520,
                    out as int <= 255,
            ;
        }
        let lo: u32 = (lm * out as u32) % WEAK_MOD;
        let b2: u32 = (self.b + (WEAK_MOD - 1) + (WEAK_MOD - lo)) % WEAK_MOD;
        proof {
            lemma_weak_b_drop_first(w);
            let l1 = (len as int) * (out as int);
            assert(weak_b(t) == vb - 1 - l1);
            // lo == l1 % m
            lemma_small_mod((len % (WEAK_MOD as usize)) as nat, WEAK_MOD as nat);
            lemma_mul_mod_noop_left(len as int, out as int, m);
            assert(lo == l1 % m);
            lemma_add_mod_noop_right(2 * m - 1 - lo, vb, m);
            lemma_mod_multiples_vanish(2, vb - 1 - lo, m);
            lemma_sub_mod_noop_right(vb - 1, l1, m);
            assert(b2 == weak_b(t) % m);
        }
        self.a = a2;
        self.b = b2;
    }
}

/// The weak checksum of a byte slice, computed in one pass.
pub fn adler32(data: &[u8]) -> (r: u32)
    ensures
        r == weak_of(data@),
{
    let state = RollingWeak::new(data);
    state.hash(Ghost(data@))
}

/// What the strong digest of a byte sequence is.  Sixteen bytes that
/// depend on the input alone; their value is not spelled out here.
pub uninterp spec fn md5_of(data: Seq<u8>) -> Seq<u8>;

/// The lowercase hex digit for a value below sixteen.
pub open spec fn hex_digit(v: u8) -> char {
    if v == 0 {
        '0'
    } else if v == 1 {
        '1'
    } else if v == 2 {
        '2'
    } else if v == 3 {
        '3'
    } else if v == 4 {
        '4'
    } else if v == 5 {
        '5'
    } else if v == 6 {
        '6'
    } else if v == 7 {
        '7'
    } else if v == 8 {
        '8'
    } else if v == 9 {
        '9'
    } else if v == 10 {
        'a'
    } else if v == 11 {
        'b'
    } else if v == 12 {
        'c'
    } else if v == 13 {
        'd'
    } else if v == 14 {
        'e'
    } else {
        'f'
    }
}

/// The lowercase hex spelling of a byte sequence: two digits per byte,
/// high nibble first.
pub open spec fn hex_of(data: Seq<u8>) -> Seq<char>
    decreases data.len(),
{
    if data.len() == 0 {
        Seq::empty()
    } else {
        seq![hex_digit(data[0] / 16), hex_digit(data[0] % 16)] + hex_of(data.drop_first())
    }
}

/// The hex spelling is twice as long as its input.
pub proof fn lemma_hex_of_len(data: Seq<u8>)
    ensures
        hex_of(data).len() == 2 * data.len(),
    decreases data.len(),
{
    if data.len() > 0 {
        lemma_hex_of_len(data.drop_first());
    }
}

/// The strong checksum as this library reports it: the hex spelling of
/// the digest.
pub open spec fn strong_of(data: Seq<u8>) -> Seq<char> {
    hex_of(md5_of(data))
}

/// Relies on `md5::compute`: the digest is sixteen bytes and is a
/// function of the input bytes alone.
#[verifier::external_body]
pub(crate) fn md5_digest(data: &[u8]) -> (r: Vec<u8>)
    ensures
        r@ == md5_of(data@),
        r@.len() == 16,
{
    md5::compute(data).0.to_vec()
}

/// Relies on `hex::encode`: lowercase hex, two digits for each byte,
/// high nibble first.
#[verifier::external_body]
fn hex_encode(data: &[u8]) -> (r: String)
    ensures
        r@ == hex_of(data@),
{
    hex::encode(data)
}

/// The strong checksum of a byte slice, as a lowercase hex string.
pub fn md5(data: &[u8]) -> (r: String)
    ensures
        r@ == strong_of(data@),
        r@.len() == 32,
{
    let digest = md5_digest(data);
    let r = hex_encode(digest.as_slice());
    proof {
        lemma_hex_of_len(md5_of(data@));
    }
    r
}

} // verus!
