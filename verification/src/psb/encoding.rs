//! The byte encodings the PSB writer produces, and what the reader makes of them.
use vstd::prelude::*;
use vstd::arithmetic::div_mod::{lemma_mod_add_multiples_vanish, lemma_mod_breakdown, lemma_small_mod};
use crate::psb::format::{
    T_FLOAT, T_DOUBLE, T_FLOAT_0, T_INT_0, T_UINT_8, Tables, le_uint, lemma_pow256_small, pow256,
    read_int, read_token, read_uint, read_uint_array, read_uint_by_type, read_uint_elems,
    signed_value,
};
use crate::psb::float::{f32_exact, f32_to_f64_bits, f64_to_f32_candidate};
use crate::psb::value::ValueView;

verus! {

/// Bytes needed for an unsigned value in a typed integer (at most four).
pub open spec fn byte_width(v: nat) -> nat {
    if v < 0x100 {
        1
    } else if v < 0x1_0000 {
        2
    } else if v < 0x100_0000 {
        3
    } else {
        4
    }
}

/// The `n` low bytes of `v`, least significant first.
pub open spec fn le_bytes(v: nat, n: nat) -> Seq<u8>
    decreases n,
{
    if n == 0 {
        Seq::empty()
    } else {
        seq![(v % 256) as u8] + le_bytes(v / 256, (n - 1) as nat)
    }
}

/// A typed unsigned integer: its type byte, then its bytes.
pub open spec fn enc_uint_with_type(v: nat) -> Seq<u8> {
    seq![(T_UINT_8 + byte_width(v) - 1) as u8] + le_bytes(v, byte_width(v))
}

/// An index token (string, stream, bstream) on the given base type.
pub open spec fn enc_indexed(base: u8, idx: nat) -> Seq<u8> {
    seq![(base + byte_width(idx) - 1) as u8] + le_bytes(idx, byte_width(idx))
}

/// Largest element (0 for none).
pub open spec fn seq_max(s: Seq<u64>) -> nat
    decreases s.len(),
{
    if s.len() == 0 {
        0
    } else if seq_max(s.drop_last()) >= s.last() {
        seq_max(s.drop_last())
    } else {
        s.last() as nat
    }
}

/// The elements, each on `w` bytes.
pub open spec fn enc_elems(s: Seq<u64>, w: nat) -> Seq<u8>
    decreases s.len(),
{
    if s.len() == 0 {
        Seq::empty()
    } else {
        enc_elems(s.drop_last(), w) + le_bytes(s.last() as nat, w)
    }
}

/// A variable-width unsigned array: typed count, element type, elements
/// (an empty array is a zero count and element type 0).
pub open spec fn enc_uint_array(s: Seq<u64>) -> Seq<u8> {
    if s.len() == 0 {
        seq![T_UINT_8, 0u8, 0u8]
    } else {
        let w = byte_width(seq_max(s));
        enc_uint_with_type(s.len()) + seq![(T_UINT_8 + w - 1) as u8] + enc_elems(s, w)
    }
}

/// Two's-complement bit pattern of `n` as an unsigned 64-bit value.
pub open spec fn twos(n: i64) -> nat {
    if n >= 0 {
        n as nat
    } else {
        (n + 0x1_0000_0000_0000_0000) as nat
    }
}

/// `n` is a signed integer of `w` bytes.
pub open spec fn fits(n: int, w: nat) -> bool {
    -pow256(w) <= 2 * n < pow256(w)
}

/// Bytes the writer gives an integer: none for zero, else the fewest that hold it.
pub open spec fn int_width(n: i64) -> nat {
    if n == 0 {
        0
    } else if fits(n as int, 1) {
        1
    } else if fits(n as int, 2) {
        2
    } else if fits(n as int, 3) {
        3
    } else if fits(n as int, 4) {
        4
    } else if fits(n as int, 5) {
        5
    } else if fits(n as int, 6) {
        6
    } else if fits(n as int, 7) {
        7
    } else {
        8
    }
}

/// An integer token: `T_INT_0 + width` (widths 5 to 8 are the LONG types), then
/// the low bytes of its two's complement.
pub open spec fn enc_int(n: i64) -> Seq<u8> {
    seq![(T_INT_0 + int_width(n)) as u8] + le_bytes(twos(n), int_width(n))
}

/// A float token: positive zero alone, a single where the double narrows
/// without change, else the double.
pub open spec fn enc_float(b: u64) -> Seq<u8> {
    if b == 0 {
        seq![T_FLOAT_0]
    } else if f32_exact(b) {
        seq![T_FLOAT] + le_bytes(f64_to_f32_candidate(b) as nat, 4)
    } else {
        seq![T_DOUBLE] + le_bytes(b as nat, 8)
    }
}

/// `x` rounded up to a multiple of `a`.
pub open spec fn align_up_spec(x: nat, a: nat) -> nat {
    ((x + a - 1) as nat / a) * a
}

/// Padding from `x` up to the next multiple of `a`.
pub proof fn lemma_pad(x: nat, a: nat)
    requires
        a > 0,
    ensures
        align_up_spec(x, a) >= x,
        (a - x % a) % (a as int) == align_up_spec(x, a) - x,
        align_up_spec(x, a) % a == 0,
{
    let q = x / a;
    let r = x % a;
    vstd::arithmetic::div_mod::lemma_fundamental_div_mod(x as int, a as int);
    vstd::arithmetic::div_mod::lemma_mod_bound(x as int, a as int);
    if r == 0 {
        assert(x + a - 1 == a * q + (a - 1));
        vstd::arithmetic::div_mod::lemma_div_multiples_vanish_fancy(q as int, (a - 1) as int, a as int);
        assert(align_up_spec(x, a) == q * a);
        assert(q * a == a * q) by (nonlinear_arith);
        vstd::arithmetic::div_mod::lemma_mod_self_0(a as int);
        vstd::arithmetic::div_mod::lemma_mod_multiples_basic(q as int, a as int);
    } else {
        assert(a * (q + 1) == a * q + a) by (nonlinear_arith);
        assert(x + a - 1 == a * (q + 1) + (r - 1));
        vstd::arithmetic::div_mod::lemma_div_multiples_vanish_fancy((q + 1) as int, (r - 1) as int, a as int);
        assert(align_up_spec(x, a) == (q + 1) * a);
        assert((q + 1) * a == a * q + a) by (nonlinear_arith);
        vstd::arithmetic::div_mod::lemma_small_mod((a - r) as nat, a);
        vstd::arithmetic::div_mod::lemma_mod_multiples_basic((q + 1) as int, a as int);
    }
}

/// Adler-32 running sums `(a, b)` after `d`.
pub open spec fn adler_sums(d: Seq<u8>) -> (nat, nat)
    decreases d.len(),
{
    if d.len() == 0 {
        (1, 0)
    } else {
        let (a0, b0) = adler_sums(d.drop_last());
        let a = ((a0 + d.last()) % 65521) as nat;
        (a, ((b0 + a) % 65521) as nat)
    }
}

/// Adler-32 checksum of `d`.
pub open spec fn adler32_spec(d: Seq<u8>) -> nat {
    adler_sums(d).1 * 65536 + adler_sums(d).0
}

pub proof fn lemma_le_bytes_len(v: nat, n: nat)
    ensures
        le_bytes(v, n).len() == n,
    decreases n,
{
    if n > 0 {
        lemma_le_bytes_len(v / 256, (n - 1) as nat);
    }
}

pub proof fn lemma_enc_elems_len(s: Seq<u64>, w: nat)
    ensures
        enc_elems(s, w).len() == s.len() * w,
    decreases s.len(),
{
    if s.len() > 0 {
        lemma_enc_elems_len(s.drop_last(), w);
        lemma_le_bytes_len(s.last() as nat, w);
        assert((s.len() - 1) * w + w == s.len() * w) by (nonlinear_arith);
    }
}

/// Reading `n` bytes back from where `le_bytes(v, n)` stands gives `v` modulo `256^n`.
pub proof fn lemma_le_uint_le_bytes(pre: Seq<u8>, v: nat, n: nat, post: Seq<u8>)
    ensures
        le_uint(pre + le_bytes(v, n) + post, pre.len() as int, n) == v % pow256(n),
    decreases n,
{
    let d = pre + le_bytes(v, n) + post;
    if n == 0 {
        assert(v % 1 == 0);
    } else {
        let x = (v % 256) as u8;
        let rest = le_bytes(v / 256, (n - 1) as nat);
        assert(d =~= (pre + seq![x]) + rest + post);
        lemma_le_uint_le_bytes(pre + seq![x], v / 256, (n - 1) as nat, post);
        assert(d[pre.len() as int] == x);
        let p = pow256((n - 1) as nat);
        assert(p > 0) by {
            lemma_pow_pos((n - 1) as nat);
        }
        lemma_mod_breakdown(v as int, 256, p as int);
        assert(pow256(n) == 256 * p);
    }
}

pub proof fn lemma_pow_pos(n: nat)
    ensures
        pow256(n) > 0,
    decreases n,
{
    if n > 0 {
        lemma_pow_pos((n - 1) as nat);
    }
}

/// The low bytes of `v` mod `256^n` are the low bytes of `v`.
pub proof fn lemma_le_bytes_mod(v: nat, k: nat, n: nat)
    ensures
        le_bytes(v + pow256(n) * k, n) == le_bytes(v, n),
    decreases n,
{
    if n > 0 {
        let p = pow256((n - 1) as nat);
        lemma_pow_pos((n - 1) as nat);
        assert(pow256(n) * k == 256 * (p * k)) by (nonlinear_arith)
            requires
                pow256(n) == 256 * p,
        ;
        let pk = p * k;
        assert((v + 256 * pk) % 256 == v % 256) by {
            vstd::arithmetic::div_mod::lemma_mod_multiples_vanish(pk as int, v as int, 256);
        }
        assert((v + 256 * pk) / 256 == v / 256 + pk) by {
            vstd::arithmetic::div_mod::lemma_fundamental_div_mod(v as int, 256);
            assert(v + 256 * pk == 256 * (v / 256 + pk) + v % 256);
            vstd::arithmetic::div_mod::lemma_div_multiples_vanish_fancy(
                (v / 256 + pk) as int,
                (v % 256) as int,
                256,
            );
        }
        assert(p * k == pow256((n - 1) as nat) * k);
        lemma_le_bytes_mod(v / 256, k, (n - 1) as nat);
    }
}

pub proof fn lemma_pow_add(a: nat, b: nat)
    ensures
        pow256(a + b) == pow256(a) * pow256(b),
    decreases a,
{
    if a > 0 {
        lemma_pow_add((a - 1) as nat, b);
        let x = pow256((a - 1) as nat);
        let y = pow256(b);
        assert(256 * (x * y) == (256 * x) * y) by (nonlinear_arith);
        assert(pow256(a + b) == 256 * pow256((a + b - 1) as nat));
        assert(pow256(a) == 256 * x);
        assert((a - 1 + b) as nat == (a + b - 1) as nat);
        assert(pow256(a + b) == pow256(a) * pow256(b));
    } else {
        assert(pow256(a) == 1);
        assert(pow256(a + b) == pow256(b));
    }
}

/// `v` modulo `256^n` is `v` when `v` is smaller.
pub proof fn lemma_mod_small(v: nat, n: nat)
    requires
        v < pow256(n),
    ensures
        v % pow256(n) == v,
{
    lemma_pow_pos(n);
    lemma_small_mod(v, pow256(n));
}

/// Reading back an integer token of width `w` for a value that fits.
pub proof fn lemma_signed_value_twos(n: i64, w: nat)
    requires
        1 <= w <= 8,
        fits(n as int, w),
    ensures
        signed_value(twos(n) % pow256(w), w) == n,
{
    lemma_pow256_small();
    let p = pow256(w);
    lemma_pow_pos(w);
    if n >= 0 {
        lemma_small_mod(n as nat, p);
    } else {
        let q: nat = pow256((8 - w) as nat);
        lemma_pow_add(w, (8 - w) as nat);
        assert((twos(n) as int) % (p as int) == (n as int) % (p as int)) by {
            vstd::arithmetic::div_mod::lemma_mod_multiples_vanish(q as int, n as int, p as int);
            assert(twos(n) == p * q + n);
        }
        assert((p + n) % (p as int) == (n as int) % (p as int)) by {
            lemma_mod_add_multiples_vanish(n as int, p as int);
        }
        lemma_small_mod((p + n) as nat, p);
    }
}

/// What the reader makes of `enc_uint_array(s)`: the elements, and the position after them.
pub proof fn lemma_uint_array_roundtrip(pre: Seq<u8>, s: Seq<u64>, post: Seq<u8>)
    requires
        s.len() < 0x1_0000_0000,
        forall|i: int| 0 <= i < s.len() ==> s[i] < 0x1_0000_0000u64,
    ensures
        read_uint_array(pre + enc_uint_array(s) + post, pre.len() as int) == Ok::<
            (Seq<u64>, int),
            crate::psb::Error,
        >((s, pre.len() + enc_uint_array(s).len() as int)),
{
    let e = enc_uint_array(s);
    let d = pre + e + post;
    let p0 = pre.len() as int;
    lemma_pow256_small();
    if s.len() == 0 {
        assert(d[p0] == T_UINT_8);
        assert(d[p0 + 1] == 0);
        assert(d[p0 + 2] == 0);
        assert(le_uint(d, p0, 1) == d[p0] as nat + 256 * le_uint(d, p0 + 1, 0));
        assert(le_uint(d, p0 + 1, 1) == d[p0 + 1] as nat + 256 * le_uint(d, p0 + 2, 0));
        assert(le_uint(d, p0 + 2, 1) == d[p0 + 2] as nat + 256 * le_uint(d, p0 + 3, 0));
        assert(Seq::new(0, |i: int| 0u64) =~= s);
    } else {
        let n = s.len();
        let cw = byte_width(n);
        let w = byte_width(seq_max(s));
        lemma_seq_max(s);
        let head = seq![(T_UINT_8 + cw - 1) as u8];
        let cnt = le_bytes(n, cw);
        let et = seq![(T_UINT_8 + w - 1) as u8];
        let body = enc_elems(s, w);
        lemma_le_bytes_len(n, cw);
        assert(e =~= head + cnt + et + body);
        // count type
        assert(d[p0] == (T_UINT_8 + cw - 1) as u8);
        assert(le_uint(d, p0, 1) == d[p0] as nat + 256 * le_uint(d, p0 + 1, 0));
        // count
        assert(d =~= (pre + head) + cnt + (et + body + post));
        lemma_le_uint_le_bytes(pre + head, n, cw, et + body + post);
        lemma_mod_small(n, cw);
        // element type
        let p2 = p0 + 1 + cw;
        assert(d[p2] == (T_UINT_8 + w - 1) as u8);
        assert(le_uint(d, p2, 1) == d[p2] as nat + 256 * le_uint(d, p2 + 1, 0));
        // elements
        assert(d =~= (pre + head + cnt + et) + body + post);
        lemma_read_elems_roundtrip(pre + head + cnt + et, s, w, post, n);
        assert(s.take(n as int) =~= s);
        lemma_enc_elems_len(s, w);
        assert(e.len() == 1 + cw + 1 + n * w);
    }
}

/// The largest element bounds every element.
pub proof fn lemma_seq_max(s: Seq<u64>)
    ensures
        forall|i: int| 0 <= i < s.len() ==> s[i] <= seq_max(s),
        s.len() > 0 ==> exists|i: int| 0 <= i < s.len() && s[i] == seq_max(s),
        s.len() == 0 ==> seq_max(s) == 0,
    decreases s.len(),
{
    if s.len() > 0 {
        lemma_seq_max(s.drop_last());
        assert forall|i: int| 0 <= i < s.len() implies s[i] <= seq_max(s) by {
            if i < s.len() - 1 {
                assert(s.drop_last()[i] == s[i]);
            }
        }
        let t = s.drop_last();
        if seq_max(t) >= s.last() {
            if t.len() == 0 {
                assert(s[0] == seq_max(s));
            } else {
                let j = choose|j: int| 0 <= j < t.len() && t[j] == seq_max(t);
                assert(t[j] == s[j]);
                assert(s[j] == seq_max(s));
            }
        } else {
            assert(s[s.len() - 1] == seq_max(s));
        }
    }
}

/// The first `k` elements of `enc_elems(s, w)` read back with element type `w`.
pub proof fn lemma_read_elems_roundtrip(pre: Seq<u8>, s: Seq<u64>, w: nat, post: Seq<u8>, k: nat)
    requires
        1 <= w <= 4,
        k <= s.len(),
        forall|i: int| 0 <= i < s.len() ==> (s[i] as nat) < pow256(w),
    ensures
        read_uint_elems(pre + enc_elems(s, w) + post, pre.len() as int, (T_UINT_8 + w - 1) as u8, k)
            == Ok::<(Seq<u64>, int), crate::psb::Error>((s.take(k as int), pre.len() + (k * w) as int)),
    decreases s.len(),
{
    let ty = (T_UINT_8 + w - 1) as u8;
    let d = pre + enc_elems(s, w) + post;
    if k == 0 {
        assert(s.take(0) =~= Seq::<u64>::empty());
        assert(k * w == 0);
        assert(read_uint_elems(d, pre.len() as int, ty, k) == Ok::<(Seq<u64>, int), crate::psb::Error>((s.take(k as int), pre.len() + (k * w) as int)));
    } else if k < s.len() {
        let t = s.drop_last();
        let last = le_bytes(s.last() as nat, w);
        assert(d =~= pre + enc_elems(t, w) + (last + post));
        lemma_read_elems_roundtrip(pre, t, w, last + post, k);
        assert(t.take(k as int) =~= s.take(k as int));
        assert(read_uint_elems(d, pre.len() as int, ty, k) == Ok::<(Seq<u64>, int), crate::psb::Error>((s.take(k as int), pre.len() + (k * w) as int)));
    } else {
        let t = s.drop_last();
        let last = le_bytes(s.last() as nat, w);
        let km = (k - 1) as nat;
        assert(d =~= pre + enc_elems(t, w) + (last + post));
        lemma_read_elems_roundtrip(pre, t, w, last + post, km);
        assert(t.take(km as int) =~= t);
        lemma_enc_elems_len(t, w);
        let p: int = pre.len() + (km * w) as int;
        assert(p == (pre + enc_elems(t, w)).len());
        assert(d =~= (pre + enc_elems(t, w)) + last + post);
        lemma_le_uint_le_bytes(pre + enc_elems(t, w), s.last() as nat, w, post);
        lemma_mod_small(s.last() as nat, w);
        lemma_pow_pos(w);
        lemma_le_bytes_len(s.last() as nat, w);
        assert(read_uint_by_type(d, p, ty) == Ok::<(nat, int), crate::psb::Error>((s.last() as nat, p + w as int)));
        assert(t.push(s.last()) =~= s.take(k as int));
        assert(read_uint_elems(d, pre.len() as int, ty, km) == Ok::<(Seq<u64>, int), crate::psb::Error>((t, p)));
        assert(s.last() as nat as u64 == s.last());
        assert(km * w + w == k * w) by (nonlinear_arith)
            requires
                km + 1 == k,
        ;
        assert(p + w as int == pre.len() + (k * w) as int);
        assert(read_uint_elems(d, pre.len() as int, ty, k) == Ok::<(Seq<u64>, int), crate::psb::Error>((t.push(s.last()), p + w as int)));
        assert(read_uint_elems(d, pre.len() as int, ty, k) == Ok::<(Seq<u64>, int), crate::psb::Error>((s.take(k as int), pre.len() + (k * w) as int)));
        assert(km * w + w == k * w) by (nonlinear_arith)
            requires
                km + 1 == k,
        ;
    }
}

/// An integer token reads back as the integer.
pub proof fn lemma_int_roundtrip(pre: Seq<u8>, n: i64, post: Seq<u8>, t: Tables)
    ensures
        read_token(pre + enc_int(n) + post, pre.len() as int, t) == Ok::<ValueView, crate::psb::Error>(
            ValueView::Int(n),
        ),
{
    let w = int_width(n);
    let d = pre + enc_int(n) + post;
    let p0 = pre.len() as int;
    lemma_pow256_small();
    assert(d[p0] == (T_INT_0 + w) as u8);
    assert(d =~= (pre + seq![(T_INT_0 + w) as u8]) + le_bytes(twos(n), w) + post);
    lemma_le_bytes_len(twos(n), w);
    if w > 0 {
        lemma_le_uint_le_bytes(pre + seq![(T_INT_0 + w) as u8], twos(n), w, post);
        lemma_signed_value_twos(n, w);
        assert(read_uint(d, p0 + 1, w) == Ok::<(nat, int), crate::psb::Error>(
            (twos(n) % pow256(w), p0 + 1 + w),
        ));
        assert(read_int(d, p0 + 1, w, true) == Ok::<(int, int), crate::psb::Error>(
            (n as int, p0 + 1 + w),
        ));
    }
}

/// A float token reads back as the same bits.
pub proof fn lemma_float_roundtrip(pre: Seq<u8>, b: u64, post: Seq<u8>, t: Tables)
    ensures
        read_token(pre + enc_float(b) + post, pre.len() as int, t) == Ok::<ValueView, crate::psb::Error>(
            ValueView::Float(b),
        ),
{
    let d = pre + enc_float(b) + post;
    let p0 = pre.len() as int;
    lemma_pow256_small();
    if b == 0 {
        assert(d[p0] == T_FLOAT_0);
    } else if f32_exact(b) {
        let c = f64_to_f32_candidate(b);
        assert(d =~= (pre + seq![T_FLOAT]) + le_bytes(c as nat, 4) + post);
        lemma_le_bytes_len(c as nat, 4);
        lemma_le_uint_le_bytes(pre + seq![T_FLOAT], c as nat, 4, post);
        lemma_mod_small(c as nat, 4);
        assert(d[p0] == T_FLOAT);
        assert(read_uint(d, p0 + 1, 4) == Ok::<(nat, int), crate::psb::Error>((c as nat, p0 + 5)));
        assert(f32_to_f64_bits(c) == b);
    } else {
        assert(d =~= (pre + seq![T_DOUBLE]) + le_bytes(b as nat, 8) + post);
        lemma_le_bytes_len(b as nat, 8);
        lemma_le_uint_le_bytes(pre + seq![T_DOUBLE], b as nat, 8, post);
        lemma_mod_small(b as nat, 8);
        assert(d[p0] == T_DOUBLE);
        assert(read_uint(d, p0 + 1, 8) == Ok::<(nat, int), crate::psb::Error>((b as nat, p0 + 9)));
    }
}

} // verus!
