//! The PSB binary layout, stated as spec functions over the file's bytes:
//! what a reader finds at each position.
use vstd::prelude::*;
use vstd::utf8::{decode_utf8, valid_utf8};
use crate::psb::Error;
use crate::psb::value::{insert_entry, ValueView};
use crate::psb::float::f32_to_f64_bits;

verus! {

pub const T_NULL: u8 = 1;

pub const T_FALSE: u8 = 2;

pub const T_TRUE: u8 = 3;

pub const T_INT_0: u8 = 4;

pub const T_INT_8: u8 = 5;

pub const T_INT_16: u8 = 6;

pub const T_INT_24: u8 = 7;

pub const T_INT_32: u8 = 8;

pub const T_LONG_40: u8 = 9;

pub const T_LONG_64: u8 = 12;

pub const T_UINT_8: u8 = 13;

pub const T_UINT_16: u8 = 14;

pub const T_UINT_24: u8 = 15;

pub const T_UINT_32: u8 = 16;

pub const T_KEY_8: u8 = 17;

pub const T_KEY_32: u8 = 20;

pub const T_STRING_8: u8 = 21;

pub const T_STRING_32: u8 = 24;

pub const T_STREAM_8: u8 = 25;

pub const T_STREAM_32: u8 = 28;

pub const T_FLOAT_0: u8 = 29;

pub const T_FLOAT: u8 = 30;

pub const T_DOUBLE: u8 = 31;

pub const T_ARRAY: u8 = 32;

pub const T_OBJECT: u8 = 33;

pub const T_BSTREAM_8: u8 = 34;

pub const T_BSTREAM_32: u8 = 37;

/// What `String::from_utf8_lossy` makes of a byte string that is not valid
/// UTF-8 (each invalid sequence replaced by U+FFFD).
pub uninterp spec fn utf8_lossy_invalid(bytes: Seq<u8>) -> Seq<char>;

/// What `String::from_utf8_lossy` makes of a byte string: valid UTF-8 is the
/// text it encodes.
pub open spec fn utf8_lossy(bytes: Seq<u8>) -> Seq<char> {
    if valid_utf8(bytes) {
        decode_utf8(bytes)
    } else {
        utf8_lossy_invalid(bytes)
    }
}

pub open spec fn pow256(n: nat) -> nat
    decreases n,
{
    if n == 0 {
        1
    } else {
        256 * pow256((n - 1) as nat)
    }
}

/// Unsigned little-endian value of the `n` bytes at `at`.
pub open spec fn le_uint(d: Seq<u8>, at: int, n: nat) -> nat
    decreases n,
{
    if n == 0 {
        0
    } else {
        d[at] as nat + 256 * le_uint(d, at + 1, (n - 1) as nat)
    }
}

/// Two's-complement value of an `n`-byte unsigned value.
pub open spec fn signed_value(u: nat, n: nat) -> int {
    if n > 0 && 2 * u >= pow256(n) {
        u - pow256(n)
    } else {
        u as int
    }
}

/// The `n` bytes at `pos` as an unsigned value, and the position after them.
pub open spec fn read_uint(d: Seq<u8>, pos: int, n: nat) -> Result<(nat, int), Error> {
    if 0 <= pos && pos + n <= d.len() {
        Ok((le_uint(d, pos, n), pos + n))
    } else {
        Err(Error::Truncated(pos as usize))
    }
}

/// An `n`-byte integer at `pos` (no bytes read when `n` is 0).
pub open spec fn read_int(d: Seq<u8>, pos: int, n: nat, signed: bool) -> Result<(int, int), Error> {
    if n == 0 {
        Ok((0, pos))
    } else {
        match read_uint(d, pos, n) {
            Ok((u, p)) => Ok(
                (if signed && n < 8 { signed_value(u, n) } else if n == 8 { signed_value(u, 8) } else { u as int }, p),
            ),
            Err(e) => Err(e),
        }
    }
}

/// An unsigned value whose width is given by a type byte (0 means no bytes, value 0).
pub open spec fn read_uint_by_type(d: Seq<u8>, pos: int, ty: u8) -> Result<(nat, int), Error> {
    if ty == 0 {
        Ok((0, pos))
    } else if T_UINT_8 <= ty <= T_UINT_32 {
        read_uint(d, pos, (ty - 12) as nat)
    } else {
        Err(Error::InvalidUintType(ty))
    }
}

/// `k` values of type `ty` in a row.
pub open spec fn read_uint_elems(d: Seq<u8>, pos: int, ty: u8, k: nat) -> Result<(Seq<u64>, int), Error>
    decreases k,
{
    if k == 0 {
        Ok((Seq::empty(), pos))
    } else {
        match read_uint_elems(d, pos, ty, (k - 1) as nat) {
            Ok((s, p)) => match read_uint_by_type(d, p, ty) {
                Ok((v, p2)) => Ok((s.push(v as u64), p2)),
                Err(e) => Err(e),
            },
            Err(e) => Err(e),
        }
    }
}

/// A variable-width unsigned array: count type, count, element type, elements.
pub open spec fn read_uint_array(d: Seq<u8>, pos: int) -> Result<(Seq<u64>, int), Error> {
    match read_uint(d, pos, 1) {
        Err(e) => Err(e),
        Ok((ct, p1)) => match read_uint_by_type(d, p1, ct as u8) {
            Err(e) => Err(e),
            Ok((count, p2)) => match read_uint(d, p2, 1) {
                Err(e) => Err(e),
                Ok((et, p3)) => if et == 0 {
                    Ok((Seq::new(count, |i: int| 0u64), p3))
                } else {
                    read_uint_elems(d, p3, et as u8, count)
                },
            },
        },
    }
}

/// End of the NUL-terminated string starting at `i`.
pub open spec fn cstr_end(d: Seq<u8>, i: int) -> int
    decreases d.len() - i,
{
    if i >= d.len() || d[i] == 0 {
        i
    } else {
        cstr_end(d, i + 1)
    }
}

/// Text of the NUL-terminated string at `start`.
pub open spec fn cstr_at(d: Seq<u8>, start: int) -> Seq<char> {
    utf8_lossy(d.subrange(start, cstr_end(d, start)))
}

/// Strings at `blob + off` for each offset.
pub open spec fn cstr_list(d: Seq<u8>, blob: int, offs: Seq<u64>) -> Seq<Seq<char>> {
    Seq::new(offs.len(), |i: int| cstr_at(d, blob + offs[i]))
}

/// Every string start lies within the data.
pub open spec fn cstrs_in_bounds(d: Seq<u8>, blob: int, offs: Seq<u64>) -> bool {
    forall|i: int| 0 <= i < offs.len() ==> blob + offs[i] <= d.len()
}

/// A string table: offsets array, strings at `blob + offset`.
pub open spec fn read_cstr_table(d: Seq<u8>, pos: int, blob: int) -> Result<(Seq<Seq<char>>, int), Error> {
    match read_uint_array(d, pos) {
        Ok((offs, p)) => Ok((cstr_list(d, blob, offs), p)),
        Err(e) => Err(e),
    }
}

/// Reading the string table does not index past the data.
pub open spec fn cstr_table_defined(d: Seq<u8>, pos: int, blob: int) -> bool {
    match read_uint_array(d, pos) {
        Ok((offs, p)) => cstrs_in_bounds(d, blob, offs),
        Err(e) => true,
    }
}

pub open spec fn get_or0(a: Seq<u64>, i: u64) -> u64 {
    if i < a.len() {
        a[i as int]
    } else {
        0
    }
}

/// The parent chain from `cur` reaches the root within `k` steps.
pub open spec fn chain_ok(tree: Seq<u64>, cur: u64, k: nat) -> bool
    decreases k,
{
    cur == 0 || (k > 0 && chain_ok(tree, get_or0(tree, cur), (k - 1) as nat))
}

/// Bytes spelled by the parent chain from `cur`, root first, following at most `k` links.
pub open spec fn chain_bytes(tree: Seq<u64>, vo: Seq<u64>, cur: u64, k: nat) -> Seq<u8>
    decreases k,
{
    if cur == 0 || k == 0 {
        Seq::empty()
    } else {
        let parent = get_or0(tree, cur);
        chain_bytes(tree, vo, parent, (k - 1) as nat).push(
            cur.wrapping_sub(get_or0(vo, parent)) as u8,
        )
    }
}

/// A number of links after which the chain from `cur` has reached the root.
pub open spec fn chain_fuel(tree: Seq<u64>, cur: u64) -> nat {
    choose|k: nat| chain_ok(tree, cur, k)
}

/// The key name whose leaf is `tail`.
pub open spec fn trie_name(vo: Seq<u64>, tree: Seq<u64>, tail: u64) -> Seq<char> {
    let start = get_or0(tree, tail);
    utf8_lossy(chain_bytes(tree, vo, start, chain_fuel(tree, start)))
}

/// Key names stored as a trie: value offsets, parent tree, tails.
pub open spec fn read_trie_names(d: Seq<u8>, pos: int) -> Result<(Seq<Seq<char>>, int), Error> {
    match read_uint_array(d, pos) {
        Err(e) => Err(e),
        Ok((vo, p1)) => match read_uint_array(d, p1) {
            Err(e) => Err(e),
            Ok((tree, p2)) => match read_uint_array(d, p2) {
                Err(e) => Err(e),
                Ok((tails, p3)) => Ok(
                    (Seq::new(tails.len(), |i: int| trie_name(vo, tree, tails[i])), p3),
                ),
            },
        },
    }
}

/// The parent chain from `cur` reaches the root after some number of links.
pub open spec fn chain_ends(tree: Seq<u64>, cur: u64) -> bool {
    exists|k: nat| chain_ok(tree, cur, k)
}

/// Where the parent chain from `cur` is after `j` links.
pub open spec fn climb(tree: Seq<u64>, cur: u64, j: nat) -> u64
    decreases j,
{
    if j == 0 {
        cur
    } else {
        climb(tree, get_or0(tree, cur), (j - 1) as nat)
    }
}

/// One more link is one more step from where the chain is.
pub proof fn lemma_climb_step(tree: Seq<u64>, cur: u64, j: nat)
    ensures
        climb(tree, cur, j + 1) == get_or0(tree, climb(tree, cur, j)),
    decreases j,
{
    let next = get_or0(tree, cur);
    assert(climb(tree, cur, j + 1) == climb(tree, next, j));
    if j > 0 {
        lemma_climb_step(tree, next, (j - 1) as nat);
        assert(climb(tree, cur, j) == climb(tree, next, (j - 1) as nat));
    } else {
        assert(climb(tree, next, 0) == next);
    }
}

/// Climbing `a + m` links is climbing `m` more from where `a` links lead.
pub proof fn lemma_climb_add(tree: Seq<u64>, cur: u64, a: nat, m: nat)
    ensures
        climb(tree, cur, a + m) == climb(tree, climb(tree, cur, a), m),
    decreases a,
{
    if a > 0 {
        lemma_climb_add(tree, get_or0(tree, cur), (a - 1) as nat, m);
    }
}

/// A chain that reaches the root within `k` links meets it after some `j <= k`.
pub proof fn lemma_chain_ok_climb(tree: Seq<u64>, cur: u64, k: nat)
    requires
        chain_ok(tree, cur, k),
    ensures
        exists|j: nat| j <= k && #[trigger] climb(tree, cur, j) == 0,
    decreases k,
{
    if cur == 0 {
        assert(climb(tree, cur, 0) == 0);
    } else {
        lemma_chain_ok_climb(tree, get_or0(tree, cur), (k - 1) as nat);
        let j = choose|j: nat| j <= k - 1 && #[trigger] climb(tree, get_or0(tree, cur), j) == 0;
        assert(climb(tree, cur, j + 1) == 0);
    }
}

/// Meeting the root after `j` links is reaching it within `j`.
pub proof fn lemma_climb_chain_ok(tree: Seq<u64>, cur: u64, j: nat)
    requires
        climb(tree, cur, j) == 0,
    ensures
        chain_ok(tree, cur, j),
    decreases j,
{
    if j > 0 && cur != 0 {
        lemma_climb_chain_ok(tree, get_or0(tree, cur), (j - 1) as nat);
    }
}

/// Once the chain meets a node again it goes round the same nodes for ever.
proof fn lemma_climb_periodic(tree: Seq<u64>, cur: u64, a: nat, b: nat, j: nat)
    requires
        a < b,
        climb(tree, cur, a) == climb(tree, cur, b),
        a <= j,
    ensures
        climb(tree, cur, j) == climb(tree, cur, (a + (j - a) % ((b - a) as int)) as nat),
    decreases j,
{
    let p = (b - a) as int;
    if j < b {
        vstd::arithmetic::div_mod::lemma_small_mod((j - a) as nat, p as nat);
    } else {
        lemma_climb_add(tree, cur, b, (j - b) as nat);
        lemma_climb_add(tree, cur, a, (j - b) as nat);
        assert(a + (j - b) == j - p);
        lemma_climb_periodic(tree, cur, a, b, (j - p) as nat);
        vstd::arithmetic::div_mod::lemma_mod_add_multiples_vanish(j - a - p, p);
    }
}

/// A list of distinct words below `n` holds at most `n` of them.
proof fn lemma_distinct_words(s: Seq<u64>, n: nat)
    requires
        s.no_duplicates(),
        forall|q: int| 0 <= q < s.len() ==> #[trigger] s[q] < n,
    ensures
        s.len() <= n,
{
    let t = s.map_values(|x: u64| x as int);
    assert(t.no_duplicates()) by {
        assert forall|i: int, j: int| 0 <= i < t.len() && 0 <= j < t.len() && i != j implies t[i] != t[j] by {
            assert(s[i] != s[j]);
        }
    }
    t.unique_seq_to_set();
    vstd::set_lib::lemma_int_range(0, n as int);
    assert forall|x: int| t.to_set().contains(x) implies vstd::set_lib::set_int_range(0, n as int).contains(x) by {
        let q = choose|q: int| 0 <= q < t.len() && t[q] == x;
        assert(s[q] < n);
    }
    vstd::set_lib::lemma_len_subset(t.to_set(), vstd::set_lib::set_int_range(0, n as int));
}

/// A chain that has not met the root after one link more than the tree has
/// nodes goes round for ever.
pub proof fn lemma_chain_stuck(tree: Seq<u64>, cur: u64)
    requires
        forall|j: nat| j <= tree.len() + 1 ==> #[trigger] climb(tree, cur, j) != 0,
    ensures
        !chain_ends(tree, cur),
{
    let n = tree.len();
    assert forall|j: nat| j <= n implies #[trigger] climb(tree, cur, j) < n by {
        lemma_climb_step(tree, cur, j);
        assert(climb(tree, cur, j + 1) != 0);
    }
    let seen = Seq::new(n + 1, |j: int| climb(tree, cur, j as nat));
    assert forall|q: int| 0 <= q < seen.len() implies #[trigger] seen[q] < n by {
        assert(climb(tree, cur, q as nat) < n);
    }
    if seen.no_duplicates() {
        lemma_distinct_words(seen, n);
    }
    let (a, b) = choose|a: int, b: int| 0 <= a < seen.len() && 0 <= b < seen.len() && a != b && seen[a] == seen[b];
    let (a, b) = if a < b {
        (a as nat, b as nat)
    } else {
        (b as nat, a as nat)
    };
    assert(climb(tree, cur, a) == climb(tree, cur, b));
    assert forall|j: nat| #[trigger] climb(tree, cur, j) != 0 by {
        if j >= a {
            lemma_climb_periodic(tree, cur, a, b, j);
            let r = (a + (j - a) % ((b - a) as int)) as nat;
            assert(r < b);
            assert(climb(tree, cur, r) != 0);
        }
    }
    if chain_ends(tree, cur) {
        let k = choose|k: nat| chain_ok(tree, cur, k);
        lemma_chain_ok_climb(tree, cur, k);
    }
}

/// The parent chain from every tail's leaf reaches the root.
pub open spec fn chains_terminate(tree: Seq<u64>, tails: Seq<u64>) -> bool {
    forall|i: int| 0 <= i < tails.len() ==> chain_ends(tree, get_or0(tree, #[trigger] tails[i]))
}

/// Every name's parent chain reaches the root (reading does not loop).
pub open spec fn trie_names_defined(d: Seq<u8>, pos: int) -> bool {
    match read_uint_array(d, pos) {
        Err(e) => true,
        Ok((vo, p1)) => match read_uint_array(d, p1) {
            Err(e) => true,
            Ok((tree, p2)) => match read_uint_array(d, p2) {
                Err(e) => true,
                Ok((tails, p3)) => chains_terminate(tree, tails),
            },
        },
    }
}

/// The first `k` blobs of a stream table.
pub open spec fn stream_list(d: Seq<u8>, data_off: int, offs: Seq<u64>, sizes: Seq<u64>, k: nat) -> Result<
    Seq<Seq<u8>>,
    Error,
>
    decreases k,
{
    if k == 0 {
        Ok(Seq::empty())
    } else {
        match stream_list(d, data_off, offs, sizes, (k - 1) as nat) {
            Err(e) => Err(e),
            Ok(prev) => {
                let start = data_off + offs[k - 1];
                let end = start + sizes[k - 1];
                if end > d.len() {
                    Err(Error::Truncated(end as usize))
                } else {
                    Ok(prev.push(d.subrange(start, end)))
                }
            },
        }
    }
}

pub open spec fn min_nat(a: nat, b: nat) -> nat {
    if a <= b {
        a
    } else {
        b
    }
}

/// A stream table: offsets array, sizes array, blobs at `data_off + offset`.
pub open spec fn read_stream_table(d: Seq<u8>, offs_off: int, sizes_off: int, data_off: int) -> Result<
    Seq<Seq<u8>>,
    Error,
> {
    match read_uint_array(d, offs_off) {
        Err(e) => Err(e),
        Ok((offs, _p)) => match read_uint_array(d, sizes_off) {
            Err(e) => Err(e),
            Ok((sizes, _q)) => stream_list(d, data_off, offs, sizes, min_nat(offs.len(), sizes.len())),
        },
    }
}

/// The decoded tables a token can refer to.
pub struct Tables {
    pub keys: Seq<Seq<char>>,
    pub strings: Seq<Seq<char>>,
    pub streams: Seq<Seq<u8>>,
    pub bstreams: Seq<Seq<u8>>,
}

pub proof fn lemma_le_uint_bound(d: Seq<u8>, at: int, n: nat)
    ensures
        le_uint(d, at, n) < pow256(n),
    decreases n,
{
    if n > 0 {
        lemma_le_uint_bound(d, at + 1, (n - 1) as nat);
        let a = d[at] as nat;
        let r = le_uint(d, at + 1, (n - 1) as nat);
        let q = pow256((n - 1) as nat);
        assert(a + 256 * r < 256 * q) by (nonlinear_arith)
            requires
                a < 256,
                r < q,
        ;
    }
}

pub proof fn lemma_read_uint(d: Seq<u8>, pos: int, n: nat)
    ensures
        read_uint(d, pos, n) matches Ok((v, p)) ==> p == pos + n && 0 <= pos && p <= d.len() && v
            < pow256(n),
{
    lemma_le_uint_bound(d, pos, n);
}

pub proof fn lemma_pow256_small()
    ensures
        pow256(1) == 256,
        pow256(2) == 65536,
        pow256(3) == 16777216,
        pow256(4) == 4294967296,
        pow256(5) == 1099511627776,
        pow256(6) == 281474976710656,
        pow256(7) == 72057594037927936,
        pow256(8) == 18446744073709551616,
{
    reveal_with_fuel(pow256, 9);
}

pub proof fn lemma_read_uint_by_type(d: Seq<u8>, pos: int, ty: u8)
    requires
        0 <= pos,
    ensures
        read_uint_by_type(d, pos, ty) matches Ok((v, p)) ==> pos <= p && (p <= d.len() || p
            == pos) && v < 4294967296,
{
    lemma_pow256_small();
    if T_UINT_8 <= ty <= T_UINT_32 {
        lemma_read_uint(d, pos, (ty - 12) as nat);
        let n = (ty - 12) as nat;
        if n == 1 {
        } else if n == 2 {
        } else if n == 3 {
        } else {
        }
    }
}

pub proof fn lemma_read_uint_elems(d: Seq<u8>, pos: int, ty: u8, k: nat)
    requires
        0 <= pos <= d.len(),
    ensures
        read_uint_elems(d, pos, ty, k) matches Ok((s, p)) ==> s.len() == k && pos <= p <= d.len()
            && forall|i: int| 0 <= i < s.len() ==> #[trigger] s[i] < 4294967296u64,
    decreases k,
{
    if k > 0 {
        lemma_read_uint_elems(d, pos, ty, (k - 1) as nat);
        if let Ok((s, p)) = read_uint_elems(d, pos, ty, (k - 1) as nat) {
            lemma_read_uint_by_type(d, p, ty);
        }
    }
}

pub proof fn lemma_read_uint_elems_err(d: Seq<u8>, pos: int, ty: u8, k0: nat, k: nat)
    requires
        k0 <= k,
        read_uint_elems(d, pos, ty, k0) is Err,
    ensures
        read_uint_elems(d, pos, ty, k) == read_uint_elems(d, pos, ty, k0),
    decreases k,
{
    if k > k0 {
        lemma_read_uint_elems_err(d, pos, ty, k0, (k - 1) as nat);
    }
}

pub proof fn lemma_read_uint_array(d: Seq<u8>, pos: int)
    ensures
        read_uint_array(d, pos) matches Ok((s, p)) ==> 0 <= pos && pos + 2 <= p <= d.len()
            && forall|i: int| 0 <= i < s.len() ==> #[trigger] s[i] < 4294967296u64,
{
    lemma_read_uint(d, pos, 1);
    if let Ok((ct, p1)) = read_uint(d, pos, 1) {
        lemma_read_uint_by_type(d, p1, ct as u8);
        if let Ok((count, p2)) = read_uint_by_type(d, p1, ct as u8) {
            lemma_read_uint(d, p2, 1);
            if let Ok((et, p3)) = read_uint(d, p2, 1) {
                if et != 0 {
                    lemma_read_uint_elems(d, p3, et as u8, count);
                }
            }
        }
    }
}

/// Decimal digits of `n`.
pub open spec fn decimal(n: nat) -> Seq<char>
    decreases n,
{
    if n < 10 {
        seq![(48 + n) as char]
    } else {
        decimal(n / 10).push((48 + n % 10) as char)
    }
}

/// Name of key `idx`, or `_key:<idx>` when the table has no such key.
pub open spec fn key_name(t: Tables, idx: nat) -> Seq<char> {
    if idx < t.keys.len() {
        t.keys[idx as int]
    } else {
        seq!['_', 'k', 'e', 'y', ':'] + decimal(idx)
    }
}

/// Width in bytes of an index token (key, string, stream, bstream) or 0 for other types.
pub open spec fn index_width(ty: u8) -> nat {
    if T_KEY_8 <= ty <= T_KEY_32 {
        (ty - T_KEY_8 + 1) as nat
    } else if T_STRING_8 <= ty <= T_STRING_32 {
        (ty - T_STRING_8 + 1) as nat
    } else if T_STREAM_8 <= ty <= T_STREAM_32 {
        (ty - T_STREAM_8 + 1) as nat
    } else if T_BSTREAM_8 <= ty <= T_BSTREAM_32 {
        (ty - T_BSTREAM_8 + 1) as nat
    } else {
        0
    }
}

/// The token at `pos`.
pub open spec fn read_token(d: Seq<u8>, pos: int, t: Tables) -> Result<ValueView, Error>
    decreases d.len() - pos, 0int,
{
    if pos < 0 || pos >= d.len() {
        Err(Error::Truncated(pos as usize))
    } else {
        let ty = d[pos];
        let p = pos + 1;
        if ty == T_NULL {
            Ok(ValueView::Null)
        } else if ty == T_FALSE {
            Ok(ValueView::Bool(false))
        } else if ty == T_TRUE {
            Ok(ValueView::Bool(true))
        } else if T_INT_0 <= ty <= T_INT_32 {
            match read_int(d, p, (ty - T_INT_0) as nat, true) {
                Ok((v, _)) => Ok(ValueView::Int(v as i64)),
                Err(e) => Err(e),
            }
        } else if T_LONG_40 <= ty <= T_LONG_64 {
            match read_int(d, p, (ty - T_LONG_40 + 5) as nat, true) {
                Ok((v, _)) => Ok(ValueView::Int(v as i64)),
                Err(e) => Err(e),
            }
        } else if index_width(ty) > 0 {
            match read_uint(d, p, index_width(ty)) {
                Err(e) => Err(e),
                Ok((idx, _)) => if ty <= T_KEY_32 {
                    Ok(ValueView::Str(key_name(t, idx)))
                } else if ty <= T_STRING_32 {
                    Ok(
                        ValueView::Str(
                            if idx < t.strings.len() {
                                t.strings[idx as int]
                            } else {
                                Seq::empty()
                            },
                        ),
                    )
                } else if ty <= T_STREAM_32 {
                    Ok(
                        ValueView::Stream(
                            idx as u32,
                            if idx < t.streams.len() {
                                t.streams[idx as int]
                            } else {
                                Seq::empty()
                            },
                        ),
                    )
                } else {
                    Ok(
                        ValueView::BStream(
                            idx as u32,
                            if idx < t.bstreams.len() {
                                t.bstreams[idx as int]
                            } else {
                                Seq::empty()
                            },
                        ),
                    )
                },
            }
        } else if ty == T_FLOAT_0 {
            Ok(ValueView::Float(0))
        } else if ty == T_FLOAT {
            match read_uint(d, p, 4) {
                Ok((u, _)) => Ok(ValueView::Float(f32_to_f64_bits(u as u32))),
                Err(e) => Err(e),
            }
        } else if ty == T_DOUBLE {
            match read_uint(d, p, 8) {
                Ok((u, _)) => Ok(ValueView::Float(u as u64)),
                Err(e) => Err(e),
            }
        } else if ty == T_ARRAY {
            match read_uint_array(d, p) {
                Err(e) => Err(e),
                Ok((offs, base)) => match {
                    proof {
                        lemma_read_uint_array(d, p);
                    }
                    read_elements(d, base, offs, offs.len(), t)
                } {
                    Ok(items) => Ok(ValueView::Array(items)),
                    Err(e) => Err(e),
                },
            }
        } else if ty == T_OBJECT {
            match read_uint_array(d, p) {
                Err(e) => Err(e),
                Ok((kidx, p2)) => match read_uint_array(d, p2) {
                    Err(e) => Err(e),
                    Ok((voffs, base)) => match {
                        proof {
                            lemma_read_uint_array(d, p);
                            lemma_read_uint_array(d, p2);
                        }
                        read_entries(d, base, kidx, voffs, min_nat(kidx.len(), voffs.len()), t)
                    } {
                        Ok(entries) => Ok(ValueView::Object(entries)),
                        Err(e) => Err(e),
                    },
                },
            }
        } else {
            Err(Error::UnknownType { ty, pos: pos as usize })
        }
    }
}

/// The first `k` elements of an array whose element offsets are relative to `base`.
pub open spec fn read_elements(d: Seq<u8>, base: int, offs: Seq<u64>, k: nat, t: Tables) -> Result<
    Seq<ValueView>,
    Error,
>
    decreases d.len() - base + 1, k as int,
{
    if k == 0 || k > offs.len() || base > d.len() {
        Ok(Seq::empty())
    } else {
        match read_elements(d, base, offs, (k - 1) as nat, t) {
            Err(e) => Err(e),
            Ok(prev) => {
                let q = base + offs[k - 1];
                if q >= d.len() {
                    Err(Error::Truncated(q as usize))
                } else {
                    match read_token(d, q, t) {
                        Ok(v) => Ok(prev.push(v)),
                        Err(e) => Err(e),
                    }
                }
            },
        }
    }
}

/// The first `k` entries of an object, inserted in order.
pub open spec fn read_entries(
    d: Seq<u8>,
    base: int,
    kidx: Seq<u64>,
    voffs: Seq<u64>,
    k: nat,
    t: Tables,
) -> Result<Seq<(Seq<char>, ValueView)>, Error>
    decreases d.len() - base + 1, k as int,
{
    if k == 0 || k > kidx.len() || k > voffs.len() || base > d.len() {
        Ok(Seq::empty())
    } else {
        match read_entries(d, base, kidx, voffs, (k - 1) as nat, t) {
            Err(e) => Err(e),
            Ok(prev) => {
                let q = base + voffs[k - 1];
                if q >= d.len() {
                    Err(Error::Truncated(q as usize))
                } else {
                    match read_token(d, q, t) {
                        Ok(v) => Ok(insert_entry(prev, key_name(t, kidx[k - 1] as nat), v)),
                        Err(e) => Err(e),
                    }
                }
            },
        }
    }
}

/// `k` consecutive little-endian u32 values starting at `pos`.
pub open spec fn read_u32s(d: Seq<u8>, pos: int, k: nat) -> Result<(Seq<nat>, int), Error>
    decreases k,
{
    if k == 0 {
        Ok((Seq::empty(), pos))
    } else {
        match read_u32s(d, pos, (k - 1) as nat) {
            Err(e) => Err(e),
            Ok((s, p)) => match read_uint(d, p, 4) {
                Err(e) => Err(e),
                Ok((v, p2)) => Ok((s.push(v), p2)),
            },
        }
    }
}

pub proof fn lemma_read_u32s_err(d: Seq<u8>, pos: int, k0: nat, k: nat)
    requires
        k0 <= k,
        read_u32s(d, pos, k0) is Err,
    ensures
        read_u32s(d, pos, k) == read_u32s(d, pos, k0),
    decreases k,
{
    if k > k0 {
        lemma_read_u32s_err(d, pos, k0, (k - 1) as nat);
    }
}

pub proof fn lemma_read_u32s(d: Seq<u8>, pos: int, k: nat)
    ensures
        read_u32s(d, pos, k) matches Ok((s, p)) ==> s.len() == k && (forall|i: int|
            0 <= i < k ==> #[trigger] s[i] < 4294967296) && (k > 0 ==> 0 <= pos && p == pos + 4 * k
            && p <= d.len()) && (k == 0 ==> p == pos),
    decreases k,
{
    if k > 0 {
        lemma_read_u32s(d, pos, (k - 1) as nat);
        if let Ok((s, p)) = read_u32s(d, pos, (k - 1) as nat) {
            lemma_read_uint(d, p, 4);
            lemma_pow256_small();
        }
    }
}

/// The fixed part of a PSB header.
pub struct Header {
    pub version: nat,
    pub flags: nat,
    /// keys offsets, keys blob, strings offsets, strings blob, streams offsets,
    /// streams sizes, streams blob, root, then (version 4) the three bstream offsets.
    pub offsets: Seq<nat>,
}

pub const MAGIC: [u8; 4] = [0x50, 0x53, 0x42, 0x00];

/// The header: magic, version, flags, offset table (plus checksum from version 3).
pub open spec fn read_header(d: Seq<u8>) -> Result<Header, Error> {
    if d.len() < 4 {
        Err(Error::Truncated(0))
    } else if d.subrange(0, 4) != MAGIC@ {
        Err(Error::BadMagic)
    } else {
        match read_uint(d, 4, 2) {
            Err(e) => Err(e),
            Ok((version, _)) => match read_uint(d, 6, 2) {
                Err(e) => Err(e),
                Ok((flags, _)) => match read_u32s(d, 8, 8) {
                    Err(e) => Err(e),
                    Ok((main, p)) => {
                        let after_checksum = if version >= 3 {
                            read_uint(d, p, 4)
                        } else {
                            Ok((0, p))
                        };
                        match after_checksum {
                            Err(e) => Err(e),
                            Ok((_c, p2)) => if version >= 4 {
                                match read_u32s(d, p2, 3) {
                                    Err(e) => Err(e),
                                    Ok((extra, _)) => Ok(
                                        Header { version, flags, offsets: main + extra },
                                    ),
                                }
                            } else {
                                Ok(Header { version, flags, offsets: main + seq![0nat, 0nat, 0nat] })
                            },
                        }
                    },
                },
            },
        }
    }
}

/// The key names table, by format version.
pub open spec fn read_keys(d: Seq<u8>, h: Header) -> Result<(Seq<Seq<char>>, int), Error> {
    if h.version == 1 {
        read_cstr_table(d, h.offsets[0] as int, h.offsets[1] as int)
    } else {
        read_trie_names(d, h.offsets[1] as int)
    }
}

/// All tables a file's tokens refer to.
pub open spec fn read_tables(d: Seq<u8>, h: Header) -> Result<Tables, Error> {
    match read_keys(d, h) {
        Err(e) => Err(e),
        Ok((keys, _)) => match read_cstr_table(d, h.offsets[2] as int, h.offsets[3] as int) {
            Err(e) => Err(e),
            Ok((strings, _)) => match read_stream_table(
                d,
                h.offsets[4] as int,
                h.offsets[5] as int,
                h.offsets[6] as int,
            ) {
                Err(e) => Err(e),
                Ok(streams) => if h.version >= 4 {
                    match read_stream_table(
                        d,
                        h.offsets[8] as int,
                        h.offsets[9] as int,
                        h.offsets[10] as int,
                    ) {
                        Err(e) => Err(e),
                        Ok(bstreams) => Ok(Tables { keys, strings, streams, bstreams }),
                    }
                } else {
                    Ok(Tables { keys, strings, streams, bstreams: Seq::empty() })
                },
            },
        },
    }
}

/// The value tree of a PSB file.
pub open spec fn read_file(d: Seq<u8>) -> Result<ValueView, Error> {
    match read_header(d) {
        Err(e) => Err(e),
        Ok(h) => match read_tables(d, h) {
            Err(e) => Err(e),
            Ok(t) => read_token(d, h.offsets[7] as int, t),
        },
    }
}

/// What reading a PSB file gives: the value tree, the first error met, or
/// `Truncated` (with the data's length) when the data refers outside itself
/// or a key-trie chain loops.
pub open spec fn read_result(d: Seq<u8>) -> Result<ValueView, Error> {
    if file_readable(d) {
        read_file(d)
    } else {
        Err(Error::Truncated(d.len() as usize))
    }
}

/// Reading the file neither indexes past its end nor loops: string offsets
/// of the tables lie within the data and key-trie chains reach the root.
pub open spec fn file_readable(d: Seq<u8>) -> bool {
    match read_header(d) {
        Err(e) => true,
        Ok(h) => {
            &&& (h.version == 1 ==> cstr_table_defined(d, h.offsets[0] as int, h.offsets[1] as int))
            &&& (h.version != 1 ==> trie_names_defined(d, h.offsets[1] as int))
            &&& (read_keys(d, h) is Ok ==> cstr_table_defined(
                d,
                h.offsets[2] as int,
                h.offsets[3] as int,
            ))
        },
    }
}

} // verus!
