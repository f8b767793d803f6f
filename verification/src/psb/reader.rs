//! PSB binary reader.
use vstd::prelude::*;
use vstd::string::StringExecFns;
use vstd::utf8::{decode_utf8, valid_utf8};
use crate::psb::Error;
use crate::psb::value::{
    lemma_view_entries_len, lemma_view_values_len, lemma_view_values_push, object_insert,
    view_entries, view_values, Stream, Value, ValueView,
};
use crate::psb::float::f32_bits_to_f64_bits;
use crate::psb::format::{read_result, 
    Header, MAGIC, T_ARRAY, T_BSTREAM_32, T_BSTREAM_8, T_DOUBLE, T_FALSE, T_FLOAT, T_FLOAT_0, T_INT_0, T_INT_16, T_INT_24, T_INT_32, T_INT_8, T_KEY_32, T_KEY_8, T_LONG_40, T_LONG_64, T_NULL, T_OBJECT, T_STREAM_32, T_STREAM_8, T_STRING_32, T_STRING_8, T_TRUE, T_UINT_16, T_UINT_24, T_UINT_32, T_UINT_8, Tables, chain_bytes, chain_ends, chain_fuel, chain_ok, chains_terminate, climb, lemma_chain_stuck, lemma_climb_chain_ok, lemma_climb_step, cstr_at, cstr_end, cstr_list, cstr_table_defined, cstrs_in_bounds, decimal, file_readable, get_or0, index_width, key_name, le_uint, lemma_le_uint_bound, lemma_pow256_small, lemma_read_u32s, lemma_read_u32s_err, lemma_read_uint, lemma_read_uint_array, lemma_read_uint_by_type, lemma_read_uint_elems, lemma_read_uint_elems_err, min_nat, pow256, read_cstr_table, read_elements, read_entries, read_file, read_header, read_int, read_keys, read_stream_table, read_tables, read_token, read_trie_names, read_u32s, read_uint, read_uint_array, read_uint_by_type, read_uint_elems, signed_value, stream_list, trie_name, trie_names_defined, utf8_lossy, utf8_lossy_invalid,
};

verus! {

/// Calls `String::from_utf8_lossy` (then `into_owned`). Valid UTF-8 comes
/// back as the text it encodes, as std documents; what other bytes become is
/// named `utf8_lossy_invalid` of the bytes.
#[verifier::external_body]
fn lossy_string(bytes: &[u8]) -> (s: String)
    ensures
        valid_utf8(bytes@) ==> s@ == decode_utf8(bytes@),
        !valid_utf8(bytes@) ==> s@ == utf8_lossy_invalid(bytes@),
{
    String::from_utf8_lossy(bytes).into_owned()
}

/// Decimal text of `n`.
pub fn decimal_string(n: u64) -> (s: String)
    ensures
        s@ == decimal(n as nat),
    decreases n,
{
    let digit: &str = match n % 10 {
        0 => "0",
        1 => "1",
        2 => "2",
        3 => "3",
        4 => "4",
        5 => "5",
        6 => "6",
        7 => "7",
        8 => "8",
        _ => "9",
    };
    proof {
        reveal_strlit("0");
        reveal_strlit("1");
        reveal_strlit("2");
        reveal_strlit("3");
        reveal_strlit("4");
        reveal_strlit("5");
        reveal_strlit("6");
        reveal_strlit("7");
        reveal_strlit("8");
        reveal_strlit("9");
    }
    assert(digit@ == seq![(48 + n % 10) as char]);
    if n < 10 {
        String::from_str(digit)
    } else {
        let mut s = decimal_string(n / 10);
        s.append(digit);
        s
    }
}

fn get_or_zero(arr: &Vec<u64>, i: u64) -> (r: u64)
    ensures
        r == get_or0(arr@, i),
{
    if i < arr.len() as u64 {
        arr[i as usize]
    } else {
        0
    }
}

/// A copy of `data[start..end]`.
fn copy_bytes(data: &[u8], start: usize, end: usize) -> (v: Vec<u8>)
    requires
        start <= end <= data@.len(),
    ensures
        v@ == data@.subrange(start as int, end as int),
{
    let mut v: Vec<u8> = Vec::new();
    let mut i = start;
    while i < end
        invariant
            start <= i <= end <= data@.len(),
            v@ == data@.subrange(start as int, i as int),
        decreases end - i,
    {
        v.push(data[i]);
        i = i + 1;
    }
    v
}

proof fn lemma_read_elements_err(
    d: Seq<u8>,
    base: int,
    offs: Seq<u64>,
    k0: nat,
    k: nat,
    t: Tables,
)
    requires
        k0 <= k <= offs.len(),
        base <= d.len(),
        read_elements(d, base, offs, k0, t) is Err,
    ensures
        read_elements(d, base, offs, k, t) == read_elements(d, base, offs, k0, t),
    decreases k,
{
    if k > k0 {
        lemma_read_elements_err(d, base, offs, k0, (k - 1) as nat, t);
    }
}

proof fn lemma_read_entries_err(
    d: Seq<u8>,
    base: int,
    kidx: Seq<u64>,
    voffs: Seq<u64>,
    k0: nat,
    k: nat,
    t: Tables,
)
    requires
        k0 <= k <= kidx.len(),
        k <= voffs.len(),
        base <= d.len(),
        read_entries(d, base, kidx, voffs, k0, t) is Err,
    ensures
        read_entries(d, base, kidx, voffs, k, t) == read_entries(d, base, kidx, voffs, k0, t),
    decreases k,
{
    if k > k0 {
        lemma_read_entries_err(d, base, kidx, voffs, k0, (k - 1) as nat, t);
    }
}

/// Spec view of a reader's decoded tables.
pub open spec fn tables_of(
    keys: Seq<String>,
    strings: Seq<String>,
    streams: Seq<Vec<u8>>,
    bstreams: Seq<Vec<u8>>,
) -> Tables {
    Tables {
        keys: keys.map_values(|s: String| s@),
        strings: strings.map_values(|s: String| s@),
        streams: streams.map_values(|v: Vec<u8>| v@),
        bstreams: bstreams.map_values(|v: Vec<u8>| v@),
    }
}

/// A cursor over a PSB file, with the tables decoded so far.
pub struct Reader<'a> {
    data: &'a [u8],
    pos: usize,
    pub version: u16,
    pub flags: u16,
    keys: Vec<String>,
    strings: Vec<String>,
    streams: Vec<Vec<u8>>,
    bstreams: Vec<Vec<u8>>,
}

/// Whether the parent chain from `start` reaches the root.
fn chain_reaches_root(tree: &Vec<u64>, start: u64) -> (b: bool)
    ensures
        b == chain_ends(tree@, start),
{
    let n = tree.len() as u128;
    let mut cur = start;
    let mut steps: u128 = 0;
    while cur != 0 && steps <= n
        invariant
            n == tree@.len(),
            n <= usize::MAX,
            steps <= n + 1,
            cur == climb(tree@, start, steps as nat),
            forall|j: nat| j < steps ==> #[trigger] climb(tree@, start, j) != 0,
        decreases n + 1 - steps,
    {
        proof {
            lemma_climb_step(tree@, start, steps as nat);
        }
        cur = get_or_zero(tree, cur);
        steps = steps + 1;
    }
    proof {
        if cur == 0 {
            lemma_climb_chain_ok(tree@, start, steps as nat);
        } else {
            lemma_chain_stuck(tree@, start);
        }
    }
    cur == 0
}

/// Whether every string of a table with offsets `offs` starts within the data.
fn starts_in_bounds(offs: &Vec<u64>, blob: u32, len: usize) -> (b: bool)
    ensures
        b == forall|i: int| 0 <= i < offs@.len() ==> blob + #[trigger] offs@[i] <= len,
{
    let mut i: usize = 0;
    while i < offs.len()
        invariant
            i <= offs@.len(),
            forall|j: int| 0 <= j < i ==> blob + #[trigger] offs@[j] <= len,
        decreases offs@.len() - i,
    {
        if blob as u128 + offs[i] as u128 > len as u128 {
            return false;
        }
        i = i + 1;
    }
    true
}

/// Whether `read` can read `data`: string offsets of the tables lie within
/// the data and every key name's parent chain reaches the root.
pub fn readable(data: &[u8]) -> (b: bool)
    ensures
        b == file_readable(data@),
{
    let ghost d = data@;
    let mut r = Reader::new(data);
    let o = match r.read_header() {
        Ok(o) => o,
        Err(_) => {
            return true;
        },
    };
    let ghost h = read_header(d)->Ok_0;
    let len = data.len();
    if r.version == 1 {
        r.pos = o[0] as usize;
        match r.read_uint_array() {
            Err(_) => {
                return true;
            },
            Ok(offs) => {
                if !starts_in_bounds(&offs, o[1], len) {
                    return false;
                }
            },
        }
    } else {
        r.pos = o[1] as usize;
        let ghost p0 = r.position();
        assert(p0 == h.offsets[1]);
        let vo = match r.read_uint_array() {
            Ok(a) => a,
            Err(_) => {
                return true;
            },
        };
        let ghost p1 = r.position();
        let tree = match r.read_uint_array() {
            Ok(a) => a,
            Err(_) => {
                return true;
            },
        };
        let ghost p2 = r.position();
        let tails = match r.read_uint_array() {
            Ok(a) => a,
            Err(_) => {
                return true;
            },
        };
        let ghost p3 = r.position();
        assert(read_uint_array(d, p0) == Ok::<(Seq<u64>, int), Error>((vo@, p1)));
        assert(read_uint_array(d, p1) == Ok::<(Seq<u64>, int), Error>((tree@, p2)));
        assert(read_uint_array(d, p2) == Ok::<(Seq<u64>, int), Error>((tails@, p3)));
        let mut i: usize = 0;
        let mut ok = true;
        while i < tails.len() && ok
            invariant
                i <= tails@.len(),
                ok ==> forall|j: int| 0 <= j < i ==> chain_ends(tree@, get_or0(tree@, #[trigger] tails@[j])),
                !ok ==> !chains_terminate(tree@, tails@),
            decreases tails@.len() - i + (if ok { 1int } else { 0int }),
        {
            let start = get_or_zero(&tree, tails[i]);
            if !chain_reaches_root(&tree, start) {
                ok = false;
            } else {
                i = i + 1;
            }
        }
        if !ok {
            return false;
        }
        assert(chains_terminate(tree@, tails@));
    }
    r.pos = o[2] as usize;
    match r.read_uint_array() {
        Err(_) => true,
        Ok(offs) => starts_in_bounds(&offs, o[3], len),
    }
}

/// Parses a PSB file into a value tree, as [`read_result`] says.
pub fn read(data: &[u8]) -> (res: Result<Value, Error>)
    ensures
        match read_result(data@) {
            Ok(v) => res matches Ok(r) && r@ == v,
            Err(e) => res == Err::<Value, Error>(e),
        },
{
    if !readable(data) {
        return Err(Error::Truncated(data.len()));
    }
    let mut r = Reader::new(data);
    r.parse()
}

impl<'a> Reader<'a> {
    pub closed spec fn input(&self) -> Seq<u8> {
        self.data@
    }

    pub closed spec fn position(&self) -> int {
        self.pos as int
    }

    /// Version and flags read from the header.
    pub closed spec fn header_fields(&self) -> (u16, u16) {
        (self.version, self.flags)
    }

    pub closed spec fn tables(&self) -> Tables {
        tables_of(self.keys@, self.strings@, self.streams@, self.bstreams@)
    }

    /// A reader at the start of `data` with empty tables.
    pub fn new(data: &'a [u8]) -> (r: Self)
        ensures
            r.input() == data@,
            r.position() == 0,
            r.header_fields() == (0u16, 0u16),
            r.tables() == tables_of(Seq::empty(), Seq::empty(), Seq::empty(), Seq::empty()),
    {
        Reader {
            data,
            pos: 0,
            version: 0,
            flags: 0,
            keys: Vec::new(),
            strings: Vec::new(),
            streams: Vec::new(),
            bstreams: Vec::new(),
        }
    }

    fn read_u8(&mut self) -> (r: Result<u8, Error>)
        ensures
            final(self).input() == old(self).input(),
            final(self).tables() == old(self).tables(),
            final(self).version == old(self).version,
            final(self).flags == old(self).flags,
            match read_uint(old(self).input(), old(self).position(), 1) {
                Ok((v, p)) => r == Ok::<u8, Error>(v as u8) && final(self).position() == p,
                Err(e) => r == Err::<u8, Error>(e),
            },
    {
        if self.pos >= self.data.len() {
            return Err(Error::Truncated(self.pos));
        }
        let b = self.data[self.pos];
        self.pos = self.pos + 1;
        proof {
            reveal_with_fuel(le_uint, 2);
        }
        Ok(b)
    }

    fn peek_bytes(&self, n: usize) -> (r: Result<&'a [u8], Error>)
        ensures
            0 <= self.position() && self.position() + n <= self.input().len() ==> (r matches Ok(
                s,
            ) && s@ == self.input().subrange(self.position(), self.position() + n)),
            !(0 <= self.position() && self.position() + n <= self.input().len()) ==> r
                == Err::<&'a [u8], Error>(Error::Truncated(self.pos)),
    {
        if n > self.data.len() || self.pos > self.data.len() - n {
            return Err(Error::Truncated(self.pos));
        }
        Ok(&self.data[self.pos..self.pos + n])
    }

    fn read_bytes(&mut self, n: usize) -> (r: Result<&'a [u8], Error>)
        ensures
            final(self).input() == old(self).input(),
            final(self).tables() == old(self).tables(),
            final(self).version == old(self).version,
            final(self).flags == old(self).flags,
            0 <= old(self).position() && old(self).position() + n <= old(self).input().len() ==> (r matches Ok(
                s,
            ) && s@ == old(self).input().subrange(old(self).position(), old(self).position() + n)
                && final(self).position() == old(self).position() + n),
            !(0 <= old(self).position() && old(self).position() + n <= old(self).input().len())
                ==> r == Err::<&'a [u8], Error>(Error::Truncated(old(self).pos)),
    {
        match self.peek_bytes(n) {
            Ok(s) => {
                assert(self.position() + n <= self.input().len());
                let l = self.data.len();
                assert(self.input().len() == l);
                self.pos = self.pos + n;
                Ok(s)
            },
            Err(e) => Err(e),
        }
    }

    /// Little-endian value of the bytes of `s` from `i` on.
    proof fn lemma_le_uint_sub(d: Seq<u8>, s: Seq<u8>, at: int, n: nat, i: nat)
        requires
            i <= n,
            0 <= at,
            at + n <= d.len(),
            s == d.subrange(at, at + n),
        ensures
            le_uint(s, i as int, (n - i) as nat) == le_uint(d, at + i, (n - i) as nat),
        decreases n - i,
    {
        if i < n {
            Self::lemma_le_uint_sub(d, s, at, n, i + 1);
        }
    }

    fn read_u16(&mut self) -> (r: Result<u16, Error>)
        ensures
            final(self).input() == old(self).input(),
            final(self).tables() == old(self).tables(),
            final(self).version == old(self).version,
            final(self).flags == old(self).flags,
            match read_uint(old(self).input(), old(self).position(), 2) {
                Ok((v, p)) => r == Ok::<u16, Error>(v as u16) && final(self).position() == p,
                Err(e) => r == Err::<u16, Error>(e),
            },
    {
        let v = self.read_n_bytes_int(2, false)?;
        proof {
            lemma_read_uint(old(self).input(), old(self).position(), 2);
            lemma_pow256_small();
        }
        Ok(v as u16)
    }

    fn read_u32(&mut self) -> (r: Result<u32, Error>)
        ensures
            final(self).input() == old(self).input(),
            final(self).tables() == old(self).tables(),
            final(self).version == old(self).version,
            final(self).flags == old(self).flags,
            match read_uint(old(self).input(), old(self).position(), 4) {
                Ok((v, p)) => r == Ok::<u32, Error>(v as u32) && final(self).position() == p,
                Err(e) => r == Err::<u32, Error>(e),
            },
    {
        let v = self.read_n_bytes_int(4, false)?;
        proof {
            lemma_read_uint(old(self).input(), old(self).position(), 4);
            lemma_pow256_small();
        }
        Ok(v as u32)
    }

    /// The `n` bytes at the cursor as an unsigned little-endian value.
    fn read_le_uint(&mut self, n: usize) -> (r: Result<u64, Error>)
        requires
            1 <= n <= 8,
        ensures
            final(self).input() == old(self).input(),
            final(self).tables() == old(self).tables(),
            final(self).version == old(self).version,
            final(self).flags == old(self).flags,
            match read_uint(old(self).input(), old(self).position(), n as nat) {
                Ok((v, p)) => r == Ok::<u64, Error>(v as u64) && final(self).position() == p && (v
                    as int) < pow256(n as nat),
                Err(e) => r == Err::<u64, Error>(e),
            },
    {
        let ghost d = self.input();
        let ghost at = self.position();
        let bytes = self.read_bytes(n)?;
        let mut acc: u64 = 0;
        let mut i: usize = n;
        while i > 0
            invariant
                i <= n <= 8,
                bytes@ == d.subrange(at, at + n),
                0 <= at,
                at + n <= d.len(),
                acc as nat == le_uint(bytes@, i as int, (n - i) as nat),
                (acc as nat) < pow256((n - i) as nat),
            decreases i,
        {
            let b = bytes[i - 1];
            proof {
                lemma_le_uint_bound(bytes@, (i - 1) as int, (n - i + 1) as nat);
                assert(le_uint(bytes@, (i - 1) as int, (n - i + 1) as nat) == b as nat + 256
                    * le_uint(bytes@, i as int, (n - i) as nat));
                Self::lemma_pow256_mono((n - i + 1) as nat, 8);
                lemma_pow256_small();
            }
            acc = (b as u64) + 256 * acc;
            i = i - 1;
        }
        proof {
            Self::lemma_le_uint_sub(d, bytes@, at, n as nat, 0);
            lemma_le_uint_bound(d, at, n as nat);
        }
        Ok(acc)
    }

    /// An `n`-byte little-endian integer, sign-extended when `signed`.
    fn read_n_bytes_int(&mut self, n: usize, signed: bool) -> (r: Result<i64, Error>)
        requires
            n <= 8,
        ensures
            final(self).input() == old(self).input(),
            final(self).tables() == old(self).tables(),
            final(self).version == old(self).version,
            final(self).flags == old(self).flags,
            match read_int(old(self).input(), old(self).position(), n as nat, signed) {
                Ok((v, p)) => r == Ok::<i64, Error>(v as i64) && final(self).position() == p,
                Err(e) => r == Err::<i64, Error>(e),
            },
            n < 8 && !signed ==> (r matches Ok(v) ==> 0 <= v),
    {
        if n == 0 {
            return Ok(0);
        }
        let u = self.read_le_uint(n)?;
        proof {
            lemma_pow256_small();
        }
        if n == 8 {
            if u >= 0x8000_0000_0000_0000 {
                Ok(((u - 0x8000_0000_0000_0000) as i64) + i64::MIN)
            } else {
                Ok(u as i64)
            }
        } else if signed {
            let full: u64 = 1u64 << ((n * 8) as u64);
            proof {
                Self::lemma_pow256_shift(n as nat);
                Self::lemma_pow256_mono(n as nat, 7);
            }
            if 2 * u >= full {
                Ok((u as i64) - (full as i64))
            } else {
                Ok(u as i64)
            }
        } else {
            proof {
                Self::lemma_pow256_mono(n as nat, 7);
            }
            Ok(u as i64)
        }
    }

    proof fn lemma_pow256_mono(a: nat, b: nat)
        requires
            a <= b,
        ensures
            pow256(a) <= pow256(b),
        decreases b,
    {
        if a < b {
            Self::lemma_pow256_mono(a, (b - 1) as nat);
        }
    }

    proof fn lemma_pow256_shift(n: nat)
        requires
            1 <= n <= 7,
        ensures
            (1u64 << ((n * 8) as u64)) == pow256(n),
    {
        lemma_pow256_small();
        if n == 1 {
            assert(1u64 << 8u64 == 256) by (bit_vector);
        } else if n == 2 {
            assert(1u64 << 16u64 == 65536) by (bit_vector);
        } else if n == 3 {
            assert(1u64 << 24u64 == 16777216) by (bit_vector);
        } else if n == 4 {
            assert(1u64 << 32u64 == 4294967296) by (bit_vector);
        } else if n == 5 {
            assert(1u64 << 40u64 == 1099511627776) by (bit_vector);
        } else if n == 6 {
            assert(1u64 << 48u64 == 281474976710656) by (bit_vector);
        } else {
            assert(1u64 << 56u64 == 72057594037927936) by (bit_vector);
        }
    }


    fn read_uint_by_type(&mut self, ty: u8) -> (r: Result<u64, Error>)
        ensures
            final(self).input() == old(self).input(),
            final(self).tables() == old(self).tables(),
            final(self).version == old(self).version,
            final(self).flags == old(self).flags,
            match read_uint_by_type(old(self).input(), old(self).position(), ty) {
                Ok((v, p)) => r == Ok::<u64, Error>(v as u64) && final(self).position() == p,
                Err(e) => r == Err::<u64, Error>(e),
            },
    {
        proof {
            lemma_pow256_small();
            lemma_read_uint(old(self).input(), old(self).position(), (ty - 12) as nat);
        }
        if ty == 0 {
            Ok(0)
        } else if ty == T_UINT_8 {
            match self.read_u8() {
                Ok(v) => Ok(v as u64),
                Err(e) => Err(e),
            }
        } else if ty == T_UINT_16 {
            match self.read_u16() {
                Ok(v) => Ok(v as u64),
                Err(e) => Err(e),
            }
        } else if ty == T_UINT_24 {
            match self.read_n_bytes_int(3, false) {
                Ok(v) => Ok(v as u64),
                Err(e) => Err(e),
            }
        } else if ty == T_UINT_32 {
            match self.read_u32() {
                Ok(v) => Ok(v as u64),
                Err(e) => Err(e),
            }
        } else {
            Err(Error::InvalidUintType(ty))
        }
    }

    fn read_uint_array(&mut self) -> (r: Result<Vec<u64>, Error>)
        ensures
            final(self).input() == old(self).input(),
            final(self).tables() == old(self).tables(),
            final(self).version == old(self).version,
            final(self).flags == old(self).flags,
            match read_uint_array(old(self).input(), old(self).position()) {
                Ok((v, p)) => (r matches Ok(a) && a@ == v) && final(self).position() == p,
                Err(e) => r == Err::<Vec<u64>, Error>(e),
            },
    {
        let ghost d = self.input();
        let ghost p0 = self.position();
        proof {
            lemma_read_uint(d, p0, 1);
        }
        let count_type = self.read_u8()?;
        let ghost p1 = self.position();
        proof {
            lemma_read_uint_by_type(d, p1, count_type);
            lemma_pow256_small();
        }
        let count = self.read_uint_by_type(count_type)? as usize;
        let ghost p2 = self.position();
        proof {
            lemma_read_uint(d, p2, 1);
        }
        let elem_type = self.read_u8()?;
        let ghost p3 = self.position();
        let mut out: Vec<u64> = Vec::new();
        if elem_type == 0 {
            let mut i: usize = 0;
            while i < count
                invariant
                    i <= count,
                    out@ == Seq::new(i as nat, |k: int| 0u64),
                decreases count - i,
            {
                out.push(0);
                i = i + 1;
            }
            assert(out@ =~= Seq::new(count as nat, |k: int| 0u64));
            return Ok(out);
        }
        let mut i: usize = 0;
        while i < count
            invariant
                i <= count,
                d == old(self).input(),
                p0 == old(self).position(),
                self.input() == d,
                self.tables() == old(self).tables(),
                self.version == old(self).version,
                self.flags == old(self).flags,
                0 <= p3 <= d.len(),
                read_uint(d, p0, 1) == Ok::<(nat, int), Error>((count_type as nat, p1)),
                read_uint_by_type(d, p1, count_type) == Ok::<(nat, int), Error>((count as nat, p2)),
                read_uint(d, p2, 1) == Ok::<(nat, int), Error>((elem_type as nat, p3)),
                read_uint_elems(d, p3, elem_type, i as nat) == Ok::<(Seq<u64>, int), Error>(
                    (out@, self.position()),
                ),
            decreases count - i,
        {
            proof {
                lemma_read_uint_elems(d, p3, elem_type, i as nat);
                lemma_read_uint_by_type(d, self.position(), elem_type);
            }
            let v = match self.read_uint_by_type(elem_type) {
                Ok(v) => v,
                Err(e) => {
                    proof {
                        lemma_read_uint_elems_err(d, p3, elem_type, (i + 1) as nat, count as nat);
                    }
                    return Err(e);
                },
            };
            out.push(v);
            i = i + 1;
        }
        Ok(out)
    }

    fn read_cstring_at(&self, start: usize) -> (s: String)
        requires
            start <= self.input().len(),
        ensures
            s@ == cstr_at(self.input(), start as int),
    {
        let mut end = start;
        while end < self.data.len() && self.data[end] != 0
            invariant
                start <= end <= self.data@.len(),
                cstr_end(self.data@, end as int) == cstr_end(self.data@, start as int),
            decreases self.data@.len() - end,
        {
            end = end + 1;
        }
        lossy_string(&self.data[start..end])
    }

    fn read_strings(&mut self, blob_offset: usize) -> (r: Result<Vec<String>, Error>)
        requires
            cstr_table_defined(old(self).input(), old(self).position(), blob_offset as int),
            blob_offset < 4294967296u64,
        ensures
            final(self).input() == old(self).input(),
            final(self).tables() == old(self).tables(),
            final(self).version == old(self).version,
            final(self).flags == old(self).flags,
            match read_cstr_table(old(self).input(), old(self).position(), blob_offset as int) {
                Ok((v, p)) => (r matches Ok(a) && a@.map_values(|x: String| x@) == v)
                    && final(self).position() == p,
                Err(e) => r == Err::<Vec<String>, Error>(e),
            },
    {
        let ghost d = self.input();
        proof {
            lemma_read_uint_array(d, self.position());
        }
        let offsets = self.read_uint_array()?;
        let mut out: Vec<String> = Vec::new();
        let mut i: usize = 0;
        while i < offsets.len()
            invariant
                i <= offsets@.len(),
                self.input() == d,
                cstrs_in_bounds(d, blob_offset as int, offsets@),
                blob_offset < 4294967296u64,
                forall|k: int| 0 <= k < offsets@.len() ==> #[trigger] offsets@[k] < 4294967296u64,
                out@.map_values(|x: String| x@) == cstr_list(d, blob_offset as int, offsets@).subrange(
                    0,
                    i as int,
                ),
            decreases offsets@.len() - i,
        {
            let at64 = blob_offset as u64 + offsets[i];
            let l = self.data.len();
            assert(at64 <= l);
            let at = at64 as usize;
            let s = self.read_cstring_at(at);
            assert(cstr_list(d, blob_offset as int, offsets@)[i as int] == s@);
            let ghost prev = out@;
            out.push(s);
            assert(out@.map_values(|x: String| x@) =~= prev.map_values(|x: String| x@).push(s@));
            i = i + 1;
            assert(out@.map_values(|x: String| x@) =~= cstr_list(
                d,
                blob_offset as int,
                offsets@,
            ).subrange(0, i as int));
        }
        assert(cstr_list(d, blob_offset as int, offsets@).subrange(0, i as int) =~= cstr_list(
            d,
            blob_offset as int,
            offsets@,
        ));
        Ok(out)
    }



    fn read_key_names_v1(&mut self, blob_offset: usize) -> (r: Result<Vec<String>, Error>)
        requires
            cstr_table_defined(old(self).input(), old(self).position(), blob_offset as int),
            blob_offset < 4294967296u64,
        ensures
            final(self).input() == old(self).input(),
            final(self).tables() == old(self).tables(),
            final(self).version == old(self).version,
            final(self).flags == old(self).flags,
            match read_cstr_table(old(self).input(), old(self).position(), blob_offset as int) {
                Ok((v, p)) => (r matches Ok(a) && a@.map_values(|x: String| x@) == v)
                    && final(self).position() == p,
                Err(e) => r == Err::<Vec<String>, Error>(e),
            },
    {
        self.read_strings(blob_offset)
    }

    /// Decodes key names stored as a trie: value offsets, parent tree, tails.
    /// A name is recovered by walking up the parent chain from its leaf.
    fn read_key_names_v2(&mut self) -> (r: Result<Vec<String>, Error>)
        requires
            trie_names_defined(old(self).input(), old(self).position()),
        ensures
            final(self).input() == old(self).input(),
            final(self).tables() == old(self).tables(),
            final(self).version == old(self).version,
            final(self).flags == old(self).flags,
            match read_trie_names(old(self).input(), old(self).position()) {
                Ok((v, p)) => (r matches Ok(a) && a@.map_values(|x: String| x@) == v)
                    && final(self).position() == p,
                Err(e) => r == Err::<Vec<String>, Error>(e),
            },
    {
        let ghost d = self.input();
        let ghost p0 = self.position();
        let value_offsets = self.read_uint_array()?;
        let ghost p1 = self.position();
        let tree = self.read_uint_array()?;
        let ghost p2 = self.position();
        let tails = self.read_uint_array()?;
        let ghost p3 = self.position();
        let ghost vo = value_offsets@;
        let ghost tr = tree@;
        assert(read_uint_array(d, p0) == Ok::<(Seq<u64>, int), Error>((vo, p1)));
        assert(read_uint_array(d, p1) == Ok::<(Seq<u64>, int), Error>((tr, p2)));
        assert(read_uint_array(d, p2) == Ok::<(Seq<u64>, int), Error>((tails@, p3)));
        assert(d == old(self).input());
        assert(p0 == old(self).position());
        assert(trie_names_defined(d, p0));
        assert(chains_terminate(tr, tails@));
        let mut names: Vec<String> = Vec::new();
        let mut t: usize = 0;
        while t < tails.len()
            invariant
                t <= tails@.len(),
                vo == value_offsets@,
                tr == tree@,
                chains_terminate(tr, tails@),
                names@.map_values(|x: String| x@) == Seq::new(
                    tails@.len(),
                    |i: int| trie_name(vo, tr, tails@[i]),
                ).subrange(0, t as int),
            decreases tails@.len() - t,
        {
            let tail = tails[t];
            let start = get_or_zero(&tree, tail);
            let ghost fuel = chain_fuel(tr, start);
            assert(chain_ends(tr, get_or0(tr, tails@[t as int])));
            assert(chain_ok(tr, start, fuel));
            let mut current = start;
            let mut rev: Vec<u8> = Vec::new();
            let ghost mut rest: nat = fuel;
            let ghost mut suffix: Seq<u8> = Seq::empty();
            while current != 0
                invariant
                    vo == value_offsets@,
                    tr == tree@,
                    chain_ok(tr, current, rest),
                    chain_bytes(tr, vo, start, fuel) == chain_bytes(tr, vo, current, rest)
                        + suffix,
                    suffix.len() == rev@.len(),
                    forall|k: int|
                        0 <= k < suffix.len() ==> suffix[k] == rev@[rev@.len() - 1 - k],
                decreases rest,
            {
                let parent = get_or_zero(&tree, current);
                let parent_off = get_or_zero(&value_offsets, parent);
                let ch = current.wrapping_sub(parent_off) as u8;
                proof {
                    assert(chain_bytes(tr, vo, current, rest) == chain_bytes(
                        tr,
                        vo,
                        parent,
                        (rest - 1) as nat,
                    ).push(ch));
                    assert(chain_bytes(tr, vo, parent, (rest - 1) as nat).push(ch) + suffix
                        =~= chain_bytes(tr, vo, parent, (rest - 1) as nat) + (seq![ch]
                        + suffix));
                }
                rev.push(ch);
                proof {
                    suffix = seq![ch] + suffix;
                    rest = (rest - 1) as nat;
                }
                current = parent;
            }
            let mut bytes: Vec<u8> = Vec::new();
            let mut j: usize = rev.len();
            while j > 0
                invariant
                    j <= rev@.len(),
                    suffix.len() == rev@.len(),
                    forall|k: int|
                        0 <= k < suffix.len() ==> suffix[k] == rev@[rev@.len() - 1 - k],
                    bytes@ == suffix.subrange(0, rev@.len() - j),
                decreases j,
            {
                bytes.push(rev[j - 1]);
                j = j - 1;
                assert(bytes@ =~= suffix.subrange(0, rev@.len() - j));
            }
            assert(bytes@ =~= chain_bytes(tr, vo, start, fuel));
            let name = lossy_string(&bytes);
            let ghost prev = names@;
            names.push(name);
            assert(names@.map_values(|x: String| x@) =~= prev.map_values(|x: String| x@).push(
                name@,
            ));
            t = t + 1;
            assert(names@.map_values(|x: String| x@) =~= Seq::new(
                tails@.len(),
                |i: int| trie_name(vo, tr, tails@[i]),
            ).subrange(0, t as int));
        }
        assert(Seq::new(tails@.len(), |i: int| trie_name(vo, tr, tails@[i])).subrange(
            0,
            t as int,
        ) =~= Seq::new(tails@.len(), |i: int| trie_name(vo, tr, tails@[i])));
        Ok(names)
    }

    fn read_streams(&mut self, offsets_offset: usize, sizes_offset: usize, data_offset: usize) -> (r:
        Result<Vec<Vec<u8>>, Error>)
        requires
            data_offset < 4294967296u64,
        ensures
            final(self).input() == old(self).input(),
            final(self).tables() == old(self).tables(),
            final(self).version == old(self).version,
            final(self).flags == old(self).flags,
            match read_stream_table(
                old(self).input(),
                offsets_offset as int,
                sizes_offset as int,
                data_offset as int,
            ) {
                Ok(v) => r matches Ok(a) && a@.map_values(|x: Vec<u8>| x@) == v,
                Err(e) => r == Err::<Vec<Vec<u8>>, Error>(e),
            },
    {
        let ghost d = self.input();
        self.pos = offsets_offset;
        proof {
            lemma_read_uint_array(d, offsets_offset as int);
        }
        let offsets = self.read_uint_array()?;
        self.pos = sizes_offset;
        proof {
            lemma_read_uint_array(d, sizes_offset as int);
        }
        let sizes = self.read_uint_array()?;
        let k = if offsets.len() <= sizes.len() {
            offsets.len()
        } else {
            sizes.len()
        };
        let mut streams: Vec<Vec<u8>> = Vec::new();
        let mut i: usize = 0;
        let l = self.data.len();
        assert(streams@.map_values(|x: Vec<u8>| x@) =~= Seq::<Seq<u8>>::empty());
        while i < k
            invariant
                i <= k,
                d == old(self).input(),
                read_uint_array(d, offsets_offset as int) matches Ok((o, _)) && o == offsets@,
                read_uint_array(d, sizes_offset as int) matches Ok((z, _)) && z == sizes@,
                k == min_nat(offsets@.len(), sizes@.len()),
                k <= offsets@.len(),
                k <= sizes@.len(),
                l == d.len(),
                self.input() == d,
                self.tables() == old(self).tables(),
                self.version == old(self).version,
                self.flags == old(self).flags,
                data_offset < 4294967296u64,
                forall|j: int| 0 <= j < offsets@.len() ==> #[trigger] offsets@[j] < 4294967296u64,
                forall|j: int| 0 <= j < sizes@.len() ==> #[trigger] sizes@[j] < 4294967296u64,
                stream_list(d, data_offset as int, offsets@, sizes@, i as nat) == Ok::<
                    Seq<Seq<u8>>,
                    Error,
                >(streams@.map_values(|x: Vec<u8>| x@)),
            decreases k - i,
        {
            let start = data_offset as u64 + offsets[i];
            let end = start + sizes[i];
            if end > l as u64 {
                proof {
                    Self::lemma_stream_list_err(d, data_offset as int, offsets@, sizes@, (i + 1) as nat, k as nat);
                }
                return Err(Error::Truncated(end as usize));
            }
            let blob = copy_bytes(self.data, start as usize, end as usize);
            let ghost prev = streams@;
            streams.push(blob);
            assert(streams@.map_values(|x: Vec<u8>| x@) =~= prev.map_values(|x: Vec<u8>| x@).push(
                blob@,
            ));
            i = i + 1;
        }
        Ok(streams)
    }

    proof fn lemma_stream_list_err(
        d: Seq<u8>,
        data_off: int,
        offs: Seq<u64>,
        sizes: Seq<u64>,
        k0: nat,
        k: nat,
    )
        requires
            k0 <= k,
            stream_list(d, data_off, offs, sizes, k0) is Err,
        ensures
            stream_list(d, data_off, offs, sizes, k) == stream_list(d, data_off, offs, sizes, k0),
        decreases k,
    {
        if k > k0 {
            Self::lemma_stream_list_err(d, data_off, offs, sizes, k0, (k - 1) as nat);
        }
    }

    /// An index whose width is given by the token type.
    fn read_packed_int(&mut self, ty: u8) -> (r: Result<u64, Error>)
        ensures
            final(self).input() == old(self).input(),
            final(self).tables() == old(self).tables(),
            final(self).version == old(self).version,
            final(self).flags == old(self).flags,
            index_width(ty) > 0 ==> match read_uint(
                old(self).input(),
                old(self).position(),
                index_width(ty),
            ) {
                Ok((v, p)) => r == Ok::<u64, Error>(v as u64) && final(self).position() == p,
                Err(e) => r == Err::<u64, Error>(e),
            },
            index_width(ty) == 0 ==> r == Err::<u64, Error>(Error::InvalidUintType(ty)),
    {
        let width: usize = if T_KEY_8 <= ty && ty <= T_KEY_32 {
            (ty - T_KEY_8 + 1) as usize
        } else if T_STRING_8 <= ty && ty <= T_STRING_32 {
            (ty - T_STRING_8 + 1) as usize
        } else if T_STREAM_8 <= ty && ty <= T_STREAM_32 {
            (ty - T_STREAM_8 + 1) as usize
        } else if T_BSTREAM_8 <= ty && ty <= T_BSTREAM_32 {
            (ty - T_BSTREAM_8 + 1) as usize
        } else if T_UINT_8 <= ty && ty <= T_UINT_32 {
            (ty - T_UINT_8 + 1) as usize
        } else {
            return Err(Error::InvalidUintType(ty));
        };
        if T_UINT_8 <= ty && ty <= T_UINT_32 {
            // Unsigned types are not index tokens.
            return Err(Error::InvalidUintType(ty));
        }
        self.read_le_uint(width)
    }

    fn key_at(&self, idx: u64) -> (s: String)
        ensures
            s@ == key_name(self.tables(), idx as nat),
    {
        if idx < self.keys.len() as u64 {
            self.keys[idx as usize].clone()
        } else {
            let mut s = String::from_str("_key:");
            proof {
                reveal_strlit("_key:");
            }
            let digits = decimal_string(idx);
            s.append(digits.as_str());
            s
        }
    }



    fn read_token(&mut self) -> (r: Result<Value, Error>)
        ensures
            final(self).input() == old(self).input(),
            final(self).tables() == old(self).tables(),
            final(self).version == old(self).version,
            final(self).flags == old(self).flags,
            match read_token(old(self).input(), old(self).position(), old(self).tables()) {
                Ok(v) => r matches Ok(x) && x@ == v,
                Err(e) => r == Err::<Value, Error>(e),
            },
        decreases old(self).input().len() - old(self).position(), 0int,
    {
        let ghost d = self.input();
        let ghost t = self.tables();
        let token_pos = self.pos;
        let ty = self.read_u8()?;
        proof {
            reveal_with_fuel(le_uint, 2);
            assert(d[token_pos as int] == ty);
            lemma_pow256_small();
            lemma_read_uint(d, token_pos + 1, index_width(ty));
        }
        if ty == T_NULL {
            Ok(Value::Null)
        } else if ty == T_FALSE {
            Ok(Value::Bool(false))
        } else if ty == T_TRUE {
            Ok(Value::Bool(true))
        } else if T_INT_0 <= ty && ty <= T_INT_32 {
            let n = (ty - T_INT_0) as usize;
            let v = self.read_n_bytes_int(n, true)?;
            Ok(Value::Int(v))
        } else if T_LONG_40 <= ty && ty <= T_LONG_64 {
            let n = (ty - T_LONG_40) as usize + 5;
            let v = self.read_n_bytes_int(n, true)?;
            Ok(Value::Int(v))
        } else if T_KEY_8 <= ty && ty <= T_KEY_32 {
            let idx = self.read_packed_int(ty)?;
            Ok(Value::String(self.key_at(idx)))
        } else if T_STRING_8 <= ty && ty <= T_STRING_32 {
            let idx = self.read_packed_int(ty)?;
            if idx < self.strings.len() as u64 {
                Ok(Value::String(self.strings[idx as usize].clone()))
            } else {
                Ok(Value::String(String::new()))
            }
        } else if T_STREAM_8 <= ty && ty <= T_STREAM_32 {
            let idx = self.read_packed_int(ty)?;
            let data = if idx < self.streams.len() as u64 {
                let src = &self.streams[idx as usize];
                let c = copy_bytes(src.as_slice(), 0, src.len());
                assert(c@ =~= t.streams[idx as int]);
                c
            } else {
                Vec::new()
            };
            proof {
                lemma_pow256_small();
            }
            Ok(Value::Stream(Stream { index: idx as u32, data }))
        } else if T_BSTREAM_8 <= ty && ty <= T_BSTREAM_32 {
            let idx = self.read_packed_int(ty)?;
            let data = if idx < self.bstreams.len() as u64 {
                let src = &self.bstreams[idx as usize];
                let c = copy_bytes(src.as_slice(), 0, src.len());
                assert(c@ =~= t.bstreams[idx as int]);
                c
            } else {
                Vec::new()
            };
            proof {
                lemma_pow256_small();
            }
            Ok(Value::BStream(Stream { index: idx as u32, data }))
        } else if ty == T_FLOAT_0 {
            Ok(Value::Float(0))
        } else if ty == T_FLOAT {
            let bits = self.read_u32()?;
            Ok(Value::Float(f32_bits_to_f64_bits(bits)))
        } else if ty == T_DOUBLE {
            let bits = self.read_le_uint(8)?;
            Ok(Value::Float(bits))
        } else if ty == T_ARRAY {
            self.read_array()
        } else if ty == T_OBJECT {
            self.read_object()
        } else {
            Err(Error::UnknownType { ty, pos: token_pos })
        }
    }

    fn read_array(&mut self) -> (r: Result<Value, Error>)
        requires
            old(self).position() >= 1,
        ensures
            final(self).input() == old(self).input(),
            final(self).tables() == old(self).tables(),
            final(self).version == old(self).version,
            final(self).flags == old(self).flags,
            match read_uint_array(old(self).input(), old(self).position()) {
                Err(e) => r == Err::<Value, Error>(e),
                Ok((offs, base)) => match read_elements(
                    old(self).input(),
                    base,
                    offs,
                    offs.len(),
                    old(self).tables(),
                ) {
                    Ok(items) => r matches Ok(x) && x@ == ValueView::Array(items),
                    Err(e) => r == Err::<Value, Error>(e),
                },
            },
        decreases old(self).input().len() - old(self).position(), 1int,
    {
        let ghost d = self.input();
        let ghost t = self.tables();
        let ghost p0 = self.position();
        proof {
            lemma_read_uint_array(d, p0);
        }
        let offsets = self.read_uint_array()?;
        let base = self.pos;
        let l = self.data.len();
        let mut out: Vec<Value> = Vec::new();
        let mut i: usize = 0;
        while i < offsets.len()
            invariant
                i <= offsets@.len(),
                d == old(self).input(),
                p0 == old(self).position(),
                t == old(self).tables(),
                self.input() == d,
                self.tables() == t,
                self.version == old(self).version,
                self.flags == old(self).flags,
                l == d.len(),
                p0 + 2 <= base <= d.len(),
                read_uint_array(d, p0) == Ok::<(Seq<u64>, int), Error>((offsets@, base as int)),
                forall|j: int| 0 <= j < offsets@.len() ==> #[trigger] offsets@[j] < 4294967296u64,
                read_elements(d, base as int, offsets@, i as nat, t) == Ok::<Seq<ValueView>, Error>(
                    view_values(out@),
                ),
            decreases offsets@.len() - i,
        {
            let q: u128 = base as u128 + offsets[i] as u128;
            if q >= l as u128 {
                proof {
                    lemma_read_elements_err(d, base as int, offsets@, (i + 1) as nat, offsets@.len(), t);
                }
                return Err(Error::Truncated(q as usize));
            }
            self.pos = q as usize;
            let v = match self.read_token() {
                Ok(v) => v,
                Err(e) => {
                    proof {
                        lemma_read_elements_err(d, base as int, offsets@, (i + 1) as nat, offsets@.len(), t);
                    }
                    return Err(e);
                },
            };
            proof {
                lemma_view_values_push(out@, v);
            }
            out.push(v);
            i = i + 1;
        }
        Ok(Value::Array(out))
    }

    fn read_object(&mut self) -> (r: Result<Value, Error>)
        requires
            old(self).position() >= 1,
        ensures
            final(self).input() == old(self).input(),
            final(self).tables() == old(self).tables(),
            final(self).version == old(self).version,
            final(self).flags == old(self).flags,
            match read_uint_array(old(self).input(), old(self).position()) {
                Err(e) => r == Err::<Value, Error>(e),
                Ok((kidx, p2)) => match read_uint_array(old(self).input(), p2) {
                    Err(e) => r == Err::<Value, Error>(e),
                    Ok((voffs, base)) => match read_entries(
                        old(self).input(),
                        base,
                        kidx,
                        voffs,
                        min_nat(kidx.len(), voffs.len()),
                        old(self).tables(),
                    ) {
                        Ok(entries) => r matches Ok(x) && x@ == ValueView::Object(entries),
                        Err(e) => r == Err::<Value, Error>(e),
                    },
                },
            },
        decreases old(self).input().len() - old(self).position(), 1int,
    {
        let ghost d = self.input();
        let ghost t = self.tables();
        let ghost p0 = self.position();
        proof {
            lemma_read_uint_array(d, p0);
        }
        let key_indices = self.read_uint_array()?;
        let ghost p2 = self.position();
        proof {
            lemma_read_uint_array(d, p2);
        }
        let value_offsets = self.read_uint_array()?;
        let base = self.pos;
        let l = self.data.len();
        let k = if key_indices.len() <= value_offsets.len() {
            key_indices.len()
        } else {
            value_offsets.len()
        };
        let mut obj: Vec<(String, Value)> = Vec::new();
        let mut i: usize = 0;
        assert(view_entries(obj@) =~= Seq::<(Seq<char>, ValueView)>::empty());
        while i < k
            invariant
                i <= k,
                k == min_nat(key_indices@.len(), value_offsets@.len()),
                d == old(self).input(),
                p0 == old(self).position(),
                t == old(self).tables(),
                self.input() == d,
                self.tables() == t,
                self.version == old(self).version,
                self.flags == old(self).flags,
                l == d.len(),
                p0 + 4 <= base <= d.len(),
                read_uint_array(d, p0) == Ok::<(Seq<u64>, int), Error>((key_indices@, p2)),
                read_uint_array(d, p2) == Ok::<(Seq<u64>, int), Error>(
                    (value_offsets@, base as int),
                ),
                forall|j: int|
                    0 <= j < value_offsets@.len() ==> #[trigger] value_offsets@[j] < 4294967296u64,
                read_entries(d, base as int, key_indices@, value_offsets@, i as nat, t) == Ok::<
                    Seq<(Seq<char>, ValueView)>,
                    Error,
                >(view_entries(obj@)),
            decreases k - i,
        {
            let q: u128 = base as u128 + value_offsets[i] as u128;
            if q >= l as u128 {
                proof {
                    lemma_read_entries_err(d, base as int, key_indices@, value_offsets@, (i + 1) as nat, k as nat, t);
                }
                return Err(Error::Truncated(q as usize));
            }
            let key = self.key_at(key_indices[i]);
            self.pos = q as usize;
            let v = match self.read_token() {
                Ok(v) => v,
                Err(e) => {
                    proof {
                        lemma_read_entries_err(d, base as int, key_indices@, value_offsets@, (i + 1) as nat, k as nat, t);
                    }
                    return Err(e);
                },
            };
            object_insert(&mut obj, key, v);
            i = i + 1;
        }
        Ok(Value::Object(obj))
    }



    /// `k` consecutive little-endian u32 values at the cursor.
    fn read_u32_run(&mut self, k: usize) -> (r: Result<Vec<u32>, Error>)
        ensures
            final(self).input() == old(self).input(),
            final(self).tables() == old(self).tables(),
            final(self).version == old(self).version,
            final(self).flags == old(self).flags,
            match read_u32s(old(self).input(), old(self).position(), k as nat) {
                Ok((s, p)) => (r matches Ok(v) && v@.len() == k && forall|i: int|
                    0 <= i < k ==> #[trigger] v@[i] as nat == s[i]) && final(self).position() == p,
                Err(e) => r == Err::<Vec<u32>, Error>(e),
            },
    {
        let ghost d = self.input();
        let ghost p0 = self.position();
        let mut out: Vec<u32> = Vec::new();
        let mut i: usize = 0;
        while i < k
            invariant
                i <= k,
                d == old(self).input(),
                p0 == old(self).position(),
                self.input() == d,
                self.tables() == old(self).tables(),
                self.version == old(self).version,
                self.flags == old(self).flags,
                read_u32s(d, p0, i as nat) matches Ok((s, p)) && p == self.position() && s.len()
                    == i && out@.len() == i && forall|j: int|
                    0 <= j < i ==> #[trigger] out@[j] as nat == s[j],
            decreases k - i,
        {
            proof {
                lemma_read_uint(d, self.position(), 4);
                lemma_pow256_small();
            }
            let v = match self.read_u32() {
                Ok(v) => v,
                Err(e) => {
                    proof {
                        lemma_read_u32s_err(d, p0, (i + 1) as nat, k as nat);
                    }
                    return Err(e);
                },
            };
            out.push(v);
            i = i + 1;
        }
        Ok(out)
    }

    /// Reads magic, version, flags and the offset table; the bstream offsets
    /// are zero before version 4.
    fn read_header(&mut self) -> (r: Result<Vec<u32>, Error>)
        requires
            old(self).position() == 0,
        ensures
            final(self).input() == old(self).input(),
            final(self).tables() == old(self).tables(),
            match read_header(old(self).input()) {
                Ok(h) => r matches Ok(o) && o@.len() == 11 && final(self).version == h.version
                    && (forall|i: int| 0 <= i < 11 ==> #[trigger] o@[i] as nat == h.offsets[i])
                    && h.offsets.len() == 11,
                Err(e) => r == Err::<Vec<u32>, Error>(e),
            },
    {
        let ghost d = self.input();
        proof {
            lemma_pow256_small();
        }
        let magic = self.read_bytes(4)?;
        if !(magic[0] == MAGIC[0] && magic[1] == MAGIC[1] && magic[2] == MAGIC[2] && magic[3]
            == MAGIC[3]) {
            proof {
                if d.subrange(0, 4) == MAGIC@ {
                    assert(magic@[0] == d.subrange(0, 4)[0]);
                    assert(magic@[1] == d.subrange(0, 4)[1]);
                    assert(magic@[2] == d.subrange(0, 4)[2]);
                    assert(magic@[3] == d.subrange(0, 4)[3]);
                }
            }
            return Err(Error::BadMagic);
        }
        assert(d.subrange(0, 4) =~= MAGIC@);
        proof {
            lemma_read_uint(d, 4, 2);
            lemma_read_uint(d, 6, 2);
        }
        self.version = self.read_u16()?;
        self.flags = self.read_u16()?;
        proof {
            lemma_read_u32s(d, 8, 8);
        }
        let mut offsets = self.read_u32_run(8)?;
        if self.version >= 3 {
            let _checksum = self.read_u32()?;
        }
        let ghost p2 = self.position();
        if self.version >= 4 {
            proof {
                lemma_read_u32s(d, p2, 3);
            }
            let extra = self.read_u32_run(3)?;
            offsets.push(extra[0]);
            offsets.push(extra[1]);
            offsets.push(extra[2]);
        } else {
            offsets.push(0);
            offsets.push(0);
            offsets.push(0);
        }
        Ok(offsets)
    }

    /// Reads the header and tables, then the root token.
    pub fn parse(&mut self) -> (res: Result<Value, Error>)
        requires
            old(self).position() == 0,
            file_readable(old(self).input()),
        ensures
            final(self).input() == old(self).input(),
            match read_file(old(self).input()) {
                Ok(v) => res matches Ok(x) && x@ == v,
                Err(e) => res == Err::<Value, Error>(e),
            },
    {
        let ghost d = self.input();
        let o = self.read_header()?;
        let ghost h = read_header(d)->Ok_0;
        let keys = if self.version == 1 {
            self.pos = o[0] as usize;
            self.read_key_names_v1(o[1] as usize)?
        } else {
            self.pos = o[1] as usize;
            self.read_key_names_v2()?
        };
        self.pos = o[2] as usize;
        let strings = self.read_strings(o[3] as usize)?;
        let streams = self.read_streams(o[4] as usize, o[5] as usize, o[6] as usize)?;
        let bstreams = if self.version >= 4 {
            self.read_streams(o[8] as usize, o[9] as usize, o[10] as usize)?
        } else {
            Vec::new()
        };
        self.keys = keys;
        self.strings = strings;
        self.streams = streams;
        self.bstreams = bstreams;
        proof {
            if h.version < 4 {
                assert(self.tables().bstreams =~= Seq::<Seq<u8>>::empty());
            }
            assert(read_tables(d, h) == Ok::<Tables, Error>(self.tables()));
        }
        self.pos = o[7] as usize;
        self.read_token()
    }
}

} // verus!
