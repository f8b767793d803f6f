//! PSB binary writer: header, key-name trie, root token, string table,
//! bstream and stream tables, each stream blob aligned to 32 bytes.
use vstd::prelude::*;
use crate::psb::encoding::{
    adler32_spec, adler_sums, align_up_spec, byte_width, enc_elems, enc_float, enc_indexed, enc_int,
    enc_uint_array, enc_uint_with_type, fits, int_width, le_bytes, lemma_le_bytes_len, lemma_pad, lemma_pow_pos,
    lemma_signed_value_twos, seq_max, twos,
};
use crate::psb::float::{f64_bits_to_f32_bits, f64_to_f32_candidate, f32_exact};
use crate::psb::format::{
    T_DOUBLE, T_FLOAT, T_FLOAT_0, T_INT_0, T_UINT_8, lemma_pow256_small, pow256, signed_value,
};
use crate::psb::layout::{
    blob_order, blob_pos, bytes_lt, entry_lt, entry_order, ins_pos, lemma_blob_pos, lemma_bytes_lt_skip,
    lemma_ins_pos, lemma_pos_of, lemma_sort_by, pos_of, sort_by, text_lt, text_order, has_index, zeros,
};
use crate::psb::value::{
    lemma_view_entries_len, lemma_view_values_len, view_entries, view_values, Stream, Value, ValueView,
};
use crate::psb::layout::{
    Gathered, Layout, Ref, add_ref, add_refs, encode_token, enc_fields, enc_items, key_indices,
    lemma_add_refs_append, no_tables, refs, refs_entries, refs_list,
};
use crate::psb::format::{T_ARRAY, T_BSTREAM_8, T_FALSE, T_NULL, T_OBJECT, T_STREAM_8, T_STRING_8, T_TRUE};
use crate::psb::layout::{
    Offsets, TrieArrays, blob_section, blob_table, body_image, file_image, header_image, header_words,
    layout_of, sorted_tables, string_table, trie_words_fit,
};
use crate::psb::trie::{KeyNamesTrie, lemma_total_len_prefix, name_bytes, spells, total_len, trie_fits, trie_ready};
use crate::psb::Error;
use vstd::utf8::encode_utf8;

verus! {

/// Alignment of every stream blob.
pub const STREAM_ALIGNMENT: usize = 32;

/// Bytes a typed unsigned integer or index token needs for `v` (at most four).
fn bytes_for(v: u64) -> (n: u8)
    ensures
        n == byte_width(v as nat),
        1 <= n <= 4,
{
    if v < 256 {
        1
    } else if v < 65_536 {
        2
    } else if v < 16_777_216 {
        3
    } else {
        4
    }
}

/// Appends the `n` low bytes of `v`, least significant first.
fn push_le(buf: &mut Vec<u8>, v: u64, n: usize)
    requires
        n <= 8,
    ensures
        final(buf)@ == old(buf)@ + le_bytes(v as nat, n as nat),
{
    let mut cur: u64 = v;
    let mut i: usize = 0;
    while i < n
        invariant
            i <= n,
            old(buf)@ + le_bytes(v as nat, n as nat) == buf@ + le_bytes(cur as nat, (n - i) as nat),
        decreases n - i,
    {
        let ghost before = buf@;
        let ghost rest = le_bytes(cur as nat / 256, (n - i - 1) as nat);
        assert(le_bytes(cur as nat, (n - i) as nat) == seq![(cur as nat % 256) as u8] + rest);
        buf.push((cur % 256) as u8);
        assert(before + (seq![(cur as nat % 256) as u8] + rest) =~= buf@ + rest);
        cur = cur / 256;
        i = i + 1;
    }
    assert(buf@ + le_bytes(cur as nat, 0) =~= buf@);
}

/// Appends `value` as a typed unsigned integer.
fn write_uint_with_type(buf: &mut Vec<u8>, value: u64)
    ensures
        final(buf)@ == old(buf)@ + enc_uint_with_type(value as nat),
{
    let n = bytes_for(value);
    buf.push(T_UINT_8 + n - 1);
    let ghost mid = buf@;
    push_le(buf, value, n as usize);
    assert(buf@ =~= old(buf)@ + enc_uint_with_type(value as nat));
}

/// Appends an index token: `base + width - 1`, then the index.
fn write_indexed(buf: &mut Vec<u8>, base: u8, idx: u64)
    requires
        base <= 251,
    ensures
        final(buf)@ == old(buf)@ + enc_indexed(base, idx as nat),
{
    let n = bytes_for(idx);
    buf.push(base + n - 1);
    push_le(buf, idx, n as usize);
    assert(buf@ =~= old(buf)@ + enc_indexed(base, idx as nat));
}

/// Appends a variable-width unsigned array.
fn write_uint_array(buf: &mut Vec<u8>, arr: &[u64])
    ensures
        final(buf)@ == old(buf)@ + enc_uint_array(arr@),
{
    if arr.len() == 0 {
        buf.push(T_UINT_8);
        buf.push(0);
        buf.push(0);
        assert(buf@ =~= old(buf)@ + enc_uint_array(arr@));
        return;
    }
    let mut max: u64 = 0;
    let mut i: usize = 0;
    while i < arr.len()
        invariant
            i <= arr.len(),
            max == seq_max(arr@.take(i as int)),
        decreases arr.len() - i,
    {
        assert(arr@.take(i + 1).drop_last() =~= arr@.take(i as int));
        if arr[i] > max {
            max = arr[i];
        }
        i = i + 1;
    }
    assert(arr@.take(arr.len() as int) =~= arr@);
    write_uint_with_type(buf, arr.len() as u64);
    let elem_bytes = bytes_for(max);
    buf.push(T_UINT_8 + elem_bytes - 1);
    let ghost head = buf@;
    let mut j: usize = 0;
    while j < arr.len()
        invariant
            j <= arr.len(),
            1 <= elem_bytes <= 4,
            buf@ == head + enc_elems(arr@.take(j as int), elem_bytes as nat),
        decreases arr.len() - j,
    {
        assert(arr@.take(j + 1).drop_last() =~= arr@.take(j as int));
        push_le(buf, arr[j], elem_bytes as usize);
        j = j + 1;
        assert(buf@ =~= head + enc_elems(arr@.take(j as int), elem_bytes as nat));
    }
    assert(arr@.take(arr.len() as int) =~= arr@);
    assert(buf@ =~= old(buf)@ + enc_uint_array(arr@));
}

/// Pads `buf` with zeros to a multiple of `alignment`.
fn align(buf: &mut Vec<u8>, alignment: usize)
    requires
        alignment > 0,
    ensures
        final(buf)@ == old(buf)@ + zeros((align_up_spec(old(buf)@.len(), alignment as nat) - old(buf)@.len()) as nat),
{
    let pad = (alignment - buf.len() % alignment) % alignment;
    proof {
        lemma_pad(old(buf)@.len(), alignment as nat);
    }
    let mut k: usize = 0;
    while k < pad
        invariant
            k <= pad,
            buf@ == old(buf)@ + zeros(k as nat),
        decreases pad - k,
    {
        buf.push(0);
        k = k + 1;
        assert(buf@ =~= old(buf)@ + zeros(k as nat));
    }
}

/// Adler-32 checksum.
fn adler32(data: &[u8]) -> (r: u32)
    ensures
        r == adler32_spec(data@),
{
    let mut a: u32 = 1;
    let mut b: u32 = 0;
    let mut i: usize = 0;
    while i < data.len()
        invariant
            i <= data.len(),
            (a as nat, b as nat) == adler_sums(data@.take(i as int)),
            a < 65521 || i == 0,
            b < 65521,
        decreases data.len() - i,
    {
        assert(data@.take(i + 1).drop_last() =~= data@.take(i as int));
        a = (a + data[i] as u32) % 65_521;
        b = (b + a) % 65_521;
        i = i + 1;
    }
    assert(data@.take(data.len() as int) =~= data@);
    assert(a < 65536);
    assert((b << 16u32) | a == b * 65536 + a) by (bit_vector)
        requires
            a < 65536,
            b < 65521,
    ;
    (b << 16) | a
}

/// `256^w` for a width below eight.
fn pow256_u64(w: usize) -> (r: u64)
    requires
        w < 8,
    ensures
        r == pow256(w as nat),
{
    let mut r: u64 = 1;
    let mut i: usize = 0;
    while i < w
        invariant
            i <= w < 8,
            r == pow256(i as nat),
        decreases w - i,
    {
        proof {
            lemma_pow256_small();
            assert(pow256((i + 1) as nat) == 256 * pow256(i as nat));
        }
        r = r * 256;
        i = i + 1;
    }
    r
}

/// Two's-complement bits of `n`.
fn twos_u64(n: i64) -> (u: u64)
    ensures
        u == twos(n),
{
    if n >= 0 {
        n as u64
    } else {
        u64::MAX - ((-(n + 1)) as u64)
    }
}

/// The low `width` bytes of `v` read back as a signed value of that width
/// (`v` itself from width eight on).
fn sign_extend(v: i64, width: usize) -> (r: i64)
    requires
        width >= 1,
    ensures
        width >= 8 ==> r == v,
        width < 8 ==> r == signed_value(twos(v) % pow256(width as nat), width as nat),
{
    if width >= 8 {
        return v;
    }
    let m = pow256_u64(width);
    proof {
        lemma_pow256_small();
        lemma_pow_pos(width as nat);
        assert(m <= 72057594037927936);
    }
    let u = twos_u64(v) % m;
    if u >= m - u {
        (u as i64) - (m as i64)
    } else {
        u as i64
    }
}

/// Whether `n` is a signed integer of `w` bytes, for widths below eight.
fn fits_in(n: i64, w: usize) -> (b: bool)
    requires
        1 <= w < 8,
    ensures
        b == fits(n as int, w as nat),
{
    let m = pow256_u64(w);
    proof {
        lemma_pow256_small();
        lemma_pow_pos(w as nat);
        assert(m <= 72057594037927936);
    }
    let half = (m / 2) as i64;
    -half <= n && n < half
}

/// Writes `value` as a PSB file of format `version`: tables sorted (texts by
/// their UTF-8 bytes, blobs by index, one blob per index), object entries in
/// key order, each blob aligned to 32 bytes.
pub fn write(value: &Value, version: u16) -> (r: Result<Vec<u8>, Error>)
    requires
        trie_fits(key_bytes(value@)),
    ensures
        r is Ok,
        r matches Ok(bytes) ==> exists|t: TrieArrays| #[trigger] written(bytes@, value@, version, t),
{
    let mut w = Writer::new(version);
    w.write(value)
}

/// Whether the key names of `value` fit a trie of 32-bit slots, which `write` needs.
pub fn keys_fit(value: &Value) -> (b: bool)
    ensures
        b == trie_fits(key_bytes(value@)),
{
    let mut w = Writer::new(0);
    w.prepare(value);
    let ghost nb = name_bytes(w.keys@);
    let mut total: u64 = 0;
    let mut i: usize = 0;
    while i < w.keys.len()
        invariant
            i <= w.keys@.len(),
            nb == name_bytes(w.keys@),
            nb == key_bytes(value@),
            total == total_len(nb.take(i as int)),
            total < 0xFF_0000,
        decreases w.keys@.len() - i,
    {
        let n = w.keys[i].as_str().as_bytes().len();
        proof {
            assert(nb.take(i + 1).drop_last() =~= nb.take(i as int));
            assert(nb.take(i + 1).last() == nb[i as int]);
        }
        if n as u64 >= 0xFF_0000 - total - 1 {
            proof {
                lemma_total_len_prefix(nb, i + 1);
            }
            return false;
        }
        total = total + n as u64 + 1;
        i = i + 1;
    }
    assert(nb.take(w.keys@.len() as int) =~= nb);
    true
}

/// `bytes` is the file image of `v` at `version` with key-name trie `t`,
/// whose arrays fit 32-bit words and which spells the keys whenever they can
/// be held by a trie.
pub open spec fn written(bytes: Seq<u8>, v: ValueView, version: u16, t: TrieArrays) -> bool {
    &&& bytes == file_image(v, version, t)
    &&& trie_words_fit(t)
    &&& trie_ready(key_bytes(v)) ==> spells(t, key_bytes(v))
}

/// UTF-8 bytes of the key table the writer builds for `v`.
pub open spec fn key_bytes(v: ValueView) -> Seq<Seq<u8>> {
    layout_of(v).keys.map_values(|k: Seq<char>| encode_utf8(k))
}

/// Appends the bytes of `s`.
fn append_bytes(buf: &mut Vec<u8>, s: &[u8])
    ensures
        final(buf)@ == old(buf)@ + s@,
{
    let mut k: usize = 0;
    while k < s.len()
        invariant
            k <= s@.len(),
            buf@ == old(buf)@ + s@.take(k as int),
        decreases s@.len() - k,
    {
        buf.push(s[k]);
        k = k + 1;
        assert(buf@ =~= old(buf)@ + s@.take(k as int));
    }
    assert(s@.take(s@.len() as int) =~= s@);
}

/// Offsets and blob of a string table: each string's UTF-8 bytes and a NUL.
fn string_section(strings: &Vec<String>) -> (r: (Vec<u64>, Vec<u8>))
    ensures
        (r.0@, r.1@) == string_table(texts(strings@), strings@.len()),
{
    let mut offsets: Vec<u64> = Vec::new();
    let mut blob: Vec<u8> = Vec::new();
    let mut i: usize = 0;
    while i < strings.len()
        invariant
            i <= strings@.len(),
            (offsets@, blob@) == string_table(texts(strings@), i as nat),
        decreases strings@.len() - i,
    {
        offsets.push(blob.len() as u64);
        let bytes = strings[i].as_str().as_bytes();
        append_bytes(&mut blob, bytes);
        blob.push(0);
        i = i + 1;
    }
    (offsets, blob)
}

/// Appends a blob table (offsets, sizes, padding to 32, blobs each padded to
/// 32) and returns where the sizes and the blobs start.
fn write_blob_section(buf: &mut Vec<u8>, table: &Vec<Stream>) -> (r: (usize, usize))
    ensures
        final(buf)@ == old(buf)@ + blob_section(blobs(table@), old(buf)@.len()).0,
        r.0 as nat == blob_section(blobs(table@), old(buf)@.len()).1,
        r.1 as nat == blob_section(blobs(table@), old(buf)@.len()).2,
{
    let mut offsets: Vec<u64> = Vec::new();
    let mut sizes: Vec<u64> = Vec::new();
    let mut blob: Vec<u8> = Vec::new();
    let mut i: usize = 0;
    while i < table.len()
        invariant
            i <= table@.len(),
            (offsets@, sizes@, blob@) == blob_table(blobs(table@), i as nat),
        decreases table@.len() - i,
    {
        offsets.push(blob.len() as u64);
        sizes.push(table[i].data.len() as u64);
        let ghost before = blob@;
        append_bytes(&mut blob, table[i].data.as_slice());
        let d = table[i].data.len();
        let pad = (STREAM_ALIGNMENT - d % STREAM_ALIGNMENT) % STREAM_ALIGNMENT;
        proof {
            lemma_pad(d as nat, 32);
        }
        let ghost mid = blob@;
        let mut k: usize = 0;
        while k < pad
            invariant
                k <= pad,
                blob@ == mid + zeros(k as nat),
            decreases pad - k,
        {
            blob.push(0);
            k = k + 1;
            assert(blob@ =~= mid + zeros(k as nat));
        }
        assert(blobs(table@)[i as int] == (table@[i as int].index, table@[i as int].data@));
        i = i + 1;
    }
    write_uint_array(buf, offsets.as_slice());
    let sizes_at = buf.len();
    write_uint_array(buf, sizes.as_slice());
    align(buf, STREAM_ALIGNMENT);
    let blob_at = buf.len();
    buf.append(&mut blob);
    (sizes_at, blob_at)
}

/// Where the sections of a file start, as the writer records them.
struct Sections {
    keys: usize,
    str_offs: usize,
    str_blob: usize,
    streams: usize,
    stream_sizes: usize,
    stream_blob: usize,
    root: usize,
    bstreams: usize,
    bstream_sizes: usize,
    bstream_blob: usize,
}

impl Sections {
    spec fn view(&self) -> Offsets {
        Offsets {
            keys: self.keys as nat,
            str_offs: self.str_offs as nat,
            str_blob: self.str_blob as nat,
            streams: self.streams as nat,
            stream_sizes: self.stream_sizes as nat,
            stream_blob: self.stream_blob as nat,
            root: self.root as nat,
            bstreams: self.bstreams as nat,
            bstream_sizes: self.bstream_sizes as nat,
            bstream_blob: self.bstream_blob as nat,
        }
    }
}

/// The header words for the given section offsets.
fn header_bytes(
    version: u16,
    keys: usize,
    str_offs: usize,
    str_blob: usize,
    streams: usize,
    stream_sizes: usize,
    stream_blob: usize,
    root: usize,
    bstreams: usize,
    bstream_sizes: usize,
    bstream_blob: usize,
) -> (hb: Vec<u8>)
    ensures
        hb@ == header_image(
            version,
            Offsets {
                keys: keys as nat,
                str_offs: str_offs as nat,
                str_blob: str_blob as nat,
                streams: streams as nat,
                stream_sizes: stream_sizes as nat,
                stream_blob: stream_blob as nat,
                root: root as nat,
                bstreams: bstreams as nat,
                bstream_sizes: bstream_sizes as nat,
                bstream_blob: bstream_blob as nat,
            },
        ),
        hb@.len() == 4 * header_words(version),
{
    proof {
        reveal(header_image);
    }
    let mut main: Vec<u8> = Vec::new();
    push_le(&mut main, keys as u64, 4);
    push_le(&mut main, keys as u64, 4);
    push_le(&mut main, str_offs as u64, 4);
    push_le(&mut main, str_blob as u64, 4);
    push_le(&mut main, streams as u64, 4);
    push_le(&mut main, stream_sizes as u64, 4);
    push_le(&mut main, stream_blob as u64, 4);
    push_le(&mut main, root as u64, 4);
    let mut extra: Vec<u8> = Vec::new();
    push_le(&mut extra, bstreams as u64, 4);
    push_le(&mut extra, bstream_sizes as u64, 4);
    push_le(&mut extra, bstream_blob as u64, 4);
    proof {
        lemma_le_bytes_len(keys as nat, 4);
        lemma_le_bytes_len(str_offs as nat, 4);
        lemma_le_bytes_len(str_blob as nat, 4);
        lemma_le_bytes_len(streams as nat, 4);
        lemma_le_bytes_len(stream_sizes as nat, 4);
        lemma_le_bytes_len(stream_blob as nat, 4);
        lemma_le_bytes_len(root as nat, 4);
        lemma_le_bytes_len(bstreams as nat, 4);
        lemma_le_bytes_len(bstream_sizes as nat, 4);
        lemma_le_bytes_len(bstream_blob as nat, 4);
    }
    let mut hb: Vec<u8> = Vec::new();
    append_bytes(&mut hb, main.as_slice());
    if version >= 4 {
        let mut input: Vec<u8> = Vec::new();
        append_bytes(&mut input, main.as_slice());
        append_bytes(&mut input, extra.as_slice());
        let checksum = adler32(input.as_slice());
        push_le(&mut hb, checksum as u64, 4);
        append_bytes(&mut hb, extra.as_slice());
        proof {
            lemma_le_bytes_len(checksum as nat, 4);
        }
    } else if version >= 3 {
        let checksum = adler32(main.as_slice());
        push_le(&mut hb, checksum as u64, 4);
        proof {
            lemma_le_bytes_len(checksum as nat, 4);
        }
    }
    hb
}

/// Overwrites `buf` from `at` on with `bytes`.
fn overwrite(buf: &mut Vec<u8>, at: usize, bytes: &Vec<u8>)
    requires
        at + bytes@.len() <= old(buf)@.len(),
    ensures
        final(buf)@ == old(buf)@.subrange(0, at as int) + bytes@ + old(buf)@.subrange(
            at + bytes@.len(),
            old(buf)@.len() as int,
        ),
{
    let n = buf.len();
    let mut k: usize = 0;
    while k < bytes.len()
        invariant
            k <= bytes@.len(),
            at + bytes@.len() <= old(buf)@.len(),
            n == old(buf)@.len(),
            buf@.len() == old(buf)@.len(),
            forall|i: int| 0 <= i < at ==> #[trigger] buf@[i] == old(buf)@[i],
            forall|i: int| at + k <= i < buf@.len() ==> #[trigger] buf@[i] == old(buf)@[i],
            forall|i: int| at <= i < at + k ==> #[trigger] buf@[i] == bytes@[i - at],
        decreases bytes@.len() - k,
    {
        buf.set(at + k, bytes[k]);
        k = k + 1;
    }
    assert(buf@ =~= old(buf)@.subrange(0, at as int) + bytes@ + old(buf)@.subrange(
        at + bytes@.len(),
        old(buf)@.len() as int,
    ));
}

/// Smallest width from `j` to seven that holds `n`, else eight.
pub open spec fn first_fit(n: i64, j: nat) -> nat
    decreases 8 - j,
{
    if j >= 8 {
        8
    } else if fits(n as int, j) {
        j
    } else {
        first_fit(n, j + 1)
    }
}

/// The writer's state: the format version and the tables gathered so far
/// (sorted before the token tree is written).
struct Writer {
    version: u16,
    keys: Vec<String>,
    strings: Vec<String>,
    streams: Vec<Stream>,
    bstreams: Vec<Stream>,
}

impl Writer {
    spec fn gathered(&self) -> Gathered {
        Gathered {
            keys: texts(self.keys@),
            strings: texts(self.strings@),
            streams: blobs(self.streams@),
            bstreams: blobs(self.bstreams@),
        }
    }

    spec fn layout(&self) -> Layout {
        Layout {
            keys: texts(self.keys@),
            strings: texts(self.strings@),
            streams: blobs(self.streams@),
            bstreams: blobs(self.bstreams@),
        }
    }

    fn new(version: u16) -> (w: Self)
        ensures
            w.version == version,
            w.gathered() == no_tables(),
    {
        let w = Writer {
            version,
            keys: Vec::new(),
            strings: Vec::new(),
            streams: Vec::new(),
            bstreams: Vec::new(),
        };
        assert(texts(w.keys@) =~= Seq::<Seq<char>>::empty());
        assert(texts(w.strings@) =~= Seq::<Seq<char>>::empty());
        assert(blobs(w.streams@) =~= Seq::<(u32, Seq<u8>)>::empty());
        assert(blobs(w.bstreams@) =~= Seq::<(u32, Seq<u8>)>::empty());
        w
    }

    /// Records a key the first time it is seen.
    fn add_key(&mut self, k: &String)
        ensures
            final(self).gathered() == add_ref(old(self).gathered(), Ref::Key(k@)),
            final(self).version == old(self).version,
    {
        if find_text(&self.keys, k) == self.keys.len() {
            self.keys.push(k.clone());
            assert(texts(self.keys@) =~= texts(old(self).keys@).push(k@));
        }
        assert(self.gathered() =~~= add_ref(old(self).gathered(), Ref::Key(k@)));
    }

    /// Walks the tree and records keys, strings and blobs in first-seen order.
    fn collect(&mut self, v: &Value)
        ensures
            final(self).gathered() == add_refs(old(self).gathered(), refs(v@)),
            final(self).version == old(self).version,
        decreases v,
    {
        match v {
            Value::Null | Value::Bool(_) | Value::Int(_) | Value::Float(_) => {
                assert(refs(v@) =~= Seq::<Ref>::empty());
            },
            Value::String(s) => {
                if find_text(&self.strings, s) == self.strings.len() {
                    self.strings.push(s.clone());
                    assert(texts(self.strings@) =~= texts(old(self).strings@).push(s@));
                }
                assert(refs(v@) =~= seq![Ref::Str(s@)]);
                assert(refs(v@).drop_last() =~= Seq::<Ref>::empty());
                assert(add_refs(old(self).gathered(), Seq::<Ref>::empty()) == old(self).gathered());
                assert(add_refs(old(self).gathered(), refs(v@)) == add_ref(old(self).gathered(), Ref::Str(s@)));
                assert(self.keys@ == old(self).keys@);
                assert(self.streams@ == old(self).streams@);
            },
            Value::Stream(st) => {
                if find_blob(&self.streams, st.index) == self.streams.len() {
                    self.streams.push(copy_stream(st));
                    assert(blobs(self.streams@) =~= blobs(old(self).streams@).push((st.index, st.data@)));
                }
                assert(refs(v@) =~= seq![Ref::Stream(st.index, st.data@)]);
                assert(refs(v@).drop_last() =~= Seq::<Ref>::empty());
                assert(add_refs(old(self).gathered(), Seq::<Ref>::empty()) == old(self).gathered());
                assert(add_refs(old(self).gathered(), refs(v@)) == add_ref(old(self).gathered(), Ref::Stream(st.index, st.data@)));
                assert(self.keys@ == old(self).keys@);
                assert(self.strings@ == old(self).strings@);
            },
            Value::BStream(st) => {
                if find_blob(&self.bstreams, st.index) == self.bstreams.len() {
                    self.bstreams.push(copy_stream(st));
                    assert(blobs(self.bstreams@) =~= blobs(old(self).bstreams@).push((st.index, st.data@)));
                }
                assert(refs(v@) =~= seq![Ref::BStream(st.index, st.data@)]);
                assert(refs(v@).drop_last() =~= Seq::<Ref>::empty());
                assert(add_refs(old(self).gathered(), Seq::<Ref>::empty()) == old(self).gathered());
                assert(add_refs(old(self).gathered(), refs(v@)) == add_ref(old(self).gathered(), Ref::BStream(st.index, st.data@)));
                assert(self.keys@ == old(self).keys@);
                assert(self.strings@ == old(self).strings@);
            },
            Value::Array(a) => {
                let ghost items = view_values(a@);
                proof {
                    lemma_view_values_len(a@);
                }
                let mut i: usize = 0;
                while i < a.len()
                    invariant
                        i <= a@.len(),
                        *v == Value::Array(*a),
                        items == view_values(a@),
                        items.len() == a@.len(),
                        forall|k: int| 0 <= k < a@.len() ==> #[trigger] items[k] == a@[k]@,
                        self.version == old(self).version,
                        self.gathered() == add_refs(old(self).gathered(), refs_list(items, i as nat)),
                    decreases a@.len() - i,
                {
                    proof {
                        assert(decreases_to!(a@ => a@[i as int]));
                        assert(decreases_to!(*a => a@));
                        assert((*v)->Array_0 == *a);
                        assert(decreases_to!(*v => (*v)->Array_0));
                    }
                    let ghost g0 = self.gathered();
                    self.collect(&a[i]);
                    proof {
                        lemma_add_refs_append(old(self).gathered(), refs_list(items, i as nat), refs(items[i as int]));
                    }
                    i = i + 1;
                }
            },
            Value::Object(o) => {
                let ghost es = view_entries(o@);
                proof {
                    lemma_view_entries_len(o@);
                }
                let mut i: usize = 0;
                while i < o.len()
                    invariant
                        i <= o@.len(),
                        *v == Value::Object(*o),
                        es == view_entries(o@),
                        es.len() == o@.len(),
                        forall|k: int| 0 <= k < o@.len() ==> #[trigger] es[k] == (o@[k].0@, o@[k].1@),
                        self.version == old(self).version,
                        self.gathered() == add_refs(old(self).gathered(), refs_entries(es, i as nat)),
                    decreases o@.len() - i,
                {
                    proof {
                        assert(decreases_to!(o@[i as int] => o@[i as int].1));
                        assert(decreases_to!(o@ => o@[i as int]));
                        assert(decreases_to!(*o => o@));
                        assert((*v)->Object_0 == *o);
                        assert(decreases_to!(*v => (*v)->Object_0));
                    }
                    let ghost g0 = self.gathered();
                    self.add_key(&o[i].0);
                    proof {
                        let kr = seq![Ref::Key(es[i as int].0)];
                        assert(kr.drop_last() =~= Seq::<Ref>::empty());
                        assert(add_refs(g0, Seq::<Ref>::empty()) == g0);
                        assert(kr.last() == Ref::Key(es[i as int].0));
                        assert(add_refs(g0, kr) == add_ref(g0, Ref::Key(es[i as int].0)));
                        lemma_add_refs_append(old(self).gathered(), refs_entries(es, i as nat), kr);
                    }
                    self.collect(&o[i].1);
                    proof {
                        let kr = seq![Ref::Key(es[i as int].0)];
                        lemma_add_refs_append(
                            old(self).gathered(),
                            refs_entries(es, i as nat) + kr,
                            refs(es[i as int].1),
                        );
                    }
                    i = i + 1;
                }
            },
        }
    }

    /// Appends the token tree of `v`.
    fn write_token(&self, buf: &mut Vec<u8>, v: &Value)
        ensures
            final(buf)@ == old(buf)@ + encode_token(v@, self.layout()),
        decreases v,
    {
        match v {
            Value::Null => {
                buf.push(T_NULL);
            },
            Value::Bool(b) => {
                if *b {
                    buf.push(T_TRUE);
                } else {
                    buf.push(T_FALSE);
                }
            },
            Value::Int(n) => {
                self.write_int(buf, *n);
            },
            Value::Float(f) => {
                self.write_float(buf, *f);
            },
            Value::String(s) => {
                let idx = find_text(&self.strings, s);
                write_indexed(buf, T_STRING_8, idx as u64);
            },
            Value::Stream(st) => {
                let idx = find_blob(&self.streams, st.index);
                write_indexed(buf, T_STREAM_8, idx as u64);
            },
            Value::BStream(st) => {
                let idx = find_blob(&self.bstreams, st.index);
                write_indexed(buf, T_BSTREAM_8, idx as u64);
            },
            Value::Array(arr) => {
                buf.push(T_ARRAY);
                let ghost head = buf@;
                let ghost items = view_values(arr@);
                proof {
                    lemma_view_values_len(arr@);
                }
                let mut temp: Vec<u8> = Vec::new();
                let mut offsets: Vec<u64> = Vec::new();
                let mut i: usize = 0;
                while i < arr.len()
                    invariant
                        i <= arr@.len(),
                        *v == Value::Array(*arr),
                        items == view_values(arr@),
                        items.len() == arr@.len(),
                        forall|k: int| 0 <= k < arr@.len() ==> #[trigger] items[k] == arr@[k]@,
                        buf@ == head,
                        (offsets@, temp@) == enc_items(items, i as nat, self.layout()),
                    decreases arr@.len() - i,
                {
                    proof {
                        assert(decreases_to!(arr@ => arr@[i as int]));
                        assert(decreases_to!(*arr => arr@));
                        assert((*v)->Array_0 == *arr);
                        assert(decreases_to!(*v => (*v)->Array_0));
                    }
                    offsets.push(temp.len() as u64);
                    self.write_token(&mut temp, &arr[i]);
                    i = i + 1;
                }
                write_uint_array(buf, offsets.as_slice());
                buf.append(&mut temp);
                assert(buf@ =~= old(buf)@ + encode_token(v@, self.layout()));
            },
            Value::Object(obj) => {
                buf.push(T_OBJECT);
                let ghost es = view_entries(obj@);
                proof {
                    lemma_view_entries_len(obj@);
                }
                let order = order_entries(obj);
                let ghost ord = order@.map_values(|x: usize| x as int);
                let mut key_idx: Vec<u64> = Vec::new();
                let mut j: usize = 0;
                while j < order.len()
                    invariant
                        j <= order@.len(),
                        es == view_entries(obj@),
                        es.len() == obj@.len(),
                        forall|k: int| 0 <= k < obj@.len() ==> #[trigger] es[k] == (obj@[k].0@, obj@[k].1@),
                        ord == order@.map_values(|x: usize| x as int),
                        forall|k: int| 0 <= k < order@.len() ==> order@[k] < obj@.len(),
                        key_idx@ == key_indices(es, ord, self.layout()).take(j as int),
                    decreases order@.len() - j,
                {
                    let idx = find_text(&self.keys, &obj[order[j]].0);
                    proof {
                        assert(ord[j as int] == order@[j as int] as int);
                    }
                    key_idx.push(idx as u64);
                    j = j + 1;
                    assert(key_idx@ =~= key_indices(es, ord, self.layout()).take(j as int));
                }
                assert(key_indices(es, ord, self.layout()).take(order@.len() as int) =~= key_indices(es, ord, self.layout()));
                write_uint_array(buf, key_idx.as_slice());
                let ghost head = buf@;
                let mut temp: Vec<u8> = Vec::new();
                let mut offsets: Vec<u64> = Vec::new();
                let mut i: usize = 0;
                while i < order.len()
                    invariant
                        i <= order@.len(),
                        *v == Value::Object(*obj),
                        es == view_entries(obj@),
                        es.len() == obj@.len(),
                        forall|k: int| 0 <= k < obj@.len() ==> #[trigger] es[k] == (obj@[k].0@, obj@[k].1@),
                        ord == order@.map_values(|x: usize| x as int),
                        ord.len() == order@.len(),
                        forall|k: int| 0 <= k < order@.len() ==> order@[k] < obj@.len(),
                        buf@ == head,
                        (offsets@, temp@) == enc_fields(es, ord, i as nat, self.layout()),
                    decreases order@.len() - i,
                {
                    let e = order[i];
                    proof {
                        assert(decreases_to!(obj@[e as int] => obj@[e as int].1));
                        assert(decreases_to!(obj@ => obj@[e as int]));
                        assert(decreases_to!(*obj => obj@));
                        assert((*v)->Object_0 == *obj);
                        assert(decreases_to!(*v => (*v)->Object_0));
                        assert(ord[i as int] == e as int);
                    }
                    offsets.push(temp.len() as u64);
                    self.write_token(&mut temp, &obj[e].1);
                    i = i + 1;
                }
                write_uint_array(buf, offsets.as_slice());
                buf.append(&mut temp);
                assert(buf@ =~= old(buf)@ + encode_token(v@, self.layout()));
            },
        }
    }

    /// Gathers the tables of `root` and puts them in the order they are written.
    fn prepare(&mut self, root: &Value)
        requires
            old(self).gathered() == no_tables(),
        ensures
            final(self).layout() == layout_of(root@),
            final(self).version == old(self).version,
            name_bytes(final(self).keys@) == key_bytes(root@),
    {
        self.collect(root);
        let keys = sort_texts(&self.keys);
        let strings = sort_texts(&self.strings);
        let streams = sort_blobs(&self.streams);
        let bstreams = sort_blobs(&self.bstreams);
        self.keys = keys;
        self.strings = strings;
        self.streams = streams;
        self.bstreams = bstreams;
        proof {
            reveal(layout_of);
            assert(self.layout() =~~= layout_of(root@));
            assert(name_bytes(self.keys@) =~= key_bytes(root@));
        }
    }

    /// Appends everything after the header and returns where the sections start.
    #[verifier::rlimit(60)]
    fn emit_body(&self, buf: &mut Vec<u8>, root: &Value, trie: &KeyNamesTrie) -> (o: Sections)
        requires
            self.layout() == layout_of(root@),
        ensures
            final(buf)@ == old(buf)@ + body_image(root@, self.version, trie.arrays(), old(buf)@.len()).0,
            o.view() == body_image(root@, self.version, trie.arrays(), old(buf)@.len()).1,
    {
        let ghost l = self.layout();
        let ghost t = trie.arrays();
        proof {
            reveal(body_image);
        }
        let header_len = buf.len();
        let ghost hdr0 = buf@;
        write_uint_array(buf, trie.value_offsets.as_slice());
        write_uint_array(buf, trie.tree.as_slice());
        write_uint_array(buf, trie.tails.as_slice());
        let ghost keys_sec = enc_uint_array(t.value_offsets) + enc_uint_array(t.tree) + enc_uint_array(t.tails);
        assert(buf@ =~= hdr0 + keys_sec);
        let root_at = buf.len();
        self.write_token(buf, root);
        let str_offs_at = buf.len();
        let (soffs, mut sblob) = string_section(&self.strings);
        write_uint_array(buf, soffs.as_slice());
        let str_blob_at = buf.len();
        buf.append(&mut sblob);
        let after_strings = buf.len();
        let ghost before_b = buf@;
        let mut bsizes_at: usize = 0;
        let mut bblob_at: usize = 0;
        let ghost bsec = blob_section(l.bstreams, after_strings as nat);
        if self.version >= 4 {
            let (a, c) = write_blob_section(buf, &self.bstreams);
            bsizes_at = a;
            bblob_at = c;
        }
        let streams_at = buf.len();
        let ghost before_s = buf@;
        let (ssizes_at, sblob_at) = write_blob_section(buf, &self.streams);
        let o = Sections {
            keys: header_len,
            str_offs: str_offs_at,
            str_blob: str_blob_at,
            streams: streams_at,
            stream_sizes: ssizes_at,
            stream_blob: sblob_at,
            root: root_at,
            bstreams: if self.version >= 4 { after_strings } else { 0 },
            bstream_sizes: if self.version >= 4 { bsizes_at } else { 0 },
            bstream_blob: if self.version >= 4 { bblob_at } else { 0 },
        };
        proof {
            let img = body_image(root@, self.version, t, header_len as nat);
            assert(buf@ =~= hdr0 + img.0);
            assert(o.view() == img.1);
        }
        o
    }

    /// Gathers the tables, sorts them, and lays out the whole file.
    fn write(&mut self, root: &Value) -> (r: Result<Vec<u8>, Error>)
        requires
            old(self).gathered() == no_tables(),
            trie_fits(key_bytes(root@)),
        ensures
            r is Ok,
            r matches Ok(bytes) ==> exists|t: TrieArrays| #[trigger] written(bytes@, root@, old(self).version, t),
    {
        self.prepare(root);
        let trie = KeyNamesTrie::build(self.keys.as_slice());
        let version = self.version;
        let mut buf: Vec<u8> = Vec::new();
        buf.push(0x50);
        buf.push(0x53);
        buf.push(0x42);
        buf.push(0x00);
        push_le(&mut buf, version as u64, 2);
        buf.push(0);
        buf.push(0);
        let ghost pre8 = buf@;
        proof {
            lemma_le_bytes_len(version as nat, 2);
        }
        let mut n_words: usize = 8;
        if version >= 3 {
            n_words = n_words + 1;
        }
        if version >= 4 {
            n_words = n_words + 3;
        }
        let mut z: usize = 0;
        while z < n_words * 4
            invariant
                z <= n_words * 4,
                n_words <= 12,
                buf@ == pre8 + zeros(z as nat),
            decreases n_words * 4 - z,
        {
            buf.push(0);
            z = z + 1;
            assert(buf@ =~= pre8 + zeros(z as nat));
        }
        let ghost hdr0 = buf@;
        let o = self.emit_body(&mut buf, root, &trie);
        let hb = header_bytes(
            version,
            o.keys,
            o.str_offs,
            o.str_blob,
            o.streams,
            o.stream_sizes,
            o.stream_blob,
            o.root,
            o.bstreams,
            o.bstream_sizes,
            o.bstream_blob,
        );
        let ghost full = buf@;
        let ghost t = trie.arrays();
        let ghost bi = body_image(root@, version, t, hdr0.len());
        assert(hdr0.len() == 8 + 4 * header_words(version));
        assert(full == hdr0 + bi.0);
        assert(hb@ == header_image(version, bi.1));
        overwrite(&mut buf, 8, &hb);
        proof {
            assert(full.subrange(0, 8) =~= pre8);
            assert(full.subrange(8 + hb@.len() as int, full.len() as int) =~= bi.0);
            assert(pre8 =~= seq![0x50u8, 0x53u8, 0x42u8, 0x00u8] + le_bytes(version as nat, 2) + seq![0u8, 0u8]);
            assert(file_image(root@, version, t) == pre8 + header_image(version, bi.1) + bi.0);
            assert(buf@ =~= file_image(root@, version, t));
            assert(name_bytes(self.keys@) == key_bytes(root@));
            assert(trie_ready(key_bytes(root@)) ==> spells(t, key_bytes(root@)));
            assert(trie_words_fit(t));
            assert(written(buf@, root@, old(self).version, t));
            assert(exists|t2: TrieArrays| #[trigger] written(buf@, root@, old(self).version, t2));
        }
        let r: Result<Vec<u8>, Error> = Ok(buf);
        assert(r matches Ok(bytes) && bytes@ == buf@);
        r
    }

    /// Appends an integer token in the fewest bytes that hold it.
    fn write_int(&self, buf: &mut Vec<u8>, n: i64)
        ensures
            final(buf)@ == old(buf)@ + enc_int(n),
    {
        let u = twos_u64(n);
        let width: usize = if n == 0 {
            0
        } else if fits_in(n, 1) {
            1
        } else if fits_in(n, 2) {
            2
        } else if fits_in(n, 3) {
            3
        } else if fits_in(n, 4) {
            4
        } else {
            let mut width: usize = 8;
            let mut w: usize = 7;
            while w >= 5
                invariant
                    4 <= w <= 7,
                    u == twos(n),
                    width == first_fit(n, (w + 1) as nat),
                decreases w,
            {
                let m = pow256_u64(w);
                proof {
                    lemma_pow256_small();
                    lemma_pow_pos(w as nat);
                    assert(m <= 72057594037927936);
                }
                proof {
                    vstd::arithmetic::div_mod::lemma_mod_bound(u as int, m as int);
                }
                let low = (u % m) as i64;
                let back = sign_extend(low, w);
                proof {
                    let p = pow256(w as nat);
                    vstd::arithmetic::div_mod::lemma_mod_bound(twos(n) as int, p as int);
                    assert(low == twos(n) % p);
                    assert(twos(low) == low);
                    vstd::arithmetic::div_mod::lemma_small_mod(low as nat, p);
                    assert(twos(low) % p == low);
                    assert(back == signed_value(twos(n) % p, w as nat));
                    if fits(n as int, w as nat) {
                        lemma_signed_value_twos(n, w as nat);
                    }
                }
                if back == n {
                    width = w;
                }
                w = w - 1;
            }
            proof {
                reveal_with_fuel(first_fit, 4);
            }
            width
        };
        assert(width == int_width(n));
        buf.push(T_INT_0 + width as u8);
        push_le(buf, u, width);
        assert(buf@ =~= old(buf)@ + enc_int(n));
    }

    /// Appends the float token for the double with bits `b`.
    fn write_float(&self, buf: &mut Vec<u8>, b: u64)
        ensures
            final(buf)@ == old(buf)@ + enc_float(b),
    {
        if b == 0 {
            buf.push(T_FLOAT_0);
            assert(buf@ =~= old(buf)@ + enc_float(b));
            return;
        }
        match f64_bits_to_f32_bits(b) {
            Some(single) => {
                buf.push(T_FLOAT);
                push_le(buf, single as u64, 4);
            },
            None => {
                buf.push(T_DOUBLE);
                push_le(buf, b, 8);
            },
        }
        assert(buf@ =~= old(buf)@ + enc_float(b));
    }
}

/// Texts of a table.
pub open spec fn texts(s: Seq<String>) -> Seq<Seq<char>> {
    s.map_values(|x: String| x@)
}

/// Index and bytes of each blob of a table.
pub open spec fn blobs(s: Seq<Stream>) -> Seq<(u32, Seq<u8>)> {
    s.map_values(|x: Stream| (x.index, x.data@))
}

/// Byte-wise lexicographic comparison.
fn bytes_less(a: &[u8], b: &[u8]) -> (r: bool)
    ensures
        r == bytes_lt(a@, b@),
{
    let mut i: usize = 0;
    assert(a@.take(0) =~= b@.take(0));
    proof {
        lemma_bytes_lt_skip(a@, b@, 0);
    }
    loop
        invariant
            i <= a.len(),
            i <= b.len(),
            a@.take(i as int) == b@.take(i as int),
            bytes_lt(a@, b@) == bytes_lt(a@.skip(i as int), b@.skip(i as int)),
        decreases a.len() - i,
    {
        if i == b.len() {
            return false;
        }
        if i == a.len() {
            return true;
        }
        if a[i] != b[i] {
            assert(a@.skip(i as int)[0] == a@[i as int]);
            assert(b@.skip(i as int)[0] == b@[i as int]);
            return a[i] < b[i];
        }
        proof {
            assert(a@.skip(i as int).drop_first() =~= a@.skip(i + 1));
            assert(b@.skip(i as int).drop_first() =~= b@.skip(i + 1));
            assert(a@.skip(i as int)[0] == b@.skip(i as int)[0]);
            assert(a@.take(i + 1) =~= a@.take(i as int).push(a@[i as int]));
            assert(b@.take(i + 1) =~= b@.take(i as int).push(b@[i as int]));
        }
        i = i + 1;
    }
}

/// Whether `a` comes before `b` in the byte order of their UTF-8 encodings.
pub(crate) fn text_less(a: &String, b: &String) -> (r: bool)
    ensures
        r == text_lt(a@, b@),
{
    let x = a.as_str().as_bytes();
    let y = b.as_str().as_bytes();
    bytes_less(x, y)
}

/// A copy of a blob.
fn copy_stream(s: &Stream) -> (r: Stream)
    ensures
        r.index == s.index,
        r.data@ == s.data@,
{
    Stream { index: s.index, data: s.data.clone() }
}

/// The texts sorted by their UTF-8 bytes (stable).
fn sort_texts(v: &Vec<String>) -> (r: Vec<String>)
    ensures
        texts(r@) == sort_by(texts(v@), text_order()),
{
    let mut out: Vec<String> = Vec::new();
    let mut i: usize = 0;
    assert(texts(v@).take(0) =~= Seq::<Seq<char>>::empty());
    assert(texts(out@) =~= Seq::<Seq<char>>::empty());
    while i < v.len()
        invariant
            i <= v.len(),
            texts(out@) == sort_by(texts(v@).take(i as int), text_order()),
        decreases v.len() - i,
    {
        let x = v[i].clone();
        let mut j: usize = 0;
        loop
            invariant
                j <= out.len(),
                forall|k: int| 0 <= k < j ==> !text_lt(x@, #[trigger] texts(out@)[k]),
            ensures
                j <= out.len(),
                forall|k: int| 0 <= k < j ==> !text_lt(x@, #[trigger] texts(out@)[k]),
                j == out.len() || text_lt(x@, texts(out@)[j as int]),
            decreases out.len() - j,
        {
            if j >= out.len() {
                break;
            }
            if text_less(&x, &out[j]) {
                break;
            }
            j = j + 1;
        }
        proof {
            lemma_ins_pos(texts(out@), x@, text_order(), j as int);
            assert(texts(v@).take(i + 1).drop_last() =~= texts(v@).take(i as int));
            assert(texts(v@).take(i + 1).last() == x@);
        }
        let ghost before = out@;
        out.insert(j, x);
        assert(texts(out@) =~= texts(before).insert(j as int, x@));
        i = i + 1;
    }
    assert(texts(v@).take(v.len() as int) =~= texts(v@));
    out
}

/// The blobs sorted by index (stable).
fn sort_blobs(v: &Vec<Stream>) -> (r: Vec<Stream>)
    ensures
        blobs(r@) == sort_by(blobs(v@), blob_order()),
{
    let mut out: Vec<Stream> = Vec::new();
    let mut i: usize = 0;
    assert(blobs(v@).take(0) =~= Seq::<(u32, Seq<u8>)>::empty());
    assert(blobs(out@) =~= Seq::<(u32, Seq<u8>)>::empty());
    while i < v.len()
        invariant
            i <= v.len(),
            blobs(out@) == sort_by(blobs(v@).take(i as int), blob_order()),
        decreases v.len() - i,
    {
        let x = copy_stream(&v[i]);
        let mut j: usize = 0;
        loop
            invariant
                j <= out.len(),
                forall|k: int| 0 <= k < j ==> !(x.index < (#[trigger] blobs(out@)[k]).0),
            ensures
                j <= out.len(),
                forall|k: int| 0 <= k < j ==> !(x.index < (#[trigger] blobs(out@)[k]).0),
                j == out.len() || x.index < blobs(out@)[j as int].0,
            decreases out.len() - j,
        {
            if j >= out.len() {
                break;
            }
            if x.index < out[j].index {
                break;
            }
            j = j + 1;
        }
        proof {
            lemma_ins_pos(blobs(out@), (x.index, x.data@), blob_order(), j as int);
            assert(blobs(v@).take(i + 1).drop_last() =~= blobs(v@).take(i as int));
            assert(blobs(v@).take(i + 1).last() == (x.index, x.data@));
        }
        let ghost before = out@;
        out.insert(j, x);
        assert(blobs(out@) =~= blobs(before).insert(j as int, (x.index, x.data@)));
        i = i + 1;
    }
    assert(blobs(v@).take(v.len() as int) =~= blobs(v@));
    out
}

/// Entry positions of an object in the byte order of their keys (stable).
fn order_entries(es: &Vec<(String, Value)>) -> (r: Vec<usize>)
    ensures
        r@.map_values(|x: usize| x as int) == entry_order(view_entries(es@)),
        forall|k: int| 0 <= k < r@.len() ==> r@[k] < es@.len(),
{
    let ghost ev = view_entries(es@);
    let ghost ids = Seq::new(es@.len(), |i: int| i);
    proof {
        lemma_view_entries_len(es@);
    }
    let mut out: Vec<usize> = Vec::new();
    let mut i: usize = 0;
    assert(ids.take(0) =~= Seq::<int>::empty());
    assert(out@.map_values(|x: usize| x as int) =~= Seq::<int>::empty());
    while i < es.len()
        invariant
            i <= es.len(),
            ev == view_entries(es@),
            ev.len() == es@.len(),
            forall|k: int| 0 <= k < es@.len() ==> #[trigger] ev[k] == (es@[k].0@, es@[k].1@),
            ids == Seq::new(es@.len(), |i: int| i),
            out@.map_values(|x: usize| x as int) == sort_by(ids.take(i as int), entry_lt(ev)),
            forall|k: int| 0 <= k < out@.len() ==> out@[k] < i,
        decreases es.len() - i,
    {
        let mut j: usize = 0;
        loop
            invariant
                j <= out.len(),
                i < es.len(),
                ev.len() == es@.len(),
                forall|k: int| 0 <= k < es@.len() ==> #[trigger] ev[k] == (es@[k].0@, es@[k].1@),
                forall|k: int| 0 <= k < out@.len() ==> out@[k] < i,
                forall|k: int| 0 <= k < j ==> !text_lt(ev[i as int].0, ev[#[trigger] out@[k] as int].0),
            ensures
                j <= out.len(),
                forall|k: int| 0 <= k < j ==> !text_lt(ev[i as int].0, ev[#[trigger] out@[k] as int].0),
                j == out.len() || text_lt(ev[i as int].0, ev[out@[j as int] as int].0),
            decreases out.len() - j,
        {
            if j >= out.len() {
                break;
            }
            if text_less(&es[i].0, &es[out[j]].0) {
                break;
            }
            j = j + 1;
        }
        let ghost before = out@.map_values(|x: usize| x as int);
        proof {
            assert forall|k: int| 0 <= k < j implies !entry_lt(ev)(i as int, #[trigger] before[k]) by {
                assert(before[k] == out@[k] as int);
            }
            if j < out.len() {
                assert(before[j as int] == out@[j as int] as int);
            }
            lemma_ins_pos(before, i as int, entry_lt(ev), j as int);
            assert(ids.take(i + 1).drop_last() =~= ids.take(i as int));
            assert(ids.take(i + 1).last() == i as int);
        }
        out.insert(j, i);
        assert(out@.map_values(|x: usize| x as int) =~= before.insert(j as int, i as int));
        i = i + 1;
    }
    assert(ids.take(es@.len() as int) =~= ids);
    out
}

/// Position of the first text equal to `s`, or the table's length.
fn find_text(table: &Vec<String>, s: &String) -> (r: usize)
    ensures
        r == pos_of(texts(table@), s@),
        r <= table@.len(),
        (r < table@.len()) == texts(table@).contains(s@),
{
    let mut j: usize = 0;
    while j < table.len()
        invariant
            j <= table.len(),
            forall|k: int| 0 <= k < j ==> #[trigger] texts(table@)[k] != s@,
        decreases table.len() - j,
    {
        if table[j] == *s {
            proof {
                lemma_pos_of(texts(table@), s@, j as int);
                assert(texts(table@)[j as int] == s@);
            }
            return j;
        }
        j = j + 1;
    }
    proof {
        lemma_pos_of(texts(table@), s@, j as int);
    }
    j
}

/// Position of the first blob with index `idx`, or the table's length.
fn find_blob(table: &Vec<Stream>, idx: u32) -> (r: usize)
    ensures
        r == blob_pos(blobs(table@), idx),
        r <= table@.len(),
        (r < table@.len()) == has_index(blobs(table@), idx),
{
    let mut j: usize = 0;
    while j < table.len()
        invariant
            j <= table.len(),
            forall|k: int| 0 <= k < j ==> (#[trigger] blobs(table@)[k]).0 != idx,
        decreases table.len() - j,
    {
        if table[j].index == idx {
            proof {
                lemma_blob_pos(blobs(table@), idx, j as int);
                assert(blobs(table@)[j as int].0 == idx);
            }
            return j;
        }
        j = j + 1;
    }
    proof {
        lemma_blob_pos(blobs(table@), idx, j as int);
    }
    j
}

} // verus!
