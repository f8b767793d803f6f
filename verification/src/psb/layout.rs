//! What the PSB writer lays out: the tables it gathers from a value tree,
//! their canonical order, the token tree, and the whole file image.
use vstd::prelude::*;
use vstd::utf8::encode_utf8;
use crate::psb::encoding::{align_up_spec, adler32_spec, enc_float, enc_indexed, enc_int, enc_uint_array, le_bytes};
use crate::psb::format::{
    T_ARRAY, T_BSTREAM_8, T_FALSE, T_NULL, T_OBJECT, T_STREAM_8, T_STRING_8, T_TRUE,
};
use crate::psb::value::ValueView;

verus! {

/// Something a token refers to through a table.
pub enum Ref {
    Key(Seq<char>),
    Str(Seq<char>),
    Stream(u32, Seq<u8>),
    BStream(u32, Seq<u8>),
}

/// Table references of a value, depth first, object keys before their values.
pub open spec fn refs(v: ValueView) -> Seq<Ref>
    decreases v, 0nat,
{
    match v {
        ValueView::Str(s) => seq![Ref::Str(s)],
        ValueView::Stream(i, d) => seq![Ref::Stream(i, d)],
        ValueView::BStream(i, d) => seq![Ref::BStream(i, d)],
        ValueView::Array(items) => refs_list(items, items.len()),
        ValueView::Object(es) => refs_entries(es, es.len()),
        _ => Seq::empty(),
    }
}

/// References of the first `k` items.
pub open spec fn refs_list(items: Seq<ValueView>, k: nat) -> Seq<Ref>
    decreases items, k,
{
    if k == 0 || k > items.len() {
        Seq::empty()
    } else {
        refs_list(items, (k - 1) as nat) + refs(items[k - 1])
    }
}

/// References of the first `k` entries: each key, then its value's.
pub open spec fn refs_entries(es: Seq<(Seq<char>, ValueView)>, k: nat) -> Seq<Ref>
    decreases es, k,
{
    if k == 0 || k > es.len() {
        Seq::empty()
    } else {
        proof {
            assert(decreases_to!(es => es[k - 1]));
            assert(decreases_to!(es[k - 1] => es[k - 1].1));
        }
        refs_entries(es, (k - 1) as nat) + seq![Ref::Key(es[k - 1].0)] + refs(es[k - 1].1)
    }
}

/// Tables in the order their first reference occurs.
pub struct Gathered {
    pub keys: Seq<Seq<char>>,
    pub strings: Seq<Seq<char>>,
    pub streams: Seq<(u32, Seq<u8>)>,
    pub bstreams: Seq<(u32, Seq<u8>)>,
}

/// Some blob in `s` has index `i`.
pub open spec fn has_index(s: Seq<(u32, Seq<u8>)>, i: u32) -> bool {
    exists|j: int| 0 <= j < s.len() && s[j].0 == i
}

/// Tables after one more reference: a text joins once, a blob joins unless
/// one with its index is there already.
pub open spec fn add_ref(g: Gathered, r: Ref) -> Gathered {
    match r {
        Ref::Key(k) => if g.keys.contains(k) {
            g
        } else {
            Gathered { keys: g.keys.push(k), ..g }
        },
        Ref::Str(s) => if g.strings.contains(s) {
            g
        } else {
            Gathered { strings: g.strings.push(s), ..g }
        },
        Ref::Stream(i, d) => if has_index(g.streams, i) {
            g
        } else {
            Gathered { streams: g.streams.push((i, d)), ..g }
        },
        Ref::BStream(i, d) => if has_index(g.bstreams, i) {
            g
        } else {
            Gathered { bstreams: g.bstreams.push((i, d)), ..g }
        },
    }
}

/// Tables after a run of references.
pub open spec fn add_refs(g: Gathered, rs: Seq<Ref>) -> Gathered
    decreases rs.len(),
{
    if rs.len() == 0 {
        g
    } else {
        add_ref(add_refs(g, rs.drop_last()), rs.last())
    }
}

pub open spec fn no_tables() -> Gathered {
    Gathered { keys: Seq::empty(), strings: Seq::empty(), streams: Seq::empty(), bstreams: Seq::empty() }
}

/// Byte-wise lexicographic order.
pub open spec fn bytes_lt(a: Seq<u8>, b: Seq<u8>) -> bool
    decreases a.len(),
{
    if b.len() == 0 {
        false
    } else if a.len() == 0 {
        true
    } else if a[0] != b[0] {
        a[0] < b[0]
    } else {
        bytes_lt(a.drop_first(), b.drop_first())
    }
}

/// Order of texts: by their UTF-8 bytes.
pub open spec fn text_lt(a: Seq<char>, b: Seq<char>) -> bool {
    bytes_lt(encode_utf8(a), encode_utf8(b))
}

/// Order of blobs: by index.
pub open spec fn index_lt(a: (u32, Seq<u8>), b: (u32, Seq<u8>)) -> bool {
    a.0 < b.0
}

/// Texts in byte order.
pub open spec fn text_order() -> spec_fn(Seq<char>, Seq<char>) -> bool {
    |a: Seq<char>, b: Seq<char>| text_lt(a, b)
}

/// Blobs in index order.
pub open spec fn blob_order() -> spec_fn((u32, Seq<u8>), (u32, Seq<u8>)) -> bool {
    |a: (u32, Seq<u8>), b: (u32, Seq<u8>)| index_lt(a, b)
}

/// Entry positions of an object in the byte order of their keys.
pub open spec fn entry_lt(es: Seq<(Seq<char>, ValueView)>) -> spec_fn(int, int) -> bool {
    |i: int, j: int| text_lt(es[i].0, es[j].0)
}

/// Where `x` goes in `s`: before the first element it is less than.
pub open spec fn ins_pos<A>(s: Seq<A>, x: A, lt: spec_fn(A, A) -> bool) -> nat
    decreases s.len(),
{
    if s.len() == 0 {
        0
    } else if lt(x, s[0]) {
        0
    } else {
        1 + ins_pos(s.drop_first(), x, lt)
    }
}

/// Stable insertion sort.
pub open spec fn sort_by<A>(s: Seq<A>, lt: spec_fn(A, A) -> bool) -> Seq<A>
    decreases s.len(),
{
    if s.len() == 0 {
        s
    } else {
        let t = sort_by(s.drop_last(), lt);
        t.insert(ins_pos(t, s.last(), lt) as int, s.last())
    }
}

/// The tables as the writer emits them: texts sorted by bytes, blobs by index.
pub struct Layout {
    pub keys: Seq<Seq<char>>,
    pub strings: Seq<Seq<char>>,
    pub streams: Seq<(u32, Seq<u8>)>,
    pub bstreams: Seq<(u32, Seq<u8>)>,
}

pub open spec fn sorted_tables(g: Gathered) -> Layout {
    Layout {
        keys: sort_by(g.keys, text_order()),
        strings: sort_by(g.strings, text_order()),
        streams: sort_by(g.streams, blob_order()),
        bstreams: sort_by(g.bstreams, blob_order()),
    }
}

/// The tables of a value tree.
#[verifier::opaque]
pub open spec fn layout_of(v: ValueView) -> Layout {
    sorted_tables(add_refs(no_tables(), refs(v)))
}

/// Index of the first element equal to `x`, or the length.
pub open spec fn pos_of<A>(s: Seq<A>, x: A) -> nat
    decreases s.len(),
{
    if s.len() == 0 {
        0
    } else if s[0] == x {
        0
    } else {
        1 + pos_of(s.drop_first(), x)
    }
}

/// Index of the first blob with index `i`, or the length.
pub open spec fn blob_pos(s: Seq<(u32, Seq<u8>)>, i: u32) -> nat
    decreases s.len(),
{
    if s.len() == 0 {
        0
    } else if s[0].0 == i {
        0
    } else {
        1 + blob_pos(s.drop_first(), i)
    }
}

/// Entry positions of an object, ordered by key.
pub open spec fn entry_order(es: Seq<(Seq<char>, ValueView)>) -> Seq<int> {
    sort_by(Seq::new(es.len(), |i: int| i), entry_lt(es))
}

/// Key table indices of an object's entries in key order.
pub open spec fn key_indices(es: Seq<(Seq<char>, ValueView)>, order: Seq<int>, l: Layout) -> Seq<u64> {
    Seq::new(order.len(), |j: int| pos_of(l.keys, es[order[j]].0) as u64)
}

/// The token of a value.
pub open spec fn encode_token(v: ValueView, l: Layout) -> Seq<u8>
    decreases v, 0nat,
{
    match v {
        ValueView::Null => seq![T_NULL],
        ValueView::Bool(b) => if b {
            seq![T_TRUE]
        } else {
            seq![T_FALSE]
        },
        ValueView::Int(n) => enc_int(n),
        ValueView::Float(b) => enc_float(b),
        ValueView::Str(s) => enc_indexed(T_STRING_8, pos_of(l.strings, s)),
        ValueView::Stream(i, _d) => enc_indexed(T_STREAM_8, blob_pos(l.streams, i)),
        ValueView::BStream(i, _d) => enc_indexed(T_BSTREAM_8, blob_pos(l.bstreams, i)),
        ValueView::Array(items) => {
            let (offs, body) = enc_items(items, items.len(), l);
            seq![T_ARRAY] + enc_uint_array(offs) + body
        },
        ValueView::Object(es) => {
            let order = entry_order(es);
            let (offs, body) = enc_fields(es, order, order.len(), l);
            seq![T_OBJECT] + enc_uint_array(key_indices(es, order, l)) + enc_uint_array(offs) + body
        },
    }
}

/// Offsets and bodies of the first `k` items.
pub open spec fn enc_items(items: Seq<ValueView>, k: nat, l: Layout) -> (Seq<u64>, Seq<u8>)
    decreases items, k,
{
    if k == 0 || k > items.len() {
        (Seq::empty(), Seq::empty())
    } else {
        let (o, b) = enc_items(items, (k - 1) as nat, l);
        (o.push(b.len() as u64), b + encode_token(items[k - 1], l))
    }
}

/// Offsets and bodies of the values of the entries `order[0..k]`.
pub open spec fn enc_fields(es: Seq<(Seq<char>, ValueView)>, order: Seq<int>, k: nat, l: Layout) -> (
    Seq<u64>,
    Seq<u8>,
)
    decreases es, k,
{
    if k == 0 || k > order.len() || !(0 <= order[k - 1] < es.len()) {
        (Seq::empty(), Seq::empty())
    } else {
        proof {
            assert(decreases_to!(es => es[order[k - 1]]));
            assert(decreases_to!(es[order[k - 1]] => es[order[k - 1]].1));
        }
        let (o, b) = enc_fields(es, order, (k - 1) as nat, l);
        (o.push(b.len() as u64), b + encode_token(es[order[k - 1]].1, l))
    }
}

/// Offsets and blob of the first `k` strings, each NUL-terminated.
pub open spec fn string_table(strings: Seq<Seq<char>>, k: nat) -> (Seq<u64>, Seq<u8>)
    decreases k,
{
    if k == 0 || k > strings.len() {
        (Seq::empty(), Seq::empty())
    } else {
        let (o, b) = string_table(strings, (k - 1) as nat);
        (o.push(b.len() as u64), b + encode_utf8(strings[k - 1]) + seq![0u8])
    }
}

/// `n` zero bytes.
pub open spec fn zeros(n: nat) -> Seq<u8> {
    Seq::new(n, |i: int| 0u8)
}

/// Offsets, sizes and blob of the first `k` blobs, each padded to 32 bytes.
pub open spec fn blob_table(s: Seq<(u32, Seq<u8>)>, k: nat) -> (Seq<u64>, Seq<u64>, Seq<u8>)
    decreases k,
{
    if k == 0 || k > s.len() {
        (Seq::empty(), Seq::empty(), Seq::empty())
    } else {
        let (o, z, b) = blob_table(s, (k - 1) as nat);
        let d = s[k - 1].1;
        (
            o.push(b.len() as u64),
            z.push(d.len() as u64),
            b + d + zeros((align_up_spec(d.len(), 32) - d.len()) as nat),
        )
    }
}

/// The three arrays of a key-name trie.
pub struct TrieArrays {
    pub value_offsets: Seq<u64>,
    pub tree: Seq<u64>,
    pub tails: Seq<u64>,
}

/// A word array that a file can hold: fewer than 2^32 words, each below 2^32.
pub open spec fn words_fit(s: Seq<u64>) -> bool {
    &&& s.len() < 0x1_0000_0000
    &&& forall|i: int| 0 <= i < s.len() ==> #[trigger] s[i] < 0x1_0000_0000
}

/// All three arrays of a trie fit the file's 32-bit words.
pub open spec fn trie_words_fit(t: TrieArrays) -> bool {
    &&& words_fit(t.value_offsets)
    &&& words_fit(t.tree)
    &&& words_fit(t.tails)
}

/// Number of 32-bit words after the flags: eight offsets, the checksum from
/// version 3, three bstream offsets from version 4.
pub open spec fn header_words(version: u16) -> nat {
    8 + (if version >= 3 { 1nat } else { 0 }) + (if version >= 4 { 3nat } else { 0 })
}

/// A blob table section starting at `at`: offsets, sizes, padding to 32, blobs;
/// with the offsets of the sizes array and of the first blob.
pub open spec fn blob_section(s: Seq<(u32, Seq<u8>)>, at: nat) -> (Seq<u8>, nat, nat) {
    let (o, z, b) = blob_table(s, s.len());
    let sizes_at = at + enc_uint_array(o).len();
    let pad_at = sizes_at + enc_uint_array(z).len();
    let blob_at = align_up_spec(pad_at, 32);
    (enc_uint_array(o) + enc_uint_array(z) + zeros((blob_at - pad_at) as nat) + b, sizes_at, blob_at)
}

/// Where the sections of a file start.
pub struct Offsets {
    pub keys: nat,
    pub str_offs: nat,
    pub str_blob: nat,
    pub streams: nat,
    pub stream_sizes: nat,
    pub stream_blob: nat,
    pub root: nat,
    pub bstreams: nat,
    pub bstream_sizes: nat,
    pub bstream_blob: nat,
}

/// The header words after the flags: the eight offsets (the key offsets twice),
/// then from version 3 the Adler-32 of the offset words (with the three
/// bstream offsets from version 4), then from version 4 those three offsets.
#[verifier::opaque]
pub open spec fn header_image(version: u16, o: Offsets) -> Seq<u8> {
    let main = le_bytes(o.keys, 4) + le_bytes(o.keys, 4) + le_bytes(o.str_offs, 4) + le_bytes(o.str_blob, 4)
        + le_bytes(o.streams, 4) + le_bytes(o.stream_sizes, 4) + le_bytes(o.stream_blob, 4) + le_bytes(
        o.root,
        4,
    );
    let extra = le_bytes(o.bstreams, 4) + le_bytes(o.bstream_sizes, 4) + le_bytes(o.bstream_blob, 4);
    if version >= 4 {
        main + le_bytes(adler32_spec(main + extra), 4) + extra
    } else if version >= 3 {
        main + le_bytes(adler32_spec(main), 4)
    } else {
        main
    }
}

/// Everything after the header, for a header of `header_len` bytes, and
/// where each section starts.
#[verifier::opaque]
pub open spec fn body_image(v: ValueView, version: u16, t: TrieArrays, header_len: nat) -> (Seq<u8>, Offsets) {
    let l = layout_of(v);
    let keys = enc_uint_array(t.value_offsets) + enc_uint_array(t.tree) + enc_uint_array(t.tails);
    let root_at = header_len + keys.len();
    let root = encode_token(v, l);
    let str_offs_at = root_at + root.len();
    let (soffs, sblob) = string_table(l.strings, l.strings.len());
    let str_blob_at = str_offs_at + enc_uint_array(soffs).len();
    let after_strings = str_blob_at + sblob.len();
    let (bsec, bsizes_at, bblob_at) = blob_section(l.bstreams, after_strings);
    let bsection = if version >= 4 {
        bsec
    } else {
        Seq::empty()
    };
    let streams_at = after_strings + bsection.len();
    let (ssec, ssizes_at, sblob_at) = blob_section(l.streams, streams_at);
    let o = Offsets {
        keys: header_len,
        str_offs: str_offs_at,
        str_blob: str_blob_at,
        streams: streams_at,
        stream_sizes: ssizes_at,
        stream_blob: sblob_at,
        root: root_at,
        bstreams: if version >= 4 { after_strings } else { 0 },
        bstream_sizes: if version >= 4 { bsizes_at } else { 0 },
        bstream_blob: if version >= 4 { bblob_at } else { 0 },
    };
    (keys + root + enc_uint_array(soffs) + sblob + bsection + ssec, o)
}

/// The file the writer produces for `v` at `version`, with key-name trie `t`:
/// magic, version, zero flags, header words, then the body.
pub open spec fn file_image(v: ValueView, version: u16, t: TrieArrays) -> Seq<u8> {
    let header_len = 8 + 4 * header_words(version);
    let (body, o) = body_image(v, version, t, header_len);
    seq![0x50u8, 0x53u8, 0x42u8, 0x00u8] + le_bytes(version as nat, 2) + seq![0u8, 0u8] + header_image(version, o)
        + body
}

/// Gathering over two runs of references is gathering over the second after the first.
pub proof fn lemma_add_refs_append(g: Gathered, a: Seq<Ref>, b: Seq<Ref>)
    ensures
        add_refs(g, a + b) == add_refs(add_refs(g, a), b),
    decreases b.len(),
{
    if b.len() == 0 {
        assert(a + b =~= a);
    } else {
        assert((a + b).drop_last() =~= a + b.drop_last());
        assert((a + b).last() == b.last());
        lemma_add_refs_append(g, a, b.drop_last());
    }
}

// ---- facts about the order ----

/// `ins_pos` is the first position whose element `x` is less than.
pub proof fn lemma_ins_pos<A>(s: Seq<A>, x: A, lt: spec_fn(A, A) -> bool, j: int)
    requires
        0 <= j <= s.len(),
        forall|k: int| 0 <= k < j ==> !lt(x, #[trigger] s[k]),
        j == s.len() || lt(x, s[j]),
    ensures
        ins_pos(s, x, lt) == j,
    decreases s.len(),
{
    if s.len() > 0 && j > 0 {
        assert(!lt(x, s[0]));
        assert forall|k: int| 0 <= k < j - 1 implies !lt(x, #[trigger] s.drop_first()[k]) by {
            assert(s.drop_first()[k] == s[k + 1]);
        }
        lemma_ins_pos(s.drop_first(), x, lt, j - 1);
    }
}

/// Sorting keeps the length and takes every element from the input.
pub proof fn lemma_sort_by<A>(s: Seq<A>, lt: spec_fn(A, A) -> bool)
    ensures
        sort_by(s, lt).len() == s.len(),
        forall|i: int| 0 <= i < s.len() ==> exists|j: int| 0 <= j < s.len() && #[trigger] sort_by(s, lt)[i] == s[j],
    decreases s.len(),
{
    if s.len() > 0 {
        let t = sort_by(s.drop_last(), lt);
        lemma_sort_by(s.drop_last(), lt);
        lemma_ins_pos_bound(t, s.last(), lt);
        let p = ins_pos(t, s.last(), lt) as int;
        assert forall|i: int| 0 <= i < s.len() implies exists|j: int| 0 <= j < s.len() && #[trigger] sort_by(s, lt)[i] == s[j] by {
            if i < p {
                assert(sort_by(s, lt)[i] == t[i]);
                let j = choose|j: int| 0 <= j < s.drop_last().len() && t[i] == s.drop_last()[j];
                assert(s.drop_last()[j] == s[j]);
            } else if i == p {
                assert(sort_by(s, lt)[i] == s[s.len() - 1]);
            } else {
                assert(sort_by(s, lt)[i] == t[i - 1]);
                let j = choose|j: int| 0 <= j < s.drop_last().len() && t[i - 1] == s.drop_last()[j];
                assert(s.drop_last()[j] == s[j]);
            }
        }
    }
}

pub proof fn lemma_ins_pos_bound<A>(s: Seq<A>, x: A, lt: spec_fn(A, A) -> bool)
    ensures
        ins_pos(s, x, lt) <= s.len(),
    decreases s.len(),
{
    if s.len() > 0 {
        lemma_ins_pos_bound(s.drop_first(), x, lt);
    }
}

/// `pos_of` is the first position holding `x` (or the length).
pub proof fn lemma_pos_of<A>(s: Seq<A>, x: A, j: int)
    requires
        0 <= j <= s.len(),
        forall|k: int| 0 <= k < j ==> #[trigger] s[k] != x,
        j == s.len() || s[j] == x,
    ensures
        pos_of(s, x) == j,
    decreases s.len(),
{
    if s.len() > 0 && j > 0 {
        assert(s[0] != x);
        assert forall|k: int| 0 <= k < j - 1 implies #[trigger] s.drop_first()[k] != x by {
            assert(s.drop_first()[k] == s[k + 1]);
        }
        lemma_pos_of(s.drop_first(), x, j - 1);
    }
}

/// `blob_pos` is the first position whose blob has index `i` (or the length).
pub proof fn lemma_blob_pos(s: Seq<(u32, Seq<u8>)>, i: u32, j: int)
    requires
        0 <= j <= s.len(),
        forall|k: int| 0 <= k < j ==> (#[trigger] s[k]).0 != i,
        j == s.len() || s[j].0 == i,
    ensures
        blob_pos(s, i) == j,
    decreases s.len(),
{
    if s.len() > 0 && j > 0 {
        assert(s[0].0 != i);
        assert forall|k: int| 0 <= k < j - 1 implies (#[trigger] s.drop_first()[k]).0 != i by {
            assert(s.drop_first()[k] == s[k + 1]);
        }
        lemma_blob_pos(s.drop_first(), i, j - 1);
    }
}

/// Byte order compared from position `i` on, once the first `i` bytes agree.
pub proof fn lemma_bytes_lt_skip(a: Seq<u8>, b: Seq<u8>, i: int)
    requires
        0 <= i <= a.len(),
        i <= b.len(),
        a.take(i) == b.take(i),
    ensures
        bytes_lt(a, b) == bytes_lt(a.skip(i), b.skip(i)),
    decreases i,
{
    if i > 0 {
        assert(a[0] == a.take(i)[0]);
        assert(b[0] == b.take(i)[0]);
        assert(a.drop_first().take(i - 1) =~= a.take(i).drop_first());
        assert(b.drop_first().take(i - 1) =~= b.take(i).drop_first());
        lemma_bytes_lt_skip(a.drop_first(), b.drop_first(), i - 1);
        assert(a.drop_first().skip(i - 1) =~= a.skip(i));
        assert(b.drop_first().skip(i - 1) =~= b.skip(i));
    } else {
        assert(a.skip(0) =~= a);
        assert(b.skip(0) =~= b);
    }
}

} // verus!
