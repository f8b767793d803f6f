//! What the reader gives back of what the writer wrote.
use vstd::prelude::*;
use vstd::utf8::{
    encode_scalar, encode_utf8, has_width_1_encoding, has_width_2_encoding, has_width_3_encoding, last_continuation_byte,
    leading_byte_width_1, leading_byte_width_2, leading_byte_width_3, leading_byte_width_4,
    second_last_continuation_byte, third_last_continuation_byte, encode_utf8_valid_utf8,
    encode_utf8_decode_utf8,
};
use crate::psb::encoding::{
    byte_width, enc_indexed, enc_uint_array, le_bytes, lemma_float_roundtrip, lemma_int_roundtrip,
    lemma_le_bytes_len, lemma_le_uint_le_bytes, lemma_mod_small, lemma_uint_array_roundtrip,
};
use crate::psb::format::{
    T_ARRAY, T_BSTREAM_8, T_OBJECT, T_STREAM_8, T_STRING_8, Tables, index_width, key_name, lemma_pow256_small,
    read_elements, read_entries, read_token, read_uint, utf8_lossy,
};
use crate::psb::layout::{
    Layout, Ref, blob_pos, enc_fields, enc_items, encode_token, entry_order, has_index, key_indices, pos_of,
    refs, refs_entries, refs_list,
};
use crate::psb::value::{ValueView, insert_entry};
use crate::psb::layout::{entry_lt, lemma_sort_by, sort_by, blob_table, string_table, zeros};
use crate::psb::layout::{
    Gathered, add_ref, add_refs, blob_order, ins_pos, layout_of, lemma_ins_pos_bound, no_tables, sorted_tables,
    text_order,
};
use crate::psb::encoding::align_up_spec;
use crate::psb::format::{cstr_end, read_u32s, read_header, Header, MAGIC};
use crate::psb::layout::{Offsets, header_image, header_words};
use crate::psb::encoding::{adler32_spec, lemma_enc_elems_len, lemma_pad, seq_max};
use crate::psb::format::{
    cstr_list, read_cstr_table, read_stream_table, read_trie_names, read_uint_array, stream_list, trie_name,
};
use crate::psb::layout::{TrieArrays, blob_section, trie_words_fit, words_fit};
use crate::psb::trie::{lemma_trie_names_read, spells, spells_name, trie_ready};
use crate::psb::writer::{key_bytes, written};
use crate::psb::format::{
    chain_bytes, chain_ends, chains_terminate, chain_ok, cstr_table_defined, file_readable, get_or0, read_file, read_tables, trie_names_defined,
};
use crate::psb::layout::{body_image, file_image};

verus! {

/// What the reader makes of a text the writer stored as UTF-8.
pub open spec fn lossy_text(s: Seq<char>) -> Seq<char> {
    utf8_lossy(encode_utf8(s))
}

/// A text stored as UTF-8 reads back as itself.
pub proof fn lemma_text_survives(s: Seq<char>)
    ensures
        lossy_text(s) == s,
{
    encode_utf8_valid_utf8(s);
    encode_utf8_decode_utf8(s);
}

/// The value a reader gives back of a token the writer wrote for `v` with
/// tables `l`: object entries in key order (inserted as the reader inserts
/// them), texts as they were, blobs by table position.
pub open spec fn read_back(v: ValueView, l: Layout) -> ValueView
    decreases v, 0nat,
{
    match v {
        ValueView::Str(s) => ValueView::Str(s),
        ValueView::Stream(i, _d) => ValueView::Stream(
            blob_pos(l.streams, i) as u32,
            l.streams[blob_pos(l.streams, i) as int].1,
        ),
        ValueView::BStream(i, _d) => ValueView::BStream(
            blob_pos(l.bstreams, i) as u32,
            l.bstreams[blob_pos(l.bstreams, i) as int].1,
        ),
        ValueView::Array(items) => ValueView::Array(read_back_items(items, items.len(), l)),
        ValueView::Object(es) => ValueView::Object(read_back_fields(es, entry_order(es), entry_order(es).len(), l)),
        _ => v,
    }
}

/// Read-back values of the first `k` items.
pub open spec fn read_back_items(items: Seq<ValueView>, k: nat, l: Layout) -> Seq<ValueView>
    decreases items, k,
{
    if k == 0 || k > items.len() {
        Seq::empty()
    } else {
        read_back_items(items, (k - 1) as nat, l).push(read_back(items[k - 1], l))
    }
}

/// Read-back entries `order[0..k]` of an object, inserted one after the other.
pub open spec fn read_back_fields(es: Seq<(Seq<char>, ValueView)>, order: Seq<int>, k: nat, l: Layout) -> Seq<
    (Seq<char>, ValueView),
>
    decreases es, k,
{
    if k == 0 || k > order.len() || !(0 <= order[k - 1] < es.len()) {
        Seq::empty()
    } else {
        proof {
            assert(decreases_to!(es => es[order[k - 1]]));
            assert(decreases_to!(es[order[k - 1]] => es[order[k - 1]].1));
        }
        insert_entry(
            read_back_fields(es, order, (k - 1) as nat, l),
            es[order[k - 1]].0,
            read_back(es[order[k - 1]].1, l),
        )
    }
}

/// The tables of `l` hold every key, string and blob index `v` refers to.
pub open spec fn covers(l: Layout, v: ValueView) -> bool {
    forall|j: int| 0 <= j < refs(v).len() ==> #[trigger] in_tables(l, refs(v)[j])
}

pub open spec fn in_tables(l: Layout, r: Ref) -> bool {
    match r {
        Ref::Key(k) => l.keys.contains(k),
        Ref::Str(s) => l.strings.contains(s),
        Ref::Stream(i, _d) => has_index(l.streams, i),
        Ref::BStream(i, _d) => has_index(l.bstreams, i),
    }
}

/// Tables a reader took from a file agree with the writer's tables.
pub open spec fn tables_agree(t: Tables, l: Layout) -> bool {
    &&& t.keys.len() == l.keys.len()
    &&& forall|i: int| 0 <= i < l.keys.len() ==> #[trigger] t.keys[i] == lossy_text(l.keys[i])
    &&& t.strings.len() == l.strings.len()
    &&& forall|i: int| 0 <= i < l.strings.len() ==> #[trigger] t.strings[i] == lossy_text(l.strings[i])
    &&& t.streams.len() == l.streams.len()
    &&& forall|i: int| 0 <= i < l.streams.len() ==> #[trigger] t.streams[i] == l.streams[i].1
    &&& t.bstreams.len() == l.bstreams.len()
    &&& forall|i: int| 0 <= i < l.bstreams.len() ==> #[trigger] t.bstreams[i] == l.bstreams[i].1
}

/// Every table is small enough for 32-bit indices.
pub open spec fn tables_small(l: Layout) -> bool {
    &&& l.keys.len() < 0x1_0000_0000
    &&& l.strings.len() < 0x1_0000_0000
    &&& l.streams.len() < 0x1_0000_0000
    &&& l.bstreams.len() < 0x1_0000_0000
}

proof fn lemma_pos_of_found<A>(s: Seq<A>, x: A)
    requires
        s.contains(x),
    ensures
        pos_of(s, x) < s.len(),
        s[pos_of(s, x) as int] == x,
    decreases s.len(),
{
    if s[0] != x {
        let j = choose|j: int| 0 <= j < s.len() && s[j] == x;
        assert(s.drop_first()[j - 1] == x);
        lemma_pos_of_found(s.drop_first(), x);
    }
}

proof fn lemma_blob_pos_found(s: Seq<(u32, Seq<u8>)>, i: u32)
    requires
        has_index(s, i),
    ensures
        blob_pos(s, i) < s.len(),
        s[blob_pos(s, i) as int].0 == i,
    decreases s.len(),
{
    if s[0].0 != i {
        let j = choose|j: int| 0 <= j < s.len() && s[j].0 == i;
        assert(s.drop_first()[j - 1].0 == i);
        lemma_blob_pos_found(s.drop_first(), i);
    }
}

/// An index token reads back as its index.
proof fn lemma_index_token(pre: Seq<u8>, base: u8, idx: nat, post: Seq<u8>)
    requires
        idx < 0x1_0000_0000,
        base == T_STRING_8 || base == T_STREAM_8 || base == T_BSTREAM_8,
    ensures
        ({
            let d = pre + enc_indexed(base, idx) + post;
            let ty = d[pre.len() as int];
            &&& ty == base + byte_width(idx) - 1
            &&& index_width(ty) == byte_width(idx)
            &&& read_uint(d, pre.len() + 1 as int, byte_width(idx)) == Ok::<(nat, int), crate::psb::Error>(
                (idx, (pre.len() + 1 + byte_width(idx)) as int),
            )
        }),
{
    let w = byte_width(idx);
    let d = pre + enc_indexed(base, idx) + post;
    lemma_pow256_small();
    assert(d =~= (pre + seq![(base + w - 1) as u8]) + le_bytes(idx, w) + post);
    lemma_le_bytes_len(idx, w);
    lemma_le_uint_le_bytes(pre + seq![(base + w - 1) as u8], idx, w, post);
    lemma_mod_small(idx, w);
}

/// Offsets and bodies of a prefix of the items are a prefix of those of all of them.
proof fn lemma_enc_items_prefix(items: Seq<ValueView>, k: nat, n: nat, l: Layout)
    requires
        k <= n <= items.len(),
    ensures
        enc_items(items, n, l).0.len() == n,
        enc_items(items, k, l).0 == enc_items(items, n, l).0.take(k as int),
        enc_items(items, k, l).1.len() <= enc_items(items, n, l).1.len(),
        enc_items(items, k, l).1 == enc_items(items, n, l).1.take(enc_items(items, k, l).1.len() as int),
        k < n ==> enc_items(items, n, l).0[k as int] == enc_items(items, k, l).1.len() as u64,
        k < n ==> enc_items(items, n, l).1.subrange(
            enc_items(items, k, l).1.len() as int,
            (enc_items(items, k, l).1.len() + encode_token(items[k as int], l).len()) as int,
        ) == encode_token(items[k as int], l),
        k < n ==> enc_items(items, k, l).1.len() + encode_token(items[k as int], l).len() <= enc_items(
            items,
            n,
            l,
        ).1.len(),
    decreases n,
{
    if n > 0 {
        if k < n {
            lemma_enc_items_prefix(items, k, (n - 1) as nat, l);
            let (o, b) = enc_items(items, (n - 1) as nat, l);
            let (o2, b2) = enc_items(items, n, l);
            assert(o2 == o.push(b.len() as u64));
            assert(b2 == b + encode_token(items[n - 1], l));
            if k == n - 1 {
                assert(o =~= o2.take(k as int));
                assert(b =~= b2.take(b.len() as int));
                assert(b2.subrange(b.len() as int, (b.len() + encode_token(items[k as int], l).len()) as int) =~= encode_token(
                    items[k as int],
                    l,
                ));
            } else {
                let bk = enc_items(items, k, l).1;
                assert(enc_items(items, k, l).0 =~= o2.take(k as int));
                assert(bk =~= b2.take(bk.len() as int));
                assert(b2.subrange(bk.len() as int, (bk.len() + encode_token(items[k as int], l).len()) as int) =~= b.subrange(
                    bk.len() as int,
                    (bk.len() + encode_token(items[k as int], l).len()) as int,
                ));
            }
        } else {
            let (o2, b2) = enc_items(items, n, l);
            lemma_enc_items_prefix(items, (n - 1) as nat, (n - 1) as nat, l);
            assert(o2.take(n as int) =~= o2);
            assert(b2.take(b2.len() as int) =~= b2);
        }
    }
}

/// Offsets and bodies of a prefix of the entries are a prefix of those of all of them.
proof fn lemma_enc_fields_prefix(
    es: Seq<(Seq<char>, ValueView)>,
    order: Seq<int>,
    k: nat,
    n: nat,
    l: Layout,
)
    requires
        k <= n <= order.len(),
        forall|j: int| 0 <= j < order.len() ==> 0 <= #[trigger] order[j] < es.len(),
    ensures
        enc_fields(es, order, n, l).0.len() == n,
        enc_fields(es, order, k, l).0 == enc_fields(es, order, n, l).0.take(k as int),
        enc_fields(es, order, k, l).1.len() <= enc_fields(es, order, n, l).1.len(),
        k < n ==> enc_fields(es, order, n, l).0[k as int] == enc_fields(es, order, k, l).1.len() as u64,
        k < n ==> enc_fields(es, order, n, l).1.subrange(
            enc_fields(es, order, k, l).1.len() as int,
            (enc_fields(es, order, k, l).1.len() + encode_token(es[order[k as int]].1, l).len()) as int,
        ) == encode_token(es[order[k as int]].1, l),
        k < n ==> enc_fields(es, order, k, l).1.len() + encode_token(es[order[k as int]].1, l).len()
            <= enc_fields(es, order, n, l).1.len(),
    decreases n,
{
    if n > 0 {
        assert(0 <= order[n - 1] < es.len());
        if k < n {
            lemma_enc_fields_prefix(es, order, k, (n - 1) as nat, l);
            let (o, b) = enc_fields(es, order, (n - 1) as nat, l);
            let (o2, b2) = enc_fields(es, order, n, l);
            let tok = encode_token(es[order[k as int]].1, l);
            assert(o2 == o.push(b.len() as u64));
            assert(b2 == b + encode_token(es[order[n - 1]].1, l));
            if k == n - 1 {
                assert(o =~= o2.take(k as int));
                assert(b2.subrange(b.len() as int, (b.len() + tok.len()) as int) =~= tok);
            } else {
                let bk = enc_fields(es, order, k, l).1;
                assert(enc_fields(es, order, k, l).0 =~= o2.take(k as int));
                assert(b2.subrange(bk.len() as int, (bk.len() + tok.len()) as int) =~= b.subrange(
                    bk.len() as int,
                    (bk.len() + tok.len()) as int,
                ));
            }
        } else {
            let (o2, b2) = enc_fields(es, order, n, l);
            lemma_enc_fields_prefix(es, order, (n - 1) as nat, (n - 1) as nat, l);
            assert(o2.take(n as int) =~= o2);
        }
    }
}

/// Every token has at least its type byte.
proof fn lemma_token_nonempty(v: ValueView, l: Layout)
    ensures
        encode_token(v, l).len() >= 1,
{
    lemma_pow256_small();
    match v {
        ValueView::Int(n) => {
            lemma_le_bytes_len(crate::psb::encoding::twos(n), crate::psb::encoding::int_width(n));
        },
        ValueView::Float(b) => {},
        _ => {},
    }
}

/// Items encode to at least one byte each.
proof fn lemma_enc_items_len(items: Seq<ValueView>, k: nat, l: Layout)
    requires
        k <= items.len(),
    ensures
        enc_items(items, k, l).1.len() >= k,
    decreases k,
{
    if k > 0 {
        lemma_enc_items_len(items, (k - 1) as nat, l);
        lemma_token_nonempty(items[k - 1], l);
    }
}

proof fn lemma_enc_fields_len(es: Seq<(Seq<char>, ValueView)>, order: Seq<int>, k: nat, l: Layout)
    requires
        k <= order.len(),
        forall|j: int| 0 <= j < order.len() ==> 0 <= #[trigger] order[j] < es.len(),
    ensures
        enc_fields(es, order, k, l).1.len() >= k,
    decreases k,
{
    if k > 0 {
        assert(0 <= order[k - 1] < es.len());
        lemma_enc_fields_len(es, order, (k - 1) as nat, l);
        lemma_token_nonempty(es[order[k - 1]].1, l);
    }
}

/// The references of an item are among those of the first `k` items.
proof fn lemma_refs_list_has(items: Seq<ValueView>, k: nat, j: int, m: int)
    requires
        0 <= j < k <= items.len(),
        0 <= m < refs(items[j]).len(),
    ensures
        refs_list(items, k).contains(refs(items[j])[m]),
    decreases k,
{
    let prev = refs_list(items, (k - 1) as nat);
    let last = refs(items[k - 1]);
    assert(refs_list(items, k) == prev + last);
    if j == k - 1 {
        assert((prev + last)[prev.len() + m] == last[m]);
    } else {
        lemma_refs_list_has(items, (k - 1) as nat, j, m);
        let x = choose|x: int| 0 <= x < prev.len() && prev[x] == refs(items[j])[m];
        assert((prev + last)[x] == prev[x]);
    }
}

/// The key and the references of an entry's value are among those of the first `k` entries.
proof fn lemma_refs_entries_has(es: Seq<(Seq<char>, ValueView)>, k: nat, j: int)
    requires
        0 <= j < k <= es.len(),
    ensures
        refs_entries(es, k).contains(Ref::Key(es[j].0)),
        forall|m: int| 0 <= m < refs(es[j].1).len() ==> refs_entries(es, k).contains(#[trigger] refs(es[j].1)[m]),
    decreases k,
{
    let prev = refs_entries(es, (k - 1) as nat);
    let key = seq![Ref::Key(es[k - 1].0)];
    let last = refs(es[k - 1].1);
    assert(refs_entries(es, k) == prev + key + last);
    if j == k - 1 {
        assert((prev + key + last)[prev.len() as int] == Ref::Key(es[j].0));
        assert forall|m: int| 0 <= m < refs(es[j].1).len() implies refs_entries(es, k).contains(
            #[trigger] refs(es[j].1)[m],
        ) by {
            assert((prev + key + last)[prev.len() + 1 + m] == last[m]);
        }
    } else {
        lemma_refs_entries_has(es, (k - 1) as nat, j);
        let x = choose|x: int| 0 <= x < prev.len() && prev[x] == Ref::Key(es[j].0);
        assert((prev + key + last)[x] == prev[x]);
        assert forall|m: int| 0 <= m < refs(es[j].1).len() implies refs_entries(es, k).contains(
            #[trigger] refs(es[j].1)[m],
        ) by {
            let y = choose|y: int| 0 <= y < prev.len() && prev[y] == refs(es[j].1)[m];
            assert((prev + key + last)[y] == prev[y]);
        }
    }
}

/// Entry positions in key order are a permutation of the positions.
proof fn lemma_entry_order(es: Seq<(Seq<char>, ValueView)>)
    ensures
        entry_order(es).len() == es.len(),
        forall|j: int| 0 <= j < es.len() ==> 0 <= #[trigger] entry_order(es)[j] < es.len(),
{
    let ids = Seq::new(es.len(), |i: int| i);
    lemma_sort_by(ids, entry_lt(es));
    assert forall|j: int| 0 <= j < es.len() implies 0 <= #[trigger] entry_order(es)[j] < es.len() by {
        let x = choose|x: int| 0 <= x < ids.len() && sort_by(ids, entry_lt(es))[j] == ids[x];
    }
}

/// A token the writer wrote reads back as `read_back` of its value, given
/// tables that agree with the writer's.
pub proof fn lemma_token_roundtrip(pre: Seq<u8>, v: ValueView, post: Seq<u8>, l: Layout, t: Tables)
    requires
        tables_agree(t, l),
        tables_small(l),
        covers(l, v),
        encode_token(v, l).len() < 0x1_0000_0000,
    ensures
        read_token(pre + encode_token(v, l) + post, pre.len() as int, t) == Ok::<ValueView, crate::psb::Error>(
            read_back(v, l),
        ),
    decreases v, 0nat,
{
    let d = pre + encode_token(v, l) + post;
    let p0 = pre.len() as int;
    lemma_pow256_small();
    match v {
        ValueView::Null => {
            assert(d[p0] == crate::psb::format::T_NULL);
        },
        ValueView::Bool(b) => {
            assert(d[p0] == encode_token(v, l)[0]);
        },
        ValueView::Int(n) => {
            lemma_int_roundtrip(pre, n, post, t);
        },
        ValueView::Float(b) => {
            lemma_float_roundtrip(pre, b, post, t);
        },
        ValueView::Str(s) => {
            assert(refs(v)[0] == Ref::Str(s));
            assert(in_tables(l, refs(v)[0]));
            lemma_pos_of_found(l.strings, s);
            let idx = pos_of(l.strings, s);
            lemma_index_token(pre, T_STRING_8, idx, post);
            assert(t.strings[idx as int] == lossy_text(l.strings[idx as int]));
            lemma_text_survives(s);
        },
        ValueView::Stream(i, dd) => {
            assert(refs(v)[0] == Ref::Stream(i, dd));
            assert(in_tables(l, refs(v)[0]));
            lemma_blob_pos_found(l.streams, i);
            let idx = blob_pos(l.streams, i);
            lemma_index_token(pre, T_STREAM_8, idx, post);
            assert(t.streams[idx as int] == l.streams[idx as int].1);
        },
        ValueView::BStream(i, dd) => {
            assert(refs(v)[0] == Ref::BStream(i, dd));
            assert(in_tables(l, refs(v)[0]));
            lemma_blob_pos_found(l.bstreams, i);
            let idx = blob_pos(l.bstreams, i);
            lemma_index_token(pre, T_BSTREAM_8, idx, post);
            assert(t.bstreams[idx as int] == l.bstreams[idx as int].1);
        },
        ValueView::Array(items) => {
            lemma_array_token(pre, items, post, l, t);
        },
        ValueView::Object(es) => {
            lemma_object_token(pre, es, post, l, t);
        },
    }
}

/// An array token reads back item by item.
proof fn lemma_array_token(pre: Seq<u8>, items: Seq<ValueView>, post: Seq<u8>, l: Layout, t: Tables)
    requires
        tables_agree(t, l),
        tables_small(l),
        covers(l, ValueView::Array(items)),
        encode_token(ValueView::Array(items), l).len() < 0x1_0000_0000,
    ensures
        read_token(pre + encode_token(ValueView::Array(items), l) + post, pre.len() as int, t) == Ok::<
            ValueView,
            crate::psb::Error,
        >(read_back(ValueView::Array(items), l)),
    decreases items, (items.len() + 1) as nat,
{
    let v = ValueView::Array(items);
    let d = pre + encode_token(v, l) + post;
    let p0 = pre.len() as int;
    lemma_pow256_small();
    let n = items.len();
    let (offs, body) = enc_items(items, n, l);
    lemma_enc_items_prefix(items, n, n, l);
    lemma_enc_items_len(items, n, l);
    assert forall|j: int| 0 <= j < offs.len() implies offs[j] < 0x1_0000_0000u64 by {
        lemma_enc_items_prefix(items, j as nat, n, l);
    }
    let head = pre + seq![T_ARRAY];
    assert(d =~= head + enc_uint_array(offs) + (body + post));
    lemma_uint_array_roundtrip(head, offs, body + post);
    let base = head.len() + enc_uint_array(offs).len();
    assert(d.subrange(base as int, (base + body.len()) as int) =~= body);
    assert forall|j: int| 0 <= j < n implies #[trigger] covers(l, items[j]) by {
        assert forall|m: int| 0 <= m < refs(items[j]).len() implies #[trigger] in_tables(l, refs(items[j])[m]) by {
            lemma_refs_list_has(items, n, j, m);
            let x = choose|x: int| 0 <= x < refs(v).len() && refs(v)[x] == refs(items[j])[m];
            assert(in_tables(l, refs(v)[x]));
        }
    }
    lemma_items_roundtrip(d, base as int, items, n, l, t);
    assert(d[p0] == T_ARRAY);
}

/// The tables cover each entry's key and value when they cover the object.
proof fn lemma_object_children(l: Layout, es: Seq<(Seq<char>, ValueView)>)
    requires
        covers(l, ValueView::Object(es)),
    ensures
        forall|j: int| 0 <= j < es.len() ==> covers(l, #[trigger] es[j].1),
        forall|j: int| 0 <= j < es.len() ==> l.keys.contains(#[trigger] es[j].0),
{
    let v = ValueView::Object(es);
    assert forall|j: int| 0 <= j < es.len() implies l.keys.contains(#[trigger] es[j].0) by {
        lemma_refs_entries_has(es, es.len(), j);
        let x = choose|x: int| 0 <= x < refs(v).len() && refs(v)[x] == Ref::Key(es[j].0);
        assert(in_tables(l, refs(v)[x]));
    }
    assert forall|j: int| 0 <= j < es.len() implies covers(l, #[trigger] es[j].1) by {
        lemma_refs_entries_has(es, es.len(), j);
        assert forall|m: int| 0 <= m < refs(es[j].1).len() implies #[trigger] in_tables(l, refs(es[j].1)[m]) by {
            let y = choose|y: int| 0 <= y < refs(v).len() && refs(v)[y] == refs(es[j].1)[m];
            assert(in_tables(l, refs(v)[y]));
        }
    }
}

/// An object token reads back entry by entry, in key order.
#[verifier::rlimit(40)]
proof fn lemma_object_token(pre: Seq<u8>, es: Seq<(Seq<char>, ValueView)>, post: Seq<u8>, l: Layout, t: Tables)
    requires
        tables_agree(t, l),
        tables_small(l),
        covers(l, ValueView::Object(es)),
        encode_token(ValueView::Object(es), l).len() < 0x1_0000_0000,
    ensures
        read_token(pre + encode_token(ValueView::Object(es), l) + post, pre.len() as int, t) == Ok::<
            ValueView,
            crate::psb::Error,
        >(read_back(ValueView::Object(es), l)),
    decreases es, (es.len() + 1) as nat,
{
    let v = ValueView::Object(es);
    let d = pre + encode_token(v, l) + post;
    let p0 = pre.len() as int;
    lemma_pow256_small();
    let order = entry_order(es);
    lemma_entry_order(es);
    let n = order.len();
    let (offs, body) = enc_fields(es, order, n, l);
    let kidx = key_indices(es, order, l);
    lemma_enc_fields_prefix(es, order, n, n, l);
    lemma_enc_fields_len(es, order, n, l);
    assert forall|j: int| 0 <= j < offs.len() implies offs[j] < 0x1_0000_0000u64 by {
        lemma_enc_fields_prefix(es, order, j as nat, n, l);
    }
    lemma_object_children(l, es);
    assert forall|j: int| 0 <= j < kidx.len() implies kidx[j] < 0x1_0000_0000u64 by {
        let e = order[j];
        assert(covers(l, es[e].1));
        assert(l.keys.contains(es[e].0));
        lemma_pos_of_found(l.keys, es[e].0);
    }
    let head = pre + seq![T_OBJECT];
    assert(d =~= head + enc_uint_array(kidx) + (enc_uint_array(offs) + body + post));
    lemma_uint_array_roundtrip(head, kidx, enc_uint_array(offs) + body + post);
    let head2 = head + enc_uint_array(kidx);
    assert(d =~= head2 + enc_uint_array(offs) + (body + post));
    lemma_uint_array_roundtrip(head2, offs, body + post);
    let base = head2.len() + enc_uint_array(offs).len();
    assert(d.subrange(base as int, (base + body.len()) as int) =~= body);
    lemma_fields_roundtrip(d, base as int, es, order, n, l, t);
    assert(d[p0] == T_OBJECT);
}

/// The first `k` items of an array body standing at `base` read back item by item.
proof fn lemma_items_roundtrip(d: Seq<u8>, base: int, items: Seq<ValueView>, k: nat, l: Layout, t: Tables)
    requires
        k <= items.len(),
        0 <= base,
        base + enc_items(items, items.len(), l).1.len() <= d.len(),
        d.subrange(base, base + enc_items(items, items.len(), l).1.len()) == enc_items(items, items.len(), l).1,
        enc_items(items, items.len(), l).1.len() < 0x1_0000_0000,
        tables_agree(t, l),
        tables_small(l),
        forall|j: int| 0 <= j < items.len() ==> #[trigger] covers(l, items[j]),
    ensures
        read_elements(d, base, enc_items(items, items.len(), l).0, k, t) == Ok::<
            Seq<ValueView>,
            crate::psb::Error,
        >(read_back_items(items, k, l)),
    decreases items, k,
{
    let n = items.len();
    let (offs, body) = enc_items(items, n, l);
    lemma_enc_items_prefix(items, n, n, l);
    if k > 0 {
        lemma_items_roundtrip(d, base, items, (k - 1) as nat, l, t);
        lemma_enc_items_prefix(items, (k - 1) as nat, n, l);
        let o = enc_items(items, (k - 1) as nat, l).1.len();
        let tok = encode_token(items[k - 1], l);
        lemma_token_nonempty(items[k - 1], l);
        let q = base + o;
        assert(offs[k - 1] == o as u64);
        assert(d.subrange(q, q + tok.len()) =~= tok) by {
            assert(body.subrange(o as int, (o + tok.len()) as int) == tok);
            assert forall|x: int| 0 <= x < tok.len() implies d.subrange(q, q + tok.len())[x] == tok[x] by {
                assert(d.subrange(base, base + body.len())[o + x] == body[o + x]);
            }
        }
        assert(d =~= d.take(q) + tok + d.skip(q + tok.len()));
        lemma_token_roundtrip(d.take(q), items[k - 1], d.skip(q + tok.len()), l, t);
    }
}

/// The first `k` entries, in key order, of an object body standing at `base` read back.
proof fn lemma_fields_roundtrip(
    d: Seq<u8>,
    base: int,
    es: Seq<(Seq<char>, ValueView)>,
    order: Seq<int>,
    k: nat,
    l: Layout,
    t: Tables,
)
    requires
        k <= order.len(),
        forall|j: int| 0 <= j < order.len() ==> 0 <= #[trigger] order[j] < es.len(),
        0 <= base,
        base + enc_fields(es, order, order.len(), l).1.len() <= d.len(),
        d.subrange(base, base + enc_fields(es, order, order.len(), l).1.len()) == enc_fields(
            es,
            order,
            order.len(),
            l,
        ).1,
        enc_fields(es, order, order.len(), l).1.len() < 0x1_0000_0000,
        tables_agree(t, l),
        tables_small(l),
        forall|j: int| 0 <= j < es.len() ==> covers(l, #[trigger] es[j].1),
        forall|j: int| 0 <= j < es.len() ==> l.keys.contains(#[trigger] es[j].0),
    ensures
        read_entries(d, base, key_indices(es, order, l), enc_fields(es, order, order.len(), l).0, k, t)
            == Ok::<Seq<(Seq<char>, ValueView)>, crate::psb::Error>(read_back_fields(es, order, k, l)),
    decreases es, k,
{
    let n = order.len();
    let (offs, body) = enc_fields(es, order, n, l);
    let kidx = key_indices(es, order, l);
    lemma_enc_fields_prefix(es, order, n, n, l);
    if k > 0 {
        let e = order[k - 1];
        assert(0 <= e < es.len());
        lemma_fields_roundtrip(d, base, es, order, (k - 1) as nat, l, t);
        lemma_enc_fields_prefix(es, order, (k - 1) as nat, n, l);
        let o = enc_fields(es, order, (k - 1) as nat, l).1.len();
        let tok = encode_token(es[e].1, l);
        lemma_token_nonempty(es[e].1, l);
        let q = base + o;
        assert(offs[k - 1] == o as u64);
        assert(d.subrange(q, q + tok.len()) =~= tok) by {
            assert(body.subrange(o as int, (o + tok.len()) as int) == tok);
            assert forall|x: int| 0 <= x < tok.len() implies d.subrange(q, q + tok.len())[x] == tok[x] by {
                assert(d.subrange(base, base + body.len())[o + x] == body[o + x]);
            }
        }
        assert(d =~= d.take(q) + tok + d.skip(q + tok.len()));
        assert(decreases_to!(es => es[e]));
        lemma_token_roundtrip(d.take(q), es[e].1, d.skip(q + tok.len()), l, t);
        assert(covers(l, es[e].1));
        assert(l.keys.contains(es[e].0));
        lemma_pos_of_found(l.keys, es[e].0);
        let pk = pos_of(l.keys, es[e].0);
        assert(kidx[k - 1] == pk as u64);
        assert(key_name(t, kidx[k - 1] as nat) == t.keys[pk as int]);
        assert(t.keys[pk as int] == lossy_text(es[e].0));
        lemma_text_survives(es[e].0);
    }
}

/// No byte of the UTF-8 encoding of a text without NUL characters is zero.
pub proof fn lemma_utf8_no_zero(s: Seq<char>)
    requires
        forall|i: int| 0 <= i < s.len() ==> s[i] as u32 != 0,
    ensures
        forall|k: int| 0 <= k < encode_utf8(s).len() ==> encode_utf8(s)[k] != 0,
    decreases s.len(),
{
    if s.len() > 0 {
        let c = s[0] as u32;
        assert(c != 0);
        let e = encode_scalar(c);
        assert forall|k: int| 0 <= k < e.len() implies e[k] != 0 by {
            if has_width_1_encoding(c) {
                assert((c & 0x7F) as u8 != 0) by (bit_vector)
                    requires
                        1 <= c <= 0x7F,
                ;
                assert(e[k] == leading_byte_width_1(c));
            } else {
                let x = ((c >> 6) & 0x1F) as u8;
                let y = (c & 0x3F) as u8;
                let z = ((c >> 6) & 0x3F) as u8;
                let w = ((c >> 12) & 0x3F) as u8;
                let a = ((c >> 12) & 0x0F) as u8;
                let b = ((c >> 18) & 0x7) as u8;
                assert((0xC0u8 | x) != 0) by (bit_vector);
                assert((0x80u8 | y) != 0) by (bit_vector);
                assert((0x80u8 | z) != 0) by (bit_vector);
                assert((0x80u8 | w) != 0) by (bit_vector);
                assert((0xE0u8 | a) != 0) by (bit_vector);
                assert((0xF0u8 | b) != 0) by (bit_vector);
                assert(leading_byte_width_2(c) == (0xC0u8 | x));
                assert(last_continuation_byte(c) == (0x80u8 | y));
                assert(second_last_continuation_byte(c) == (0x80u8 | z));
                assert(third_last_continuation_byte(c) == (0x80u8 | w));
                assert(leading_byte_width_3(c) == (0xE0u8 | a));
                assert(leading_byte_width_4(c) == (0xF0u8 | b));
            }
        }
        lemma_utf8_no_zero(s.drop_first());
        assert(encode_utf8(s) == e + encode_utf8(s.drop_first()));
        assert forall|k: int| 0 <= k < encode_utf8(s).len() implies encode_utf8(s)[k] != 0 by {
            if k < e.len() {
                assert(encode_utf8(s)[k] == e[k]);
            } else {
                assert(encode_utf8(s)[k] == encode_utf8(s.drop_first())[k - e.len()]);
            }
        }
    }
}

/// The string table of the first `k` strings is a prefix of that of the first `n`.
proof fn lemma_string_table_prefix(strings: Seq<Seq<char>>, k: nat, n: nat)
    requires
        k <= n <= strings.len(),
    ensures
        string_table(strings, n).0.len() == n,
        string_table(strings, k).1.len() <= string_table(strings, n).1.len(),
        k < n ==> string_table(strings, n).0[k as int] == string_table(strings, k).1.len() as u64,
        k < n ==> string_table(strings, n).1.subrange(
            string_table(strings, k).1.len() as int,
            (string_table(strings, k).1.len() + encode_utf8(strings[k as int]).len()) as int,
        ) == encode_utf8(strings[k as int]),
        k < n ==> string_table(strings, k).1.len() + encode_utf8(strings[k as int]).len() < string_table(
            strings,
            n,
        ).1.len(),
        k < n ==> string_table(strings, n).1[(string_table(strings, k).1.len() + encode_utf8(
            strings[k as int],
        ).len()) as int] == 0,
    decreases n,
{
    if n > 0 {
        lemma_string_table_prefix(strings, if k < n { k } else { (n - 1) as nat }, (n - 1) as nat);
        let (o, b) = string_table(strings, (n - 1) as nat);
        let (o2, b2) = string_table(strings, n);
        let e = encode_utf8(strings[n - 1]);
        assert(b2 == b + e + seq![0u8]);
        if k < n {
            let bk = string_table(strings, k).1;
            let ek = encode_utf8(strings[k as int]);
            if k == n - 1 {
                assert(b2.subrange(b.len() as int, (b.len() + e.len()) as int) =~= e);
                assert(b2[(b.len() + e.len()) as int] == 0);
            } else {
                assert(b2.subrange(bk.len() as int, (bk.len() + ek.len()) as int) =~= b.subrange(
                    bk.len() as int,
                    (bk.len() + ek.len()) as int,
                ));
                assert(b2[(bk.len() + ek.len()) as int] == b[(bk.len() + ek.len()) as int]);
            }
        }
    }
}

/// The blob table of the first `k` blobs is a prefix of that of the first `n`.
proof fn lemma_blob_table_prefix(s: Seq<(u32, Seq<u8>)>, k: nat, n: nat)
    requires
        k <= n <= s.len(),
    ensures
        blob_table(s, n).0.len() == n,
        blob_table(s, n).1.len() == n,
        blob_table(s, k).2.len() <= blob_table(s, n).2.len(),
        k < n ==> blob_table(s, n).0[k as int] == blob_table(s, k).2.len() as u64,
        k < n ==> blob_table(s, n).1[k as int] == s[k as int].1.len() as u64,
        k < n ==> blob_table(s, k).2.len() + s[k as int].1.len() <= blob_table(s, n).2.len(),
        k < n ==> blob_table(s, n).2.subrange(
            blob_table(s, k).2.len() as int,
            (blob_table(s, k).2.len() + s[k as int].1.len()) as int,
        ) == s[k as int].1,
    decreases n,
{
    if n > 0 {
        lemma_blob_table_prefix(s, if k < n { k } else { (n - 1) as nat }, (n - 1) as nat);
        let (o, z, b) = blob_table(s, (n - 1) as nat);
        let (o2, z2, b2) = blob_table(s, n);
        let d = s[n - 1].1;
        let pad = zeros((align_up_spec(d.len(), 32) - d.len()) as nat);
        assert(b2 == b + d + pad);
        if k < n {
            let bk = blob_table(s, k).2;
            let dk = s[k as int].1;
            if k == n - 1 {
                assert(b2.subrange(b.len() as int, (b.len() + d.len()) as int) =~= d);
            } else {
                assert(b2.subrange(bk.len() as int, (bk.len() + dk.len()) as int) =~= b.subrange(
                    bk.len() as int,
                    (bk.len() + dk.len()) as int,
                ));
            }
        }
    }
}

/// The NUL-terminated string at `i` ends at the first zero byte.
proof fn lemma_cstr_end(d: Seq<u8>, i: int, len: nat)
    requires
        0 <= i,
        i + len < d.len(),
        forall|k: int| i <= k < i + len ==> d[k] != 0,
        d[i + len] == 0,
    ensures
        cstr_end(d, i) == i + len,
    decreases len,
{
    if len > 0 {
        lemma_cstr_end(d, i + 1, (len - 1) as nat);
    }
}

// ---- every reference of a value lands in its tables ----

/// The gathered tables hold what `r` refers to.
pub open spec fn gathered_has(g: Gathered, r: Ref) -> bool {
    match r {
        Ref::Key(k) => g.keys.contains(k),
        Ref::Str(s) => g.strings.contains(s),
        Ref::Stream(i, _d) => has_index(g.streams, i),
        Ref::BStream(i, _d) => has_index(g.bstreams, i),
    }
}

proof fn lemma_push_contains<A>(s: Seq<A>, a: A, x: A)
    requires
        s.contains(x),
    ensures
        s.push(a).contains(x),
{
    let j = choose|j: int| 0 <= j < s.len() && s[j] == x;
    assert(s.push(a)[j] == x);
}

proof fn lemma_push_has_index(s: Seq<(u32, Seq<u8>)>, a: (u32, Seq<u8>), i: u32)
    requires
        has_index(s, i),
    ensures
        has_index(s.push(a), i),
{
    let j = choose|j: int| 0 <= j < s.len() && s[j].0 == i;
    assert(s.push(a)[j].0 == i);
}

/// Adding a reference keeps what was there.
proof fn lemma_add_ref_keeps(g: Gathered, r: Ref, x: Ref)
    requires
        gathered_has(g, x),
    ensures
        gathered_has(add_ref(g, r), x),
{
    let g2 = add_ref(g, r);
    match r {
        Ref::Key(k) => if !g.keys.contains(k) {
            if let Ref::Key(kx) = x {
                lemma_push_contains(g.keys, k, kx);
            }
        },
        Ref::Str(s) => if !g.strings.contains(s) {
            if let Ref::Str(sx) = x {
                lemma_push_contains(g.strings, s, sx);
            }
        },
        Ref::Stream(i, d) => if !has_index(g.streams, i) {
            if let Ref::Stream(ix, _dx) = x {
                lemma_push_has_index(g.streams, (i, d), ix);
            }
        },
        Ref::BStream(i, d) => if !has_index(g.bstreams, i) {
            if let Ref::BStream(ix, _dx) = x {
                lemma_push_has_index(g.bstreams, (i, d), ix);
            }
        },
    }
}

/// After adding a reference the tables hold it.
proof fn lemma_add_ref_has(g: Gathered, r: Ref)
    ensures
        gathered_has(add_ref(g, r), r),
{
    match r {
        Ref::Key(k) => if !g.keys.contains(k) {
            assert(g.keys.push(k)[g.keys.len() as int] == k);
        },
        Ref::Str(s) => if !g.strings.contains(s) {
            assert(g.strings.push(s)[g.strings.len() as int] == s);
        },
        Ref::Stream(i, d) => if !has_index(g.streams, i) {
            assert(g.streams.push((i, d))[g.streams.len() as int].0 == i);
        },
        Ref::BStream(i, d) => if !has_index(g.bstreams, i) {
            assert(g.bstreams.push((i, d))[g.bstreams.len() as int].0 == i);
        },
    }
}

/// Gathering a run of references keeps what was there and adds each of them.
proof fn lemma_add_refs_has(g: Gathered, rs: Seq<Ref>)
    ensures
        forall|x: Ref| #[trigger] gathered_has(g, x) ==> gathered_has(add_refs(g, rs), x),
        forall|j: int| 0 <= j < rs.len() ==> gathered_has(add_refs(g, rs), #[trigger] rs[j]),
    decreases rs.len(),
{
    if rs.len() > 0 {
        let a = rs.drop_last();
        lemma_add_refs_has(g, a);
        let g0 = add_refs(g, a);
        assert(add_refs(g, rs) == add_ref(g0, rs.last()));
        assert forall|x: Ref| #[trigger] gathered_has(g, x) implies gathered_has(add_refs(g, rs), x) by {
            assert(gathered_has(g0, x));
            lemma_add_ref_keeps(g0, rs.last(), x);
        }
        assert forall|j: int| 0 <= j < rs.len() implies gathered_has(add_refs(g, rs), #[trigger] rs[j]) by {
            if j == rs.len() - 1 {
                lemma_add_ref_has(g0, rs.last());
            } else {
                assert(rs[j] == a[j]);
                assert(gathered_has(g0, a[j]));
                lemma_add_ref_keeps(g0, rs.last(), rs[j]);
            }
        }
    }
}

/// Sorting loses no element.
proof fn lemma_sort_keeps<A>(s: Seq<A>, lt: spec_fn(A, A) -> bool)
    ensures
        forall|j: int| 0 <= j < s.len() ==> sort_by(s, lt).contains(#[trigger] s[j]),
    decreases s.len(),
{
    if s.len() > 0 {
        let a = s.drop_last();
        let t = sort_by(a, lt);
        lemma_sort_keeps(a, lt);
        lemma_ins_pos_bound(t, s.last(), lt);
        let p = ins_pos(t, s.last(), lt) as int;
        let u = t.insert(p, s.last());
        assert(sort_by(s, lt) == u);
        assert forall|j: int| 0 <= j < s.len() implies u.contains(#[trigger] s[j]) by {
            if j == s.len() - 1 {
                assert(u[p] == s.last());
            } else {
                assert(s[j] == a[j]);
                assert(t.contains(a[j]));
                let k = choose|k: int| 0 <= k < t.len() && t[k] == a[j];
                if k < p {
                    assert(u[k] == t[k]);
                } else {
                    assert(u[k + 1] == t[k]);
                }
            }
        }
    }
}

proof fn lemma_sort_has_index(s: Seq<(u32, Seq<u8>)>, i: u32)
    requires
        has_index(s, i),
    ensures
        has_index(sort_by(s, blob_order()), i),
{
    let j = choose|j: int| 0 <= j < s.len() && s[j].0 == i;
    lemma_sort_keeps(s, blob_order());
    assert(sort_by(s, blob_order()).contains(s[j]));
    let u = sort_by(s, blob_order());
    let k = choose|k: int| 0 <= k < u.len() && u[k] == s[j];
    assert(u[k].0 == i);
}

proof fn lemma_sort_contains(s: Seq<Seq<char>>, x: Seq<char>)
    requires
        s.contains(x),
    ensures
        sort_by(s, text_order()).contains(x),
{
    let j = choose|j: int| 0 <= j < s.len() && s[j] == x;
    lemma_sort_keeps(s, text_order());
    assert(sort_by(s, text_order()).contains(s[j]));
}

/// The writer's tables for `v` hold everything `v` refers to.
pub proof fn lemma_layout_covers(v: ValueView)
    ensures
        covers(layout_of(v), v),
{
    reveal(layout_of);
    let rs = refs(v);
    let g = add_refs(no_tables(), rs);
    lemma_add_refs_has(no_tables(), rs);
    let l = layout_of(v);
    assert(l == sorted_tables(g));
    assert forall|j: int| 0 <= j < refs(v).len() implies #[trigger] in_tables(l, refs(v)[j]) by {
        assert(gathered_has(g, rs[j]));
        match rs[j] {
            Ref::Key(k) => lemma_sort_contains(g.keys, k),
            Ref::Str(s) => lemma_sort_contains(g.strings, s),
            Ref::Stream(i, _d) => lemma_sort_has_index(g.streams, i),
            Ref::BStream(i, _d) => lemma_sort_has_index(g.bstreams, i),
        }
    }
}

// ---- the header ----

/// The first `k` words, four little-endian bytes each.
pub open spec fn words_le(ws: Seq<nat>, k: nat) -> Seq<u8>
    decreases k,
{
    if k == 0 || k > ws.len() {
        Seq::empty()
    } else {
        words_le(ws, (k - 1) as nat) + le_bytes(ws[k - 1], 4)
    }
}

proof fn lemma_words_le_len(ws: Seq<nat>, k: nat)
    requires
        k <= ws.len(),
    ensures
        words_le(ws, k).len() == 4 * k,
    decreases k,
{
    if k > 0 {
        lemma_words_le_len(ws, (k - 1) as nat);
        lemma_le_bytes_len(ws[k - 1], 4);
    }
}

/// Words written four bytes each read back as they were.
proof fn lemma_read_words(pre: Seq<u8>, ws: Seq<nat>, k: nat, post: Seq<u8>)
    requires
        k <= ws.len(),
        forall|i: int| 0 <= i < ws.len() ==> #[trigger] ws[i] < 0x1_0000_0000,
    ensures
        read_u32s(pre + words_le(ws, k) + post, pre.len() as int, k) == Ok::<(Seq<nat>, int), crate::psb::Error>(
            (ws.take(k as int), (pre.len() + 4 * k) as int),
        ),
    decreases k,
{
    if k > 0 {
        let w = ws[k - 1];
        let a = words_le(ws, (k - 1) as nat);
        let rest = le_bytes(w, 4) + post;
        let d = pre + words_le(ws, k) + post;
        assert(d =~= pre + a + rest);
        lemma_read_words(pre, ws, (k - 1) as nat, rest);
        lemma_words_le_len(ws, (k - 1) as nat);
        lemma_le_bytes_len(w, 4);
        assert(d =~= (pre + a) + le_bytes(w, 4) + post);
        lemma_le_uint_le_bytes(pre + a, w, 4, post);
        lemma_pow256_small();
        lemma_mod_small(w, 4);
        assert(ws.take(k - 1).push(w) =~= ws.take(k as int));
    } else {
        assert(ws.take(0) =~= Seq::<nat>::empty());
    }
}

/// The eleven offsets a header records, in file order.
pub open spec fn header_offsets(o: Offsets) -> Seq<nat> {
    seq![
        o.keys,
        o.keys,
        o.str_offs,
        o.str_blob,
        o.streams,
        o.stream_sizes,
        o.stream_blob,
        o.root,
        o.bstreams,
        o.bstream_sizes,
        o.bstream_blob,
    ]
}

/// Magic, version and zero flags.
pub open spec fn file_start(version: u16) -> Seq<u8> {
    seq![0x50u8, 0x53u8, 0x42u8, 0x00u8] + le_bytes(version as nat, 2) + seq![0u8, 0u8]
}

/// A header the writer wrote reads back with its version and offsets.
proof fn lemma_read_header(version: u16, o: Offsets, post: Seq<u8>)
    requires
        forall|i: int| 0 <= i < 11 ==> #[trigger] header_offsets(o)[i] < 0x1_0000_0000,
        version < 4 ==> o.bstreams == 0 && o.bstream_sizes == 0 && o.bstream_blob == 0,
    ensures
        header_image(version, o).len() == 4 * header_words(version),
        read_header(file_start(version) + header_image(version, o) + post) == Ok::<Header, crate::psb::Error>(
            Header { version: version as nat, flags: 0, offsets: header_offsets(o) },
        ),
{
    reveal(header_image);
    reveal_with_fuel(words_le, 9);
    lemma_pow256_small();
    let ws = header_offsets(o);
    let mw = seq![o.keys, o.keys, o.str_offs, o.str_blob, o.streams, o.stream_sizes, o.stream_blob, o.root];
    let ew = seq![o.bstreams, o.bstream_sizes, o.bstream_blob];
    assert(ws =~= mw + ew);
    assert forall|i: int| 0 <= i < 8 implies #[trigger] mw[i] < 0x1_0000_0000 by {
        assert(mw[i] == ws[i]);
    }
    assert forall|i: int| 0 <= i < 3 implies #[trigger] ew[i] < 0x1_0000_0000 by {
        assert(ew[i] == ws[i + 8]);
    }
    let main = le_bytes(o.keys, 4) + le_bytes(o.keys, 4) + le_bytes(o.str_offs, 4) + le_bytes(o.str_blob, 4)
        + le_bytes(o.streams, 4) + le_bytes(o.stream_sizes, 4) + le_bytes(o.stream_blob, 4) + le_bytes(
        o.root,
        4,
    );
    let extra = le_bytes(o.bstreams, 4) + le_bytes(o.bstream_sizes, 4) + le_bytes(o.bstream_blob, 4);
    assert(main =~= words_le(mw, 8));
    assert(extra =~= words_le(ew, 3));
    lemma_words_le_len(mw, 8);
    lemma_words_le_len(ew, 3);
    let chk = le_bytes(adler32_spec(main + extra), 4);
    let chk3 = le_bytes(adler32_spec(main), 4);
    lemma_le_bytes_len(adler32_spec(main + extra), 4);
    lemma_le_bytes_len(adler32_spec(main), 4);
    let hi = header_image(version, o);
    let st = file_start(version);
    let d = st + hi + post;
    let m4 = seq![0x50u8, 0x53u8, 0x42u8, 0x00u8];
    lemma_le_bytes_len(version as nat, 2);
    assert(st.len() == 8);
    // magic
    assert(d.subrange(0, 4) =~= MAGIC@) by {
        assert(d[0] == 0x50u8);
        assert(d[1] == 0x53u8);
        assert(d[2] == 0x42u8);
        assert(d[3] == 0x00u8);
        assert(MAGIC@ =~= m4);
    }
    // version and flags
    assert(d =~= m4 + le_bytes(version as nat, 2) + (seq![0u8, 0u8] + hi + post));
    lemma_le_uint_le_bytes(m4, version as nat, 2, seq![0u8, 0u8] + hi + post);
    lemma_mod_small(version as nat, 2);
    reveal_with_fuel(le_bytes, 3);
    assert(le_bytes(0, 2) =~= seq![0u8, 0u8]);
    assert(d =~= (m4 + le_bytes(version as nat, 2)) + le_bytes(0, 2) + (hi + post));
    lemma_le_uint_le_bytes(m4 + le_bytes(version as nat, 2), 0, 2, hi + post);
    // the eight offsets
    let tail = if version >= 4 {
        chk + extra
    } else if version >= 3 {
        chk3
    } else {
        Seq::empty()
    };
    assert(hi =~= main + tail);
    assert(d =~= st + words_le(mw, 8) + (tail + post));
    lemma_read_words(st, mw, 8, tail + post);
    assert(mw.take(8) =~= mw);
    if version >= 4 {
        assert(d =~= (st + words_le(mw, 8) + chk) + words_le(ew, 3) + post);
        lemma_read_words(st + words_le(mw, 8) + chk, ew, 3, post);
        assert(ew.take(3) =~= ew);
    } else {
        assert(ew =~= seq![0nat, 0nat, 0nat]);
    }
}

// ---- the tables ----

/// `e` stands in `d` at position `p`.
pub open spec fn sub_at(d: Seq<u8>, p: int, e: Seq<u8>) -> bool {
    &&& 0 <= p
    &&& p + e.len() <= d.len()
    &&& d.subrange(p, p + e.len()) == e
}

proof fn lemma_sub_parts(x: Seq<u8>, y: Seq<u8>)
    ensures
        sub_at(x + y, x.len() as int, y),
{
    assert((x + y).subrange(x.len() as int, (x.len() + y.len()) as int) =~= y);
}

proof fn lemma_sub_split(d: Seq<u8>, p: int, x: Seq<u8>, y: Seq<u8>)
    requires
        sub_at(d, p, x + y),
    ensures
        sub_at(d, p, x),
        sub_at(d, p + x.len(), y),
{
    assert forall|i: int| 0 <= i < x.len() implies d.subrange(p, p + x.len())[i] == x[i] by {
        assert(d.subrange(p, p + x.len() + y.len())[i] == (x + y)[i]);
    }
    assert(d.subrange(p, p + x.len()) =~= x);
    assert forall|i: int| 0 <= i < y.len() implies d.subrange(p + x.len(), p + x.len() + y.len())[i] == y[i] by {
        assert(d.subrange(p, p + x.len() + y.len())[x.len() + i] == (x + y)[x.len() + i]);
    }
    assert(d.subrange(p + x.len(), p + x.len() + y.len()) =~= y);
}

/// `d` cut around the piece at `p`.
proof fn lemma_cut(d: Seq<u8>, p: int, e: Seq<u8>)
    requires
        sub_at(d, p, e),
    ensures
        d == d.take(p) + e + d.skip(p + e.len()),
        d.take(p).len() == p,
{
    assert(d =~= d.take(p) + e + d.skip(p + e.len())) by {
        assert forall|i: int| p <= i < p + e.len() implies d[i] == e[i - p] by {
            assert(d.subrange(p, p + e.len())[i - p] == d[i]);
        }
    }
}

/// A word array in `d` at `p` reads back as written.
proof fn lemma_array_at(d: Seq<u8>, p: int, s: Seq<u64>)
    requires
        sub_at(d, p, enc_uint_array(s)),
        words_fit(s),
    ensures
        read_uint_array(d, p) == Ok::<(Seq<u64>, int), crate::psb::Error>((s, p + enc_uint_array(s).len())),
{
    lemma_cut(d, p, enc_uint_array(s));
    lemma_uint_array_roundtrip(d.take(p), s, d.skip(p + enc_uint_array(s).len()));
}

proof fn lemma_enc_uint_array_len(s: Seq<u64>)
    ensures
        enc_uint_array(s).len() >= s.len(),
{
    if s.len() > 0 {
        let w = byte_width(seq_max(s));
        lemma_enc_elems_len(s, w);
        assert(s.len() * w >= s.len()) by (nonlinear_arith)
            requires
                w >= 1,
        ;
    }
}

proof fn lemma_string_table_len(strings: Seq<Seq<char>>, k: nat)
    requires
        k <= strings.len(),
    ensures
        string_table(strings, k).1.len() >= k,
    decreases k,
{
    if k > 0 {
        lemma_string_table_len(strings, (k - 1) as nat);
    }
}

/// Texts without NUL characters.
pub open spec fn texts_without_nul(ss: Seq<Seq<char>>) -> bool {
    forall|i: int, k: int| 0 <= i < ss.len() && 0 <= k < ss[i].len() ==> #[trigger] ss[i][k] as u32 != 0
}

/// The string table the writer laid out reads back as the texts it holds.
proof fn lemma_read_strings(d: Seq<u8>, p: int, q: int, strings: Seq<Seq<char>>)
    requires
        sub_at(d, p, enc_uint_array(string_table(strings, strings.len()).0)),
        sub_at(d, q, string_table(strings, strings.len()).1),
        d.len() < 0x1_0000_0000,
        texts_without_nul(strings),
    ensures
        read_cstr_table(d, p, q) == Ok::<(Seq<Seq<char>>, int), crate::psb::Error>(
            (
                Seq::new(strings.len(), |i: int| lossy_text(strings[i])),
                p + enc_uint_array(string_table(strings, strings.len()).0).len(),
            ),
        ),
        cstr_table_defined(d, p, q),
{
    let n = strings.len();
    let (so, sb) = string_table(strings, n);
    lemma_string_table_prefix(strings, n, n);
    lemma_string_table_len(strings, n);
    assert forall|i: int| 0 <= i < so.len() implies #[trigger] so[i] < 0x1_0000_0000 by {
        lemma_string_table_prefix(strings, i as nat, n);
    }
    lemma_array_at(d, p, so);
    let got = cstr_list(d, q, so);
    assert forall|i: int| 0 <= i < n implies #[trigger] got[i] == lossy_text(strings[i]) by {
        lemma_string_table_prefix(strings, i as nat, n);
        let bi = string_table(strings, i as nat).1.len() as int;
        let e = encode_utf8(strings[i]);
        let start = q + so[i];
        assert(start == q + bi);
        assert forall|k: int| 0 <= k < e.len() implies d[start + k] == e[k] by {
            assert(d.subrange(q, q + sb.len())[bi + k] == sb[bi + k]);
            assert(sb.subrange(bi, bi + e.len())[k] == sb[bi + k]);
        }
        assert(d.subrange(q, q + sb.len())[bi + e.len()] == sb[bi + e.len()]);
        assert(d[start + e.len()] == 0);
        assert(forall|k: int| 0 <= k < strings[i].len() ==> #[trigger] strings[i][k] as u32 != 0);
        lemma_utf8_no_zero(strings[i]);
        assert forall|k: int| start <= k < start + e.len() implies d[k] != 0 by {
            assert(d[start + (k - start)] == e[k - start]);
        }
        lemma_cstr_end(d, start, e.len());
        assert(d.subrange(start, cstr_end(d, start)) =~= e);
    }
    assert(got =~= Seq::new(n, |i: int| lossy_text(strings[i])));
    assert forall|i: int| 0 <= i < so.len() implies q + #[trigger] so[i] <= d.len() by {
        lemma_string_table_prefix(strings, i as nat, n);
    }
}

/// The blobs of a blob table stand in `d` one after the other.
proof fn lemma_stream_list(d: Seq<u8>, at: int, s: Seq<(u32, Seq<u8>)>, k: nat)
    requires
        k <= s.len(),
        sub_at(d, at, blob_table(s, s.len()).2),
        d.len() < 0x1_0000_0000,
    ensures
        stream_list(d, at, blob_table(s, s.len()).0, blob_table(s, s.len()).1, k) == Ok::<
            Seq<Seq<u8>>,
            crate::psb::Error,
        >(Seq::new(k, |i: int| s[i].1)),
    decreases k,
{
    let n = s.len();
    let (o, z, b) = blob_table(s, n);
    if k > 0 {
        lemma_stream_list(d, at, s, (k - 1) as nat);
        lemma_blob_table_prefix(s, (k - 1) as nat, n);
        let bk = blob_table(s, (k - 1) as nat).2.len() as int;
        let dk = s[k - 1].1;
        assert(o[k - 1] == bk);
        assert(z[k - 1] == dk.len());
        assert forall|m: int| 0 <= m < dk.len() implies d.subrange(at + bk, at + bk + dk.len())[m] == dk[m] by {
            assert(d.subrange(at, at + b.len())[bk + m] == b[bk + m]);
            assert(b.subrange(bk, bk + dk.len())[m] == b[bk + m]);
        }
        assert(d.subrange(at + bk, at + bk + dk.len()) =~= dk);
        assert(Seq::new((k - 1) as nat, |i: int| s[i].1).push(dk) =~= Seq::new(k, |i: int| s[i].1));
    } else {
        assert(Seq::new(0, |i: int| s[i].1) =~= Seq::<Seq<u8>>::empty());
    }
}

/// A blob section the writer laid out at `at` reads back as its blobs.
proof fn lemma_read_blobs(d: Seq<u8>, at: int, s: Seq<(u32, Seq<u8>)>)
    requires
        at >= 0,
        sub_at(d, at, blob_section(s, at as nat).0),
        d.len() < 0x1_0000_0000,
    ensures
        s.len() < 0x1_0000_0000,
        at <= blob_section(s, at as nat).1 <= d.len(),
        at <= blob_section(s, at as nat).2 <= d.len(),
        read_stream_table(d, at, blob_section(s, at as nat).1 as int, blob_section(s, at as nat).2 as int) == Ok::<
            Seq<Seq<u8>>,
            crate::psb::Error,
        >(Seq::new(s.len(), |i: int| s[i].1)),
{
    let n = s.len();
    let (o, z, b) = blob_table(s, n);
    let (sec, sizes_at, blob_at) = blob_section(s, at as nat);
    let pad_at = sizes_at + enc_uint_array(z).len();
    lemma_pad(pad_at, 32);
    let pad = zeros((blob_at - pad_at) as nat);
    assert(sec == enc_uint_array(o) + enc_uint_array(z) + pad + b);
    lemma_sub_split(d, at, enc_uint_array(o) + enc_uint_array(z) + pad, b);
    lemma_sub_split(d, at, enc_uint_array(o) + enc_uint_array(z), pad);
    lemma_sub_split(d, at, enc_uint_array(o), enc_uint_array(z));
    lemma_blob_table_prefix(s, n, n);
    lemma_enc_uint_array_len(o);
    assert forall|i: int| 0 <= i < n implies #[trigger] o[i] < 0x1_0000_0000 by {
        lemma_blob_table_prefix(s, i as nat, n);
    }
    assert forall|i: int| 0 <= i < n implies #[trigger] z[i] < 0x1_0000_0000 by {
        lemma_blob_table_prefix(s, i as nat, n);
    }
    assert(words_fit(o));
    assert(words_fit(z));
    lemma_array_at(d, at, o);
    lemma_array_at(d, sizes_at as int, z);
    lemma_stream_list(d, blob_at as int, s, n);
}

/// The key-name trie the writer laid out at `p` reads back as the names it spells.
proof fn lemma_read_keys(d: Seq<u8>, p: int, t: TrieArrays, keys: Seq<Seq<char>>, kb: Seq<Seq<u8>>)
    requires
        sub_at(d, p, enc_uint_array(t.value_offsets) + enc_uint_array(t.tree) + enc_uint_array(t.tails)),
        trie_words_fit(t),
        kb.len() == keys.len(),
        forall|j: int| 0 <= j < kb.len() ==> #[trigger] kb[j] == encode_utf8(keys[j]),
        spells(t, kb),
    ensures
        read_trie_names(d, p) matches Ok((names, _q)) && names == Seq::new(
            keys.len(),
            |i: int| lossy_text(keys[i]),
        ),
        trie_names_defined(d, p),
{
    let kv = enc_uint_array(t.value_offsets);
    let ktr = enc_uint_array(t.tree);
    let kta = enc_uint_array(t.tails);
    lemma_sub_split(d, p, kv + ktr, kta);
    lemma_sub_split(d, p, kv, ktr);
    lemma_array_at(d, p, t.value_offsets);
    lemma_array_at(d, p + kv.len(), t.tree);
    lemma_array_at(d, p + kv.len() + ktr.len(), t.tails);
    let names = Seq::new(t.tails.len(), |i: int| trie_name(t.value_offsets, t.tree, t.tails[i]));
    assert forall|j: int| 0 <= j < keys.len() implies #[trigger] names[j] == lossy_text(keys[j]) by {
        lemma_trie_names_read(t, kb, j);
        assert(kb[j] == encode_utf8(keys[j]));
    }
    assert(names =~= Seq::new(keys.len(), |i: int| lossy_text(keys[i])));
    lemma_spells_terminate(t, kb);
}

/// The parent chain of every name a trie spells reaches the root.
proof fn lemma_spells_terminate(t: TrieArrays, b: Seq<Seq<u8>>)
    requires
        spells(t, b),
    ensures
        chains_terminate(t.tree, t.tails),
{
    assert forall|i: int| 0 <= i < t.tails.len() implies chain_ends(t.tree, get_or0(t.tree, #[trigger] t.tails[i])) by {
        assert(spells_name(t, i, b[i]));
        let start = get_or0(t.tree, t.tails[i]);
        let k = choose|k: nat| chain_ok(t.tree, start, k) && chain_bytes(t.tree, t.value_offsets, start, k) == b[i];
        assert(chain_ok(t.tree, start, k));
    }
}

// ---- the whole file ----

proof fn lemma_header_len(version: u16, o: Offsets)
    ensures
        header_image(version, o).len() == 4 * header_words(version),
{
    reveal(header_image);
    lemma_le_bytes_len(o.keys, 4);
    lemma_le_bytes_len(o.str_offs, 4);
    lemma_le_bytes_len(o.str_blob, 4);
    lemma_le_bytes_len(o.streams, 4);
    lemma_le_bytes_len(o.stream_sizes, 4);
    lemma_le_bytes_len(o.stream_blob, 4);
    lemma_le_bytes_len(o.root, 4);
    lemma_le_bytes_len(o.bstreams, 4);
    lemma_le_bytes_len(o.bstream_sizes, 4);
    lemma_le_bytes_len(o.bstream_blob, 4);
    let main = le_bytes(o.keys, 4) + le_bytes(o.keys, 4) + le_bytes(o.str_offs, 4) + le_bytes(o.str_blob, 4)
        + le_bytes(o.streams, 4) + le_bytes(o.stream_sizes, 4) + le_bytes(o.stream_blob, 4) + le_bytes(
        o.root,
        4,
    );
    let extra = le_bytes(o.bstreams, 4) + le_bytes(o.bstream_sizes, 4) + le_bytes(o.bstream_blob, 4);
    lemma_le_bytes_len(adler32_spec(main + extra), 4);
    lemma_le_bytes_len(adler32_spec(main), 4);
}

/// Header length of a file at `version`.
pub open spec fn header_len(version: u16) -> nat {
    8 + 4 * header_words(version)
}

/// Where each section of the body starts.
pub open spec fn offsets_of(v: ValueView, version: u16, t: TrieArrays) -> Offsets {
    body_image(v, version, t, header_len(version)).1
}

/// Where the writer put each section of the file.
#[verifier::spinoff_prover]
#[verifier::rlimit(40)]
proof fn lemma_file_sections(v: ValueView, version: u16, t: TrieArrays)
    ensures
        ({
            let d = file_image(v, version, t);
            let l = layout_of(v);
            let o = offsets_of(v, version, t);
            &&& d == file_start(version) + header_image(version, o) + body_image(v, version, t, header_len(version)).0
            &&& o.keys == header_len(version)
            &&& sub_at(
                d,
                o.keys as int,
                enc_uint_array(t.value_offsets) + enc_uint_array(t.tree) + enc_uint_array(t.tails),
            )
            &&& sub_at(d, o.root as int, encode_token(v, l))
            &&& sub_at(d, o.str_offs as int, enc_uint_array(string_table(l.strings, l.strings.len()).0))
            &&& sub_at(d, o.str_blob as int, string_table(l.strings, l.strings.len()).1)
            &&& sub_at(d, o.streams as int, blob_section(l.streams, o.streams).0)
            &&& o.stream_sizes == blob_section(l.streams, o.streams).1
            &&& o.stream_blob == blob_section(l.streams, o.streams).2
            &&& version >= 4 ==> sub_at(d, o.bstreams as int, blob_section(l.bstreams, o.bstreams).0)
                && o.bstream_sizes == blob_section(l.bstreams, o.bstreams).1 && o.bstream_blob == blob_section(
                l.bstreams,
                o.bstreams,
            ).2
            &&& version < 4 ==> o.bstreams == 0 && o.bstream_sizes == 0 && o.bstream_blob == 0
        }),
{
    let l = layout_of(v);
    let d = file_image(v, version, t);
    let hlen = header_len(version);
    let (body, o) = body_image(v, version, t, hlen);
    reveal(body_image);
    let kv = enc_uint_array(t.value_offsets);
    let ktr = enc_uint_array(t.tree);
    let kta = enc_uint_array(t.tails);
    let keys = kv + ktr + kta;
    let root = encode_token(v, l);
    let (soffs, sblob) = string_table(l.strings, l.strings.len());
    let eso = enc_uint_array(soffs);
    let root_at = hlen + keys.len();
    let str_offs_at = root_at + root.len();
    let str_blob_at = str_offs_at + eso.len();
    let after_strings = str_blob_at + sblob.len();
    let (bsec, bsizes_at, bblob_at) = blob_section(l.bstreams, after_strings);
    let bsection = if version >= 4 {
        bsec
    } else {
        Seq::empty()
    };
    let streams_at = after_strings + bsection.len();
    let (ssec, ssizes_at, sblob_at) = blob_section(l.streams, streams_at);
    assert(body == keys + root + eso + sblob + bsection + ssec);
    lemma_header_len(version, o);
    let st = file_start(version);
    let hi = header_image(version, o);
    lemma_le_bytes_len(version as nat, 2);
    assert(d =~= (st + hi) + body);
    lemma_sub_parts(st + hi, body);
    lemma_sub_split(d, hlen as int, keys + root + eso + sblob + bsection, ssec);
    lemma_sub_split(d, hlen as int, keys + root + eso + sblob, bsection);
    lemma_sub_split(d, hlen as int, keys + root + eso, sblob);
    lemma_sub_split(d, hlen as int, keys + root, eso);
    lemma_sub_split(d, hlen as int, keys, root);
    assert(d =~= st + hi + body);
}

/// The tables of a file the writer wrote read back as the writer's tables,
/// and reading them stays within the file.
#[verifier::spinoff_prover]
#[verifier::rlimit(80)]
proof fn lemma_file_tables(v: ValueView, version: u16, t: TrieArrays)
    requires
        trie_words_fit(t),
        spells(t, key_bytes(v)),
        file_image(v, version, t).len() < 0x1_0000_0000,
        texts_without_nul(layout_of(v).strings),
        version >= 4 || layout_of(v).bstreams.len() == 0,
        version != 1,
    ensures
        ({
            let d = file_image(v, version, t);
            let o = offsets_of(v, version, t);
            let h = Header { version: version as nat, flags: 0, offsets: header_offsets(o) };
            &&& forall|i: int| 0 <= i < 11 ==> #[trigger] header_offsets(o)[i] < 0x1_0000_0000
            &&& read_tables(d, h) matches Ok(tb) && tables_agree(tb, layout_of(v))
            &&& trie_names_defined(d, o.keys as int)
            &&& cstr_table_defined(d, o.str_offs as int, o.str_blob as int)
            &&& tables_small(layout_of(v))
            &&& sub_at(d, o.root as int, encode_token(v, layout_of(v)))
        }),
{
    let l = layout_of(v);
    let d = file_image(v, version, t);
    let o = offsets_of(v, version, t);
    lemma_file_sections(v, version, t);
    lemma_read_blobs(d, o.streams as int, l.streams);
    if version >= 4 {
        lemma_read_blobs(d, o.bstreams as int, l.bstreams);
    }
    let kb = key_bytes(v);
    lemma_read_keys(d, o.keys as int, t, l.keys, kb);
    lemma_string_table_len(l.strings, l.strings.len());
    lemma_read_strings(d, o.str_offs as int, o.str_blob as int, l.strings);
    let tb = Tables {
        keys: Seq::new(l.keys.len(), |i: int| lossy_text(l.keys[i])),
        strings: Seq::new(l.strings.len(), |i: int| lossy_text(l.strings[i])),
        streams: Seq::new(l.streams.len(), |i: int| l.streams[i].1),
        bstreams: if version >= 4 {
            Seq::new(l.bstreams.len(), |i: int| l.bstreams[i].1)
        } else {
            Seq::empty()
        },
    };
    assert(tables_agree(tb, l));
    assert(tables_small(l));
    assert forall|i: int| 0 <= i < 11 implies #[trigger] header_offsets(o)[i] < 0x1_0000_0000 by {
        assert(header_offsets(o)[i] <= d.len());
    }
    let h = Header { version: version as nat, flags: 0, offsets: header_offsets(o) };
    assert(read_tables(d, h) == Ok::<Tables, crate::psb::Error>(tb));
}

/// The header of a file the writer wrote reads back with its version and offsets.
proof fn lemma_file_header(v: ValueView, version: u16, t: TrieArrays)
    requires
        forall|i: int| 0 <= i < 11 ==> #[trigger] header_offsets(offsets_of(v, version, t))[i] < 0x1_0000_0000,
    ensures
        read_header(file_image(v, version, t)) == Ok::<Header, crate::psb::Error>(
            Header { version: version as nat, flags: 0, offsets: header_offsets(offsets_of(v, version, t)) },
        ),
{
    lemma_file_sections(v, version, t);
    lemma_read_header(version, offsets_of(v, version, t), body_image(v, version, t, header_len(version)).0);
}

/// A file the writer wrote reads back as `read_back` of its value: every
/// text as read back from its UTF-8 bytes, object entries in key order, blobs
/// renumbered by their position in the writer's tables. The reader can read
/// it (it stays within the file and does not loop).
///
/// It holds for every format version but 1 (whose key table the reader takes
/// as a string table, where the writer always writes a trie), for files
/// under 4 GiB (the header holds 32-bit offsets), for key names that a trie
/// can hold and string values without NUL characters (the tables mark the
/// end of a name or a string with a zero byte), and with bstreams only from
/// version 4 on (earlier headers have no bstream table).
#[verifier::spinoff_prover]
pub proof fn lemma_write_then_read(bytes: Seq<u8>, v: ValueView, version: u16, t: TrieArrays)
    requires
        written(bytes, v, version, t),
        version != 1,
        bytes.len() < 0x1_0000_0000,
        trie_ready(key_bytes(v)),
        texts_without_nul(layout_of(v).strings),
        version >= 4 || layout_of(v).bstreams.len() == 0,
    ensures
        file_readable(bytes),
        read_file(bytes) == Ok::<ValueView, crate::psb::Error>(read_back(v, layout_of(v))),
{
    lemma_file_tables(v, version, t);
    lemma_file_header(v, version, t);
    let l = layout_of(v);
    let o = offsets_of(v, version, t);
    let h = Header { version: version as nat, flags: 0, offsets: header_offsets(o) };
    assert(h.offsets[1] == o.keys);
    assert(h.offsets[2] == o.str_offs);
    assert(h.offsets[3] == o.str_blob);
    assert(h.offsets[7] == o.root);
    let tb = read_tables(bytes, h)->Ok_0;
    let root = encode_token(v, l);
    lemma_layout_covers(v);
    lemma_cut(bytes, o.root as int, root);
    lemma_token_roundtrip(bytes.take(o.root as int), v, bytes.skip((o.root + root.len()) as int), l, tb);
}

} // verus!
