//! The title-select cover sheet of a pack: the stock motion template with
//! one texture per cover appended, the `front` and `sg` image tracks
//! rebuilt to show them in menu order, and the stock atlases the remaining
//! motions use compacted.
use vstd::prelude::*;
use vstd::string::StrSliceExecFns;
use vstd::string::StringExecFns;
use crate::atlas::{compact_stock_atlases, compacted, copy_entries, entry_of, lookup, tex_index, tex_number};
use crate::library::cover_geometry;
use crate::psb::value::{
    Stream, Value, ValueView, find_key, insert_entry, lemma_find_key, lemma_view_entries_len,
    lemma_view_values_len, object_insert, view_entries, view_values,
};
use crate::publish::{CoverEntry, Error, Failure, failed_as, written_or_refused};
use crate::psb::format::{file_readable, read_file, read_result};
use crate::psb::reader::read;
use crate::psb::writer::keys_fit;
use crate::psb::value::{lemma_view_entries_push, lemma_view_values_push};
use crate::saves::{padded, padded_text};

verus! {

/// Most games a lineup shows.
pub const LINEUPMAX: i64 = 50;

// ---- what the template already holds ----

/// The highest `tex#<n>` number among the first `k` sources, -1 when none.
pub open spec fn max_tex_of(source: Seq<(Seq<char>, ValueView)>, k: nat) -> int
    decreases k,
{
    if k == 0 || k > source.len() {
        -1
    } else {
        let m = max_tex_of(source, (k - 1) as nat);
        match tex_number(source[k - 1].0) {
            Some(i) => if i > m {
                i
            } else {
                m
            },
            None => m,
        }
    }
}

/// The stream index of a texture's pixels, if it has a pixel stream.
pub open spec fn pixel_index_of(v: ValueView) -> Option<u32> {
    match v {
        ValueView::Object(es) => match entry_of(es, "texture"@) {
            Some(ValueView::Object(te)) => match entry_of(te, "pixel"@) {
                Some(ValueView::Stream(i, _)) => Some(i),
                _ => None,
            },
            _ => None,
        },
        _ => None,
    }
}

/// The highest pixel stream index among the first `k` sources, each read
/// as an `i32`, -1 when none.
pub open spec fn max_stream_of(source: Seq<(Seq<char>, ValueView)>, k: nat) -> int
    decreases k,
{
    if k == 0 || k > source.len() {
        -1
    } else {
        let m = max_stream_of(source, (k - 1) as nat);
        match pixel_index_of(source[k - 1].1) {
            Some(i) => if (i as i32) > m {
                i as i32 as int
            } else {
                m
            },
            None => m,
        }
    }
}

pub open spec fn missing_object(key: Seq<char>) -> Seq<char> {
    "title_select template: missing or non-object field '"@ + key + "'"@
}

pub open spec fn root_not_object() -> Seq<char> {
    "title_select template: expected object at root"@
}

/// The highest texture number and stream index the template uses, the
/// stream index 0 when none.
pub open spec fn scan_of(tree: ValueView) -> Result<(int, nat), Failure> {
    match tree {
        ValueView::Object(root) => match entry_of(root, "source"@) {
            Some(ValueView::Object(src)) => {
                let s = max_stream_of(src, src.len());
                Ok((max_tex_of(src, src.len()), if s < 0 {
                    0
                } else {
                    s as nat
                }))
            },
            _ => Err(Failure::Template(missing_object("source"@))),
        },
        _ => Err(Failure::Template(root_not_object())),
    }
}

// ---- what is added ----

/// An object built by inserting `entries` one by one.
pub open spec fn object_of(entries: Seq<(Seq<char>, ValueView)>) -> Seq<(Seq<char>, ValueView)>
    decreases entries.len(),
{
    if entries.len() == 0 {
        Seq::empty()
    } else {
        insert_entry(object_of(entries.drop_last()), entries.last().0, entries.last().1)
    }
}

/// The source entry of a cover: one icon `0001` with the declared
/// geometry, and an RGBA8 texture of the decoded image.
pub open spec fn cover_source(decl: (u32, u32, u32, u32), w: u32, h: u32, stream: u32, rgba: Seq<u8>) -> ValueView {
    let icon = object_of(
        seq![
            ("attr"@, ValueView::Int(2)),
            ("left"@, ValueView::Int(0)),
            ("top"@, ValueView::Int(0)),
            ("width"@, ValueView::Int(decl.0 as i64)),
            ("height"@, ValueView::Int(decl.1 as i64)),
            ("originX"@, ValueView::Int(decl.2 as i64)),
            ("originY"@, ValueView::Int(decl.3 as i64)),
            ("metadata"@, ValueView::Null),
        ],
    );
    let texture = object_of(
        seq![
            ("ast"@, ValueView::Int(0)),
            ("width"@, ValueView::Int(w as i64)),
            ("height"@, ValueView::Int(h as i64)),
            ("truncated_width"@, ValueView::Int(w as i64)),
            ("truncated_height"@, ValueView::Int(h as i64)),
            ("type"@, ValueView::Str("RGBA8"@)),
            ("pixel"@, ValueView::Stream(stream, rgba)),
        ],
    );
    ValueView::Object(
        object_of(
            seq![
                ("icon"@, ValueView::Object(object_of(seq![("0001"@, ValueView::Object(icon))]))),
                ("metadata"@, ValueView::Null),
                ("texture"@, ValueView::Object(texture)),
                ("type"@, ValueView::Int(0)),
            ],
        ),
    )
}

/// The frame showing texture `tex` at time `time`.
pub open spec fn cover_frame(time: i64, tex: Seq<char>) -> ValueView {
    let content = object_of(
        seq![("icon"@, ValueView::Str("0001"@)), ("src"@, ValueView::Str(tex)), ("mask"@, ValueView::Int(0))],
    );
    ValueView::Object(
        object_of(
            seq![("time"@, ValueView::Int(time)), ("type"@, ValueView::Int(2)), ("content"@, ValueView::Object(content))],
        ),
    )
}

/// The frame that ends a track at `time`.
pub open spec fn end_frame(time: i64) -> ValueView {
    ValueView::Object(object_of(seq![("time"@, ValueView::Int(time)), ("type"@, ValueView::Int(0))]))
}

/// The name of texture number `n`: `tex#` and at least three digits.
pub open spec fn tex_name(n: nat) -> Seq<char> {
    "tex#"@ + padded(n, 3)
}

/// When the track ends: two frames past the lineup's maximum, or past the
/// covers when there are more.
pub open spec fn last_time_of(n: nat) -> int {
    if n + 2 > LINEUPMAX + 2 {
        (n + 2) as int
    } else {
        LINEUPMAX + 2
    }
}

// ---- splicing into the template ----

/// `es` with the entry under `k` (which exists) given value `v`.
pub open spec fn replaced(es: Seq<(Seq<char>, ValueView)>, k: Seq<char>, v: ValueView) -> Seq<
    (Seq<char>, ValueView),
> {
    es.update(find_key(es, k), (k, v))
}

pub open spec fn missing_array(key: Seq<char>) -> Seq<char> {
    "title_select template: missing or non-array field '"@ + key + "'"@
}

/// `items` with `(key, v)` inserted into element `i` when that element is
/// an object; unchanged otherwise.
pub open spec fn elem_insert(items: Seq<ValueView>, i: int, key: Seq<char>, v: ValueView) -> Seq<ValueView> {
    if 0 <= i < items.len() && items[i] is Object {
        items.update(i, ValueView::Object(insert_entry(items[i]->Object_0, key, v)))
    } else {
        items
    }
}

/// `m` with `(key, v)` inserted into element `i` of its array `field`, when
/// it has one.
pub open spec fn field_insert(
    m: Seq<(Seq<char>, ValueView)>,
    field: Seq<char>,
    i: int,
    key: Seq<char>,
    v: ValueView,
) -> Seq<(Seq<char>, ValueView)> {
    match entry_of(m, field) {
        Some(ValueView::Array(items)) => replaced(m, field, ValueView::Array(elem_insert(items, i, key, v))),
        _ => m,
    }
}

/// An image track with its frames replaced by `frames`, ending at `last`:
/// `lastTime`, the range of its first parameter and the time of its second
/// priority key follow, and the first layer's frame list is `frames`.
pub open spec fn retracked(m: Seq<(Seq<char>, ValueView)>, frames: Seq<ValueView>, last: i64) -> Result<
    Seq<(Seq<char>, ValueView)>,
    Failure,
> {
    let m1 = insert_entry(m, "lastTime"@, ValueView::Int(last));
    let m2 = field_insert(m1, "parameter"@, 0, "division"@, ValueView::Int((last - 1) as i64));
    let m3 = field_insert(m2, "parameter"@, 0, "rangeEnd"@, ValueView::Int((last - 1) as i64));
    let m4 = field_insert(m3, "priority"@, 1, "time"@, ValueView::Int(last));
    match entry_of(m4, "layer"@) {
        Some(ValueView::Array(layers)) => if layers.len() > 0 && layers[0] is Object {
            Ok(field_insert(m4, "layer"@, 0, "frameList"@, ValueView::Array(frames)))
        } else {
            Err(Failure::Template("title_select template: image motion layer[0] missing or not an object"@))
        },
        _ => Err(Failure::Template(missing_array("layer"@))),
    }
}

/// The `sg` track made from the rebuilt `front` track when the template has
/// none: only its first layer, that layer alone in the index map, and a
/// priority that shows it until `last`.
pub open spec fn sg_from_front(front: Seq<(Seq<char>, ValueView)>, last: i64) -> Result<
    Seq<(Seq<char>, ValueView)>,
    Failure,
> {
    match entry_of(front, "layer"@) {
        Some(ValueView::Array(layers)) => {
            let one = layers.take(1);
            let sg = replaced(front, "layer"@, ValueView::Array(one));
            match one[0] {
                ValueView::Object(l0) => match entry_of(l0, "label"@) {
                    Some(ValueView::Str(label)) => {
                        let map = ValueView::Object(object_of(seq![(label, ValueView::Int(0))]));
                        let first = ValueView::Object(
                            object_of(
                                seq![
                                    ("content"@, ValueView::Array(seq![ValueView::Int(0)])),
                                    ("time"@, ValueView::Int(0)),
                                    ("type"@, ValueView::Int(1)),
                                ],
                            ),
                        );
                        let second = ValueView::Object(
                            object_of(
                                seq![
                                    ("content"@, ValueView::Null),
                                    ("time"@, ValueView::Int(last)),
                                    ("type"@, ValueView::Int(1)),
                                ],
                            ),
                        );
                        Ok(
                            insert_entry(
                                insert_entry(sg, "layerIndexMap"@, map),
                                "priority"@,
                                ValueView::Array(seq![first, second]),
                            ),
                        )
                    },
                    _ => Err(Failure::Template("title_select: front layer label missing"@)),
                },
                _ => Err(Failure::Template("title_select template: expected object at front.layer[0]"@)),
            }
        },
        _ => Err(Failure::Template(missing_array("layer"@))),
    }
}

/// The motions with `front` and `sg` rebuilt to show `frames`.
pub open spec fn motions_of(motion: Seq<(Seq<char>, ValueView)>, frames: Seq<ValueView>, last: i64) -> Result<
    Seq<(Seq<char>, ValueView)>,
    Failure,
> {
    match entry_of(motion, "front"@) {
        Some(ValueView::Object(front)) => match retracked(front, frames, last) {
            Err(f) => Err(f),
            Ok(front2) => {
                let m1 = replaced(motion, "front"@, ValueView::Object(front2));
                let m2: Result<Seq<(Seq<char>, ValueView)>, Failure> = if entry_of(m1, "sg"@) is Some {
                    Ok(m1)
                } else {
                    match sg_from_front(front2, last) {
                        Err(f) => Err(f),
                        Ok(sg) => Ok(insert_entry(m1, "sg"@, ValueView::Object(sg))),
                    }
                };
                match m2 {
                    Err(f) => Err(f),
                    Ok(m2) => match entry_of(m2, "sg"@) {
                        Some(ValueView::Object(sg)) => match retracked(sg, frames, last) {
                            Err(f) => Err(f),
                            Ok(sg2) => Ok(replaced(m2, "sg"@, ValueView::Object(sg2))),
                        },
                        _ => Err(Failure::Template(missing_object("sg"@))),
                    },
                }
            },
        },
        _ => Err(Failure::Template(missing_object("front"@))),
    }
}

/// Adds `entries` to the sheet's sources, then rebuilds its cover tracks.
pub open spec fn spliced(
    tree: ValueView,
    entries: Seq<(Seq<char>, ValueView)>,
    frames: Seq<ValueView>,
    last: i64,
) -> Result<ValueView, Failure> {
    match tree {
        ValueView::Object(root) => match entry_of(root, "source"@) {
            Some(ValueView::Object(src)) => {
                let root1 = replaced(root, "source"@, ValueView::Object(object_of_onto(src, entries)));
                match entry_of(root1, "object"@) {
                    Some(ValueView::Object(object)) => match entry_of(object, "pkg"@) {
                        Some(ValueView::Object(pkg)) => match entry_of(pkg, "motion"@) {
                            Some(ValueView::Object(motion)) => match motions_of(motion, frames, last) {
                                Err(f) => Err(f),
                                Ok(m) => {
                                    let pkg2 = replaced(pkg, "motion"@, ValueView::Object(m));
                                    let object2 = replaced(object, "pkg"@, ValueView::Object(pkg2));
                                    Ok(ValueView::Object(replaced(root1, "object"@, ValueView::Object(object2))))
                                },
                            },
                            _ => Err(Failure::Template(missing_object("motion"@))),
                        },
                        _ => Err(Failure::Template(missing_object("pkg"@))),
                    },
                    _ => Err(Failure::Template(missing_object("object"@))),
                }
            },
            _ => Err(Failure::Template(missing_object("source"@))),
        },
        _ => Err(Failure::Template(root_not_object())),
    }
}

/// `es` after inserting `entries` one by one.
pub open spec fn object_of_onto(es: Seq<(Seq<char>, ValueView)>, entries: Seq<(Seq<char>, ValueView)>) -> Seq<
    (Seq<char>, ValueView),
>
    decreases entries.len(),
{
    if entries.len() == 0 {
        es
    } else {
        insert_entry(object_of_onto(es, entries.drop_last()), entries.last().0, entries.last().1)
    }
}

// ---- the whole sheet ----

/// A cover image decoded to RGBA8 pixels with its width and height, or the
/// decoder's message.
pub type Decoded = Result<(Seq<u8>, u32, u32), Seq<char>>;

/// Position of the first cover whose file is missing or does not decode,
/// from `k` on; -1 when every one decoded.
pub open spec fn first_failure(images: Seq<Option<Decoded>>, k: nat) -> int
    decreases images.len() - k,
{
    if k >= images.len() {
        -1
    } else if images[k as int] matches Some(Ok(_)) {
        first_failure(images, k + 1)
    } else {
        k as int
    }
}

/// Why cover `c` could not be used.
pub open spec fn cover_failure(c: CoverEntry, image: Option<Decoded>) -> Failure {
    match image {
        Some(Err(e)) => Failure::Library("failed to read "@ + c.cover_path@ + ": "@ + e),
        _ => Failure::Library("cover image missing for "@ + c.label@ + ": "@ + c.cover_path@),
    }
}

pub open spec fn decoded_image(image: Option<Decoded>) -> (Seq<u8>, u32, u32) {
    match image {
        Some(Ok(t)) => t,
        _ => (Seq::empty(), 0, 0),
    }
}

/// The sources added for the covers: texture numbers and stream indices
/// after the template's highest.
pub open spec fn cover_entries(games: Seq<CoverEntry>, images: Seq<Option<Decoded>>, mt: int, ms: nat) -> Seq<
    (Seq<char>, ValueView),
> {
    Seq::new(
        games.len(),
        |i: int|
            {
                let d = decoded_image(images[i]);
                (
                    tex_name((mt + 1 + i) as nat),
                    cover_source(cover_geometry(games[i].cover_size), d.1, d.2, (ms + 1 + i) as u32, d.0),
                )
            },
    )
}

/// The cover track: cover `i` shown at time `i`, then the end frame.
pub open spec fn cover_frames(n: nat, mt: int) -> Seq<ValueView> {
    Seq::new(n, |i: int| cover_frame(i as i64, tex_name((mt + 1 + i) as nat))).push(
        end_frame(last_time_of(n) as i64),
    )
}

/// The cover sheet for covers `games` whose files decoded to `images`
/// (none for a missing file), from the stock sheet `tree`.
pub open spec fn sheet_result(tree: ValueView, games: Seq<CoverEntry>, images: Seq<Option<Decoded>>) -> Result<
    ValueView,
    Failure,
> {
    match scan_of(tree) {
        Err(f) => Err(f),
        Ok((mt, ms)) => {
            let bad = first_failure(images, 0);
            if bad >= 0 {
                Err(cover_failure(games[bad], images[bad]))
            } else {
                match spliced(
                    tree,
                    cover_entries(games, images, mt, ms),
                    cover_frames(games.len(), mt),
                    last_time_of(games.len()) as i64,
                ) {
                    Err(f) => Err(f),
                    Ok(t) => Ok(compacted(t, (mt + 1) as i64)),
                }
            }
        },
    }
}

pub open spec fn image_view(x: Option<Result<CoverImage, String>>) -> Option<Decoded> {
    match x {
        None => None,
        Some(Ok(c)) => Some(Ok((c.rgba@, c.width, c.height))),
        Some(Err(e)) => Some(Err(e@)),
    }
}

pub open spec fn images_view(v: Seq<Option<Result<CoverImage, String>>>) -> Seq<Option<Decoded>> {
    v.map_values(|x: Option<Result<CoverImage, String>>| image_view(x))
}

fn max_indices(src: &Vec<(String, Value)>) -> (r: (i64, i32))
    ensures
        r.0 as int == max_tex_of(view_entries(src@), src@.len() as nat),
        r.1 as int == max_stream_of(view_entries(src@), src@.len() as nat),
{
    let ghost es = view_entries(src@);
    proof {
        lemma_view_entries_len(src@);
    }
    let mut mt: i64 = -1;
    let mut ms: i32 = -1;
    let mut i: usize = 0;
    while i < src.len()
        invariant
            i <= src@.len(),
            es == view_entries(src@),
            es.len() == src@.len(),
            forall|k: int| 0 <= k < src@.len() ==> #[trigger] es[k] == (src@[k].0@, src@[k].1@),
            mt as int == max_tex_of(es, i as nat),
            ms as int == max_stream_of(es, i as nat),
        decreases src@.len() - i,
    {
        match tex_index(&src[i].0) {
            Some(n) => {
                if n > mt {
                    mt = n;
                }
            },
            None => {},
        }
        match &src[i].1 {
            Value::Object(te) => match lookup(te, "texture") {
                Some(ti) => match &te[ti].1 {
                    Value::Object(tx) => match lookup(tx, "pixel") {
                        Some(pi) => match &tx[pi].1 {
                            Value::Stream(st) => {
                                let v = st.index as i32;
                                if v > ms {
                                    ms = v;
                                }
                            },
                            _ => {},
                        },
                        None => {},
                    },
                    _ => {},
                },
                None => {},
            },
            _ => {},
        }
        i = i + 1;
    }
    (mt, ms)
}

fn missing_object_text(key: &str) -> (r: String)
    ensures
        r@ == missing_object(key@),
{
    let mut m = String::from_str("title_select template: missing or non-object field '");
    m.append(key);
    m.append("'");
    m
}

fn missing_array_text(key: &str) -> (r: String)
    ensures
        r@ == missing_array(key@),
{
    let mut m = String::from_str("title_select template: missing or non-array field '");
    m.append(key);
    m.append("'");
    m
}

/// The template's highest texture number and stream index, as
/// [`scan_of`] says.
pub fn scan_indices(tree: &Value) -> (r: Result<(i64, u32), String>)
    ensures
        r matches Ok(p) ==> scan_of(tree@) == Ok::<(int, nat), Failure>((p.0 as int, p.1 as nat)),
        r matches Err(m) ==> scan_of(tree@) == Err::<(int, nat), Failure>(Failure::Template(m@)),
{
    let root = match tree {
        Value::Object(root) => root,
        _ => return Err(String::from_str("title_select template: expected object at root")),
    };
    let si = match lookup(root, "source") {
        Some(i) => i,
        None => return Err(missing_object_text("source")),
    };
    let src = match &root[si].1 {
        Value::Object(src) => src,
        _ => return Err(missing_object_text("source")),
    };
    proof {
        lemma_view_entries_len(src@);
    }
    let (mt, ms) = max_indices(src);
    Ok((mt, if ms < 0 {
        0
    } else {
        ms as u32
    }))
}

// ---- building the new values ----

fn kv(k: &str, v: Value) -> (r: (String, Value))
    ensures
        r.0@ == k@,
        r.1 == v,
{
    (String::from_str(k), v)
}

/// An object made by inserting `entries` in order.
fn build(entries: Vec<(String, Value)>) -> (r: Vec<(String, Value)>)
    ensures
        view_entries(r@) == object_of(view_entries(entries@)),
{
    let ghost all = entries@;
    let ghost ev = view_entries(all);
    proof {
        lemma_view_entries_len(all);
    }
    let n = entries.len();
    let mut rest = entries;
    let mut out: Vec<(String, Value)> = Vec::new();
    let mut i: usize = 0;
    assert(ev.take(0) =~= Seq::<(Seq<char>, ValueView)>::empty());
    assert(view_entries(out@) =~= Seq::<(Seq<char>, ValueView)>::empty());
    while i < n
        invariant
            i <= n,
            n == all.len(),
            ev == view_entries(all),
            ev.len() == all.len(),
            forall|k: int| 0 <= k < all.len() ==> #[trigger] ev[k] == (all[k].0@, all[k].1@),
            rest@ == all.skip(i as int),
            view_entries(out@) == object_of(ev.take(i as int)),
        decreases n - i,
    {
        let e = rest.remove(0);
        assert(e == all[i as int]);
        assert(rest@ =~= all.skip(i + 1));
        assert(ev.take(i + 1).drop_last() =~= ev.take(i as int));
        assert(ev.take(i + 1).last() == (e.0@, e.1@));
        object_insert(&mut out, e.0, e.1);
        i = i + 1;
    }
    assert(ev.take(n as int) =~= ev);
    out
}

fn cover_source_value(decl: (u32, u32, u32, u32), w: u32, h: u32, stream: u32, rgba: Vec<u8>) -> (r: Value)
    ensures
        r@ == cover_source(decl, w, h, stream, rgba@),
{
    proof {
        reveal_strlit("RGBA8");
    }
    let ghost rv = rgba@;
    let icon_entries = vec![
        kv("attr", Value::Int(2)),
        kv("left", Value::Int(0)),
        kv("top", Value::Int(0)),
        kv("width", Value::Int(decl.0 as i64)),
        kv("height", Value::Int(decl.1 as i64)),
        kv("originX", Value::Int(decl.2 as i64)),
        kv("originY", Value::Int(decl.3 as i64)),
        kv("metadata", Value::Null),
    ];
    proof {
        lemma_view_entries_len(icon_entries@);
    }
    assert(view_entries(icon_entries@) =~= seq![
        ("attr"@, ValueView::Int(2)),
        ("left"@, ValueView::Int(0)),
        ("top"@, ValueView::Int(0)),
        ("width"@, ValueView::Int(decl.0 as i64)),
        ("height"@, ValueView::Int(decl.1 as i64)),
        ("originX"@, ValueView::Int(decl.2 as i64)),
        ("originY"@, ValueView::Int(decl.3 as i64)),
        ("metadata"@, ValueView::Null),
    ]);
    let icon = build(icon_entries);
    let ghost iv = view_entries(icon@);
    let named = vec![kv("0001", Value::Object(icon))];
    proof {
        lemma_view_entries_len(named@);
    }
    assert(view_entries(named@) =~= seq![("0001"@, ValueView::Object(iv))]);
    let icons = build(named);
    let ghost isv = view_entries(icons@);
    let tex_entries = vec![
        kv("ast", Value::Int(0)),
        kv("width", Value::Int(w as i64)),
        kv("height", Value::Int(h as i64)),
        kv("truncated_width", Value::Int(w as i64)),
        kv("truncated_height", Value::Int(h as i64)),
        kv("type", Value::String(String::from_str("RGBA8"))),
        kv("pixel", Value::Stream(Stream { index: stream, data: rgba })),
    ];
    proof {
        lemma_view_entries_len(tex_entries@);
    }
    assert(view_entries(tex_entries@) =~= seq![
        ("ast"@, ValueView::Int(0)),
        ("width"@, ValueView::Int(w as i64)),
        ("height"@, ValueView::Int(h as i64)),
        ("truncated_width"@, ValueView::Int(w as i64)),
        ("truncated_height"@, ValueView::Int(h as i64)),
        ("type"@, ValueView::Str("RGBA8"@)),
        ("pixel"@, ValueView::Stream(stream, rv)),
    ]);
    let texture = build(tex_entries);
    let ghost tev = view_entries(texture@);
    let top = vec![
        kv("icon", Value::Object(icons)),
        kv("metadata", Value::Null),
        kv("texture", Value::Object(texture)),
        kv("type", Value::Int(0)),
    ];
    proof {
        lemma_view_entries_len(top@);
    }
    assert(view_entries(top@) =~= seq![
        ("icon"@, ValueView::Object(isv)),
        ("metadata"@, ValueView::Null),
        ("texture"@, ValueView::Object(tev)),
        ("type"@, ValueView::Int(0)),
    ]);
    Value::Object(build(top))
}

fn cover_frame_value(time: i64, tex: String) -> (r: Value)
    ensures
        r@ == cover_frame(time, tex@),
{
    let ghost tv = tex@;
    let content = vec![
        kv("icon", Value::String(String::from_str("0001"))),
        kv("src", Value::String(tex)),
        kv("mask", Value::Int(0)),
    ];
    proof {
        lemma_view_entries_len(content@);
    }
    assert(view_entries(content@) =~= seq![
        ("icon"@, ValueView::Str("0001"@)),
        ("src"@, ValueView::Str(tv)),
        ("mask"@, ValueView::Int(0)),
    ]);
    let c = build(content);
    let ghost cv = view_entries(c@);
    let frame = vec![kv("time", Value::Int(time)), kv("type", Value::Int(2)), kv("content", Value::Object(c))];
    proof {
        lemma_view_entries_len(frame@);
    }
    assert(view_entries(frame@) =~= seq![
        ("time"@, ValueView::Int(time)),
        ("type"@, ValueView::Int(2)),
        ("content"@, ValueView::Object(cv)),
    ]);
    Value::Object(build(frame))
}

fn end_frame_value(time: i64) -> (r: Value)
    ensures
        r@ == end_frame(time),
{
    let frame = vec![kv("time", Value::Int(time)), kv("type", Value::Int(0))];
    proof {
        lemma_view_entries_len(frame@);
    }
    assert(view_entries(frame@) =~= seq![("time"@, ValueView::Int(time)), ("type"@, ValueView::Int(0))]);
    Value::Object(build(frame))
}

// ---- rewriting tracks ----

fn element_insert(items: &mut Vec<Value>, i: usize, key: &str, val: Value)
    ensures
        view_values(final(items)@) == elem_insert(view_values(old(items)@), i as int, key@, val@),
{
    proof {
        lemma_view_values_len(items@);
    }
    if i < items.len() {
        let ghost before = items@;
        let e = items.remove(i);
        let e2 = match e {
            Value::Object(mut o) => {
                object_insert(&mut o, String::from_str(key), val);
                Value::Object(o)
            },
            other => other,
        };
        items.insert(i, e2);
        proof {
            lemma_view_values_len(items@);
            lemma_view_values_len(before);
            assert(view_values(items@) =~= elem_insert(view_values(before), i as int, key@, val@));
        }
    }
}

/// Takes the entry at `i` out of an object, to be put back by `restore`.
fn take_entry(m: &mut Vec<(String, Value)>, i: usize) -> (r: (String, Value))
    requires
        i < old(m)@.len(),
    ensures
        r == old(m)@[i as int],
        final(m)@ == old(m)@.remove(i as int),
{
    m.remove(i)
}

proof fn lemma_restore(before: Seq<(String, Value)>, i: int, k: String, v: Value)
    requires
        0 <= i < before.len(),
        before[i].0 == k,
        find_key(view_entries(before), k@) == i,
    ensures
        view_entries(before.remove(i).insert(i, (k, v))) == replaced(view_entries(before), k@, v@),
{
    lemma_view_entries_len(before);
    lemma_view_entries_len(before.remove(i).insert(i, (k, v)));
    assert(view_entries(before.remove(i).insert(i, (k, v))) =~= replaced(view_entries(before), k@, v@));
}

fn array_field_insert(m: &mut Vec<(String, Value)>, field: &str, i: usize, key: &str, val: Value)
    ensures
        view_entries(final(m)@) == field_insert(view_entries(old(m)@), field@, i as int, key@, val@),
{
    match lookup(m, field) {
        None => {},
        Some(at) => {
            let ghost before = m@;
            let (k, v) = take_entry(m, at);
            let v2 = match v {
                Value::Array(mut items) => {
                    element_insert(&mut items, i, key, val);
                    Value::Array(items)
                },
                other => other,
            };
            m.insert(at, (k, v2));
            proof {
                lemma_restore(before, at as int, k, v2);
                if !(before[at as int].1 is Array) {
                    lemma_view_entries_len(before);
                    assert(view_entries(m@) =~= view_entries(before));
                }
            }
        },
    }
}

/// Rebuilds an image track as [`retracked`] says.
fn retrack(m: Vec<(String, Value)>, frames: Vec<Value>, last: i64) -> (r: Result<Vec<(String, Value)>, String>)
    requires
        last >= 1,
    ensures
        r matches Ok(v) ==> retracked(view_entries(m@), view_values(frames@), last) == Ok::<
            Seq<(Seq<char>, ValueView)>,
            Failure,
        >(view_entries(v@)),
        r matches Err(e) ==> retracked(view_entries(m@), view_values(frames@), last) == Err::<
            Seq<(Seq<char>, ValueView)>,
            Failure,
        >(Failure::Template(e@)),
{
    let mut m = m;
    object_insert(&mut m, String::from_str("lastTime"), Value::Int(last));
    array_field_insert(&mut m, "parameter", 0, "division", Value::Int(last - 1));
    array_field_insert(&mut m, "parameter", 0, "rangeEnd", Value::Int(last - 1));
    array_field_insert(&mut m, "priority", 1, "time", Value::Int(last));
    match lookup(&m, "layer") {
        None => return Err(missing_array_text("layer")),
        Some(at) => {
            let ok = match &m[at].1 {
                Value::Array(layers) => {
                    proof {
                        lemma_view_values_len(layers@);
                    }
                    if layers.len() == 0 {
                        return Err(
                            String::from_str("title_select template: image motion layer[0] missing or not an object"),
                        );
                    }
                    match &layers[0] {
                        Value::Object(_) => true,
                        _ => false,
                    }
                },
                _ => return Err(missing_array_text("layer")),
            };
            if !ok {
                return Err(
                    String::from_str("title_select template: image motion layer[0] missing or not an object"),
                );
            }
        },
    }
    array_field_insert(&mut m, "layer", 0, "frameList", Value::Array(frames));
    Ok(m)
}

proof fn lemma_replaced_entry(es: Seq<(Seq<char>, ValueView)>, k: Seq<char>, v: ValueView, k2: Seq<char>)
    requires
        find_key(es, k) >= 0,
    ensures
        find_key(replaced(es, k, v), k2) == find_key(es, k2),
        entry_of(replaced(es, k, v), k2) == if k2 == k {
            Some(v)
        } else {
            entry_of(es, k2)
        },
    decreases es.len(),
{
    lemma_find_key(es, k);
    let r = replaced(es, k, v);
    lemma_find_key(es, k2);
    if es.last().0 == k {
        if k2 != k {
            assert(r.drop_last() =~= es.drop_last());
        }
    } else {
        lemma_replaced_entry(es.drop_last(), k, v, k2);
        assert(r.drop_last() =~= replaced(es.drop_last(), k, v));
        lemma_find_key(es.drop_last(), k2);
    }
    lemma_find_key(r, k2);
}

fn copy_values(vs: &Vec<Value>) -> (r: Vec<Value>)
    ensures
        view_values(r@) == view_values(vs@),
{
    proof {
        lemma_view_values_len(vs@);
    }
    let mut out: Vec<Value> = Vec::new();
    let mut i: usize = 0;
    while i < vs.len()
        invariant
            i <= vs@.len(),
            view_values(vs@).len() == vs@.len(),
            forall|k: int| 0 <= k < vs@.len() ==> #[trigger] view_values(vs@)[k] == vs@[k]@,
            out@.len() == i,
            forall|k: int| 0 <= k < i ==> #[trigger] out@[k]@ == vs@[k]@,
        decreases vs@.len() - i,
    {
        out.push(vs[i].duplicate());
        i = i + 1;
    }
    proof {
        lemma_view_values_len(out@);
        assert forall|k: int| 0 <= k < out@.len() implies #[trigger] view_values(out@)[k] == view_values(vs@)[k] by {
            assert(out@[k]@ == vs@[k]@);
        }
        assert(view_values(out@) =~= view_values(vs@));
    }
    out
}

/// The `sg` track made from a rebuilt `front`, as [`sg_from_front`] says.
fn sg_track(front: &Vec<(String, Value)>, last: i64) -> (r: Result<Vec<(String, Value)>, String>)
    requires
        entry_of(view_entries(front@), "layer"@) matches Some(ValueView::Array(l)) && l.len() > 0 && l[0] is Object,
    ensures
        r matches Ok(v) ==> sg_from_front(view_entries(front@), last) == Ok::<
            Seq<(Seq<char>, ValueView)>,
            Failure,
        >(view_entries(v@)),
        r matches Err(e) ==> sg_from_front(view_entries(front@), last) == Err::<
            Seq<(Seq<char>, ValueView)>,
            Failure,
        >(Failure::Template(e@)),
{
    let mut sg = copy_entries(front);
    let at = match lookup(&sg, "layer") {
        Some(at) => at,
        None => return Err(missing_array_text("layer")),
    };
    let ghost before = sg@;
    let (k, v) = take_entry(&mut sg, at);
    let mut layers = match v {
        Value::Array(l) => l,
        _ => return Err(missing_array_text("layer")),
    };
    let ghost lv = view_values(layers@);
    proof {
        lemma_view_values_len(layers@);
    }
    while layers.len() > 1
        invariant
            layers@.len() >= 1,
            view_values(layers@) == lv.take(layers@.len() as int),
            lv.len() >= layers@.len(),
        decreases layers@.len(),
    {
        let ghost b = layers@;
        layers.pop();
        proof {
            lemma_view_values_len(b);
            lemma_view_values_len(layers@);
            assert(view_values(layers@) =~= lv.take(layers@.len() as int));
        }
    }
    let ghost one = view_values(layers@);
    assert(one =~= lv.take(1));
    proof {
        lemma_view_values_len(layers@);
    }
    let label = match &layers[0] {
        Value::Object(l0) => match lookup(l0, "label") {
            Some(li) => match &l0[li].1 {
                Value::String(t) => t.clone(),
                _ => return Err(String::from_str("title_select: front layer label missing")),
            },
            None => return Err(String::from_str("title_select: front layer label missing")),
        },
        _ => return Err(String::from_str("title_select template: expected object at front.layer[0]")),
    };
    let v2 = Value::Array(layers);
    sg.insert(at, (k, v2));
    proof {
        lemma_restore(before, at as int, k, v2);
    }
    let ghost lb = label@;
    let map_entries = vec![(label, Value::Int(0))];
    proof {
        lemma_view_entries_len(map_entries@);
    }
    assert(view_entries(map_entries@) =~= seq![(lb, ValueView::Int(0))]);
    let map = build(map_entries);
    let zero = vec![Value::Int(0)];
    proof {
        lemma_view_values_len(zero@);
        assert(view_values(zero@) =~= seq![ValueView::Int(0)]);
    }
    let first_entries = vec![kv("content", Value::Array(zero)), kv("time", Value::Int(0)), kv("type", Value::Int(1))];
    proof {
        lemma_view_entries_len(first_entries@);
    }
    assert(view_entries(first_entries@) =~= seq![
        ("content"@, ValueView::Array(seq![ValueView::Int(0)])),
        ("time"@, ValueView::Int(0)),
        ("type"@, ValueView::Int(1)),
    ]);
    let first = build(first_entries);
    let second_entries = vec![kv("content", Value::Null), kv("time", Value::Int(last)), kv("type", Value::Int(1))];
    proof {
        lemma_view_entries_len(second_entries@);
    }
    assert(view_entries(second_entries@) =~= seq![
        ("content"@, ValueView::Null),
        ("time"@, ValueView::Int(last)),
        ("type"@, ValueView::Int(1)),
    ]);
    let second = build(second_entries);
    let ghost fv = view_entries(first@);
    let ghost sv = view_entries(second@);
    object_insert(&mut sg, String::from_str("layerIndexMap"), Value::Object(map));
    let pri = vec![Value::Object(first), Value::Object(second)];
    proof {
        lemma_view_values_len(pri@);
        assert(view_values(pri@) =~= seq![ValueView::Object(fv), ValueView::Object(sv)]);
    }
    object_insert(&mut sg, String::from_str("priority"), Value::Array(pri));
    Ok(sg)
}

/// Rebuilds the `front` and `sg` tracks, as [`motions_of`] says.
fn rebuild_motions(motion: Vec<(String, Value)>, frames: Vec<Value>, last: i64) -> (r: Result<
    Vec<(String, Value)>,
    String,
>)
    requires
        last >= 1,
    ensures
        r matches Ok(v) ==> motions_of(view_entries(motion@), view_values(frames@), last) == Ok::<
            Seq<(Seq<char>, ValueView)>,
            Failure,
        >(view_entries(v@)),
        r matches Err(e) ==> motions_of(view_entries(motion@), view_values(frames@), last) == Err::<
            Seq<(Seq<char>, ValueView)>,
            Failure,
        >(Failure::Template(e@)),
{
    let ghost fv = view_values(frames@);
    let mut m = motion;
    let fi = match lookup(&m, "front") {
        Some(i) => i,
        None => return Err(missing_object_text("front")),
    };
    let ghost m0 = m@;
    let (fk, fval) = take_entry(&mut m, fi);
    let front = match fval {
        Value::Object(f) => f,
        _ => return Err(missing_object_text("front")),
    };
    let frames2 = copy_values(&frames);
    let front2 = match retrack(front, frames2, last) {
        Ok(f) => f,
        Err(e) => return Err(e),
    };
    let ghost f2 = view_entries(front2@);
    let fnew = Value::Object(front2);
    m.insert(fi, (fk, fnew));
    proof {
        lemma_restore(m0, fi as int, fk, fnew);
        lemma_find_key(view_entries(m0), "front"@);
        lemma_replaced_entry(view_entries(m0), "front"@, fnew@, "sg"@);
        lemma_replaced_entry(view_entries(m0), "front"@, fnew@, "layer"@);
    }
    let ghost m1 = m@;
    if lookup(&m, "sg").is_none() {
        let sg = match &m[fi].1 {
            Value::Object(f) => {
                proof {
                    lemma_view_entries_len(m@);
                    let layers = entry_of(f2, "layer"@);
                    lemma_field_insert_layer(f2);
                }
                match sg_track(f, last) {
                    Ok(sg) => sg,
                    Err(e) => return Err(e),
                }
            },
            _ => {
                proof {
                    lemma_view_entries_len(m@);
                }
                return Err(missing_object_text("front"));
            },
        };
        object_insert(&mut m, String::from_str("sg"), Value::Object(sg));
    }
    let si = match lookup(&m, "sg") {
        Some(i) => i,
        None => return Err(missing_object_text("sg")),
    };
    let ghost m2 = m@;
    let (sk, sval) = take_entry(&mut m, si);
    let sg = match sval {
        Value::Object(s) => s,
        _ => return Err(missing_object_text("sg")),
    };
    let sg2 = match retrack(sg, frames, last) {
        Ok(s) => s,
        Err(e) => return Err(e),
    };
    let snew = Value::Object(sg2);
    m.insert(si, (sk, snew));
    proof {
        lemma_restore(m2, si as int, sk, snew);
    }
    Ok(m)
}

/// A successfully rebuilt track's first layer is an object.
proof fn lemma_field_insert_layer(f2: Seq<(Seq<char>, ValueView)>)
    requires
        exists|m: Seq<(Seq<char>, ValueView)>, frames: Seq<ValueView>, last: i64|
            #[trigger] retracked(m, frames, last) == Ok::<Seq<(Seq<char>, ValueView)>, Failure>(f2),
    ensures
        entry_of(f2, "layer"@) matches Some(ValueView::Array(l)) && l.len() > 0 && l[0] is Object,
{
    let (m, frames, last) = choose|m: Seq<(Seq<char>, ValueView)>, frames: Seq<ValueView>, last: i64|
        #[trigger] retracked(m, frames, last) == Ok::<Seq<(Seq<char>, ValueView)>, Failure>(f2);
    let m1 = insert_entry(m, "lastTime"@, ValueView::Int(last));
    let m2 = field_insert(m1, "parameter"@, 0, "division"@, ValueView::Int((last - 1) as i64));
    let m3 = field_insert(m2, "parameter"@, 0, "rangeEnd"@, ValueView::Int((last - 1) as i64));
    let m4 = field_insert(m3, "priority"@, 1, "time"@, ValueView::Int(last));
    lemma_find_key(m4, "layer"@);
    lemma_replaced_entry(
        m4,
        "layer"@,
        ValueView::Array(elem_insert(entry_of(m4, "layer"@)->Some_0->Array_0, 0, "frameList"@, ValueView::Array(frames))),
        "layer"@,
    );
}

fn add_sources(src: &mut Vec<(String, Value)>, entries: Vec<(String, Value)>)
    ensures
        view_entries(final(src)@) == object_of_onto(view_entries(old(src)@), view_entries(entries@)),
{
    let ghost all = entries@;
    let ghost ev = view_entries(all);
    let ghost start = view_entries(src@);
    proof {
        lemma_view_entries_len(all);
    }
    let n = entries.len();
    let mut rest = entries;
    let mut i: usize = 0;
    assert(ev.take(0) =~= Seq::<(Seq<char>, ValueView)>::empty());
    while i < n
        invariant
            i <= n,
            n == all.len(),
            ev == view_entries(all),
            ev.len() == all.len(),
            forall|k: int| 0 <= k < all.len() ==> #[trigger] ev[k] == (all[k].0@, all[k].1@),
            rest@ == all.skip(i as int),
            view_entries(src@) == object_of_onto(start, ev.take(i as int)),
        decreases n - i,
    {
        let e = rest.remove(0);
        assert(e == all[i as int]);
        assert(rest@ =~= all.skip(i + 1));
        assert(ev.take(i + 1).drop_last() =~= ev.take(i as int));
        assert(ev.take(i + 1).last() == (e.0@, e.1@));
        object_insert(src, e.0, e.1);
        i = i + 1;
    }
    assert(ev.take(n as int) =~= ev);
}

/// Adds the cover sources and rebuilds the cover tracks, as [`spliced`]
/// says.
#[verifier::spinoff_prover]
fn splice(tree: Value, entries: Vec<(String, Value)>, frames: Vec<Value>, last: i64) -> (r: Result<Value, String>)
    requires
        last >= 1,
    ensures
        r matches Ok(v) ==> spliced(tree@, view_entries(entries@), view_values(frames@), last) == Ok::<
            ValueView,
            Failure,
        >(v@),
        r matches Err(e) ==> spliced(tree@, view_entries(entries@), view_values(frames@), last) == Err::<
            ValueView,
            Failure,
        >(Failure::Template(e@)),
{
    let mut root = match tree {
        Value::Object(r) => r,
        _ => return Err(String::from_str("title_select template: expected object at root")),
    };
    let si = match lookup(&root, "source") {
        Some(i) => i,
        None => return Err(missing_object_text("source")),
    };
    let ghost r0 = root@;
    let (sk, sv) = take_entry(&mut root, si);
    let mut src = match sv {
        Value::Object(s) => s,
        _ => return Err(missing_object_text("source")),
    };
    add_sources(&mut src, entries);
    let snew = Value::Object(src);
    root.insert(si, (sk, snew));
    proof {
        lemma_restore(r0, si as int, sk, snew);
    }
    let oi = match lookup(&root, "object") {
        Some(i) => i,
        None => return Err(missing_object_text("object")),
    };
    let ghost r1 = root@;
    let (ok, ov) = take_entry(&mut root, oi);
    let mut object = match ov {
        Value::Object(o) => o,
        _ => return Err(missing_object_text("object")),
    };
    let pi = match lookup(&object, "pkg") {
        Some(i) => i,
        None => return Err(missing_object_text("pkg")),
    };
    let ghost o0 = object@;
    let (pk, pv) = take_entry(&mut object, pi);
    let mut pkg = match pv {
        Value::Object(p) => p,
        _ => return Err(missing_object_text("pkg")),
    };
    let mi = match lookup(&pkg, "motion") {
        Some(i) => i,
        None => return Err(missing_object_text("motion")),
    };
    let ghost p0 = pkg@;
    let (mk, mv) = take_entry(&mut pkg, mi);
    let motion = match mv {
        Value::Object(m) => m,
        _ => return Err(missing_object_text("motion")),
    };
    let m2 = match rebuild_motions(motion, frames, last) {
        Ok(m) => m,
        Err(e) => return Err(e),
    };
    let mnew = Value::Object(m2);
    pkg.insert(mi, (mk, mnew));
    proof {
        lemma_restore(p0, mi as int, mk, mnew);
    }
    let pnew = Value::Object(pkg);
    object.insert(pi, (pk, pnew));
    proof {
        lemma_restore(o0, pi as int, pk, pnew);
    }
    let onew = Value::Object(object);
    root.insert(oi, (ok, onew));
    proof {
        lemma_restore(r1, oi as int, ok, onew);
    }
    Ok(Value::Object(root))
}

// ---- decoding covers ----

/// What `image::load_from_memory` and `to_rgba8` make of a cover file: its
/// RGBA8 pixels, width and height, or the decoder's message.
pub uninterp spec fn image_decoded(bytes: Seq<u8>) -> Result<(Seq<u8>, u32, u32), Seq<char>>;

/// A decoded cover: RGBA8 pixels, row by row, with the image's size.
pub struct CoverImage {
    pub rgba: Vec<u8>,
    pub width: u32,
    pub height: u32,
}

/// `image::load_from_memory`, the image then converted by `to_rgba8`: the
/// result is named only, and depends on the bytes alone.
#[verifier::external_body]
fn decode_image(bytes: &[u8]) -> (res: Result<CoverImage, String>)
    ensures
        res matches Ok(d) ==> image_decoded(bytes@) is Ok && image_decoded(bytes@)->Ok_0 == (
            d.rgba@,
            d.width,
            d.height,
        ),
        res matches Err(e) ==> image_decoded(bytes@) is Err && image_decoded(bytes@)->Err_0 == e@,
{
    match image::load_from_memory(bytes) {
        Ok(img) => {
            let rgba = img.to_rgba8();
            let (width, height) = rgba.dimensions();
            Ok(CoverImage { rgba: rgba.into_raw(), width, height })
        },
        Err(e) => Err(e.to_string()),
    }
}

fn failure_text(c: &CoverEntry, image: &Option<Result<CoverImage, String>>) -> (r: String)
    ensures
        Failure::Library(r@) == cover_failure(*c, image_view(*image)),
{
    match image {
        Some(Err(e)) => {
            let mut m = String::from_str("failed to read ");
            m.append(c.cover_path.as_str());
            m.append(": ");
            m.append(e.as_str());
            m
        },
        _ => {
            let mut m = String::from_str("cover image missing for ");
            m.append(c.label.as_str());
            m.append(": ");
            m.append(c.cover_path.as_str());
            m
        },
    }
}

/// The cover sheet, once the cover files are decoded: as [`sheet_result`]
/// says, then written as a PSB file of format 4.
#[verifier::spinoff_prover]
#[verifier::rlimit(40)]
pub fn sheet_from(tree: Value, games: &[CoverEntry], images: Vec<Option<Result<CoverImage, String>>>) -> (r: Result<
    Vec<u8>,
    Error,
>)
    requires
        images@.len() == games@.len(),
        scan_of(tree@) matches Ok(p) ==> p.0 + 1 + games@.len() <= i64::MAX && p.1 + 1 + games@.len()
            <= u32::MAX,
        games@.len() + 2 <= i64::MAX,
    ensures
        sheet_result(tree@, games@, images_view(images@)) matches Err(f) ==> failed_as(r, f),
        sheet_result(tree@, games@, images_view(images@)) matches Ok(out) ==> written_or_refused(r, out),
{
    let ghost tv = tree@;
    let ghost iv = images_view(images@);
    let ghost gv = games@;
    let (mt, ms) = match scan_indices(&tree) {
        Ok(p) => p,
        Err(m) => return Err(Error::Template(m)),
    };
    proof {
        if let ValueView::Object(root) = tv {
            if let Some(ValueView::Object(src)) = entry_of(root, "source"@) {
                lemma_max_tex(src, src.len());
            }
        }
    }
    let n = games.len();
    let mut i: usize = 0;
    while i < n
        invariant
            i <= n,
            n == games@.len(),
            images@.len() == n,
            iv == images_view(images@),
            iv.len() == n,
            first_failure(iv, 0) == first_failure(iv, i as nat),
            forall|k: int| 0 <= k < i ==> #[trigger] images@[k] matches Some(Ok(_)),
            gv == games@,
            tv == tree@,
            scan_of(tv) == Ok::<(int, nat), Failure>((mt as int, ms as nat)),
        decreases n - i,
    {
        assert(iv[i as int] == image_view(images@[i as int]));
        match &images[i] {
            Some(Ok(_)) => {},
            other => {
                let m = failure_text(&games[i], other);
                assert(first_failure(iv, i as nat) == i);
                assert(sheet_result(tv, gv, iv) == Err::<ValueView, Failure>(Failure::Library(m@)));
                return Err(Error::Library(m));
            },
        }
        i = i + 1;
    }
    assert(first_failure(iv, n as nat) == -1);
    let mut entries: Vec<(String, Value)> = Vec::new();
    let mut frames: Vec<Value> = Vec::new();
    let ghost want_entries = cover_entries(gv, iv, mt as int, ms as nat);
    let ghost want_frames = cover_frames(n as nat, mt as int);
    let mut imgs = images;
    let ghost all = imgs@;
    let mut k: usize = 0;
    assert(view_entries(entries@) =~= want_entries.take(0));
    assert(view_values(frames@) =~= want_frames.take(0));
    while k < n
        invariant
            k <= n,
            n == games@.len(),
            gv == games@,
            all.len() == n,
            iv == images_view(all),
            imgs@ == all.skip(k as int),
            forall|q: int| 0 <= q < n ==> #[trigger] all[q] matches Some(Ok(_)),
            mt + 1 + n <= i64::MAX,
            mt >= -1,
            ms + 1 + n <= u32::MAX,
            want_entries == cover_entries(gv, iv, mt as int, ms as nat),
            want_frames == cover_frames(n as nat, mt as int),
            view_entries(entries@) == want_entries.take(k as int),
            view_values(frames@) == want_frames.take(k as int),
        decreases n - k,
    {
        let img = imgs.remove(0);
        assert(img == all[k as int]);
        assert(imgs@ =~= all.skip(k + 1));
        let c = match img {
            Some(Ok(c)) => c,
            _ => {
                assert(false);
                return Err(Error::Template(String::new()));
            },
        };
        let tex_idx: i64 = mt + 1 + k as i64;
        let digits = padded_text(tex_idx as u64, 3);
        let mut name = String::from_str("tex#");
        name.append(digits.as_str());
        proof {
            reveal_strlit("tex#");
        }
        assert(name@ == tex_name((mt + 1 + k) as nat));
        let dims = games[k].dimensions();
        assert(dims == cover_geometry(gv[k as int].cover_size));
        let stream: u32 = ms + 1 + k as u32;
        let ghost rv = c.rgba@;
        assert(iv[k as int] == Some(Ok::<(Seq<u8>, u32, u32), Seq<char>>((rv, c.width, c.height))));
        let src = cover_source_value(dims, c.width, c.height, stream, c.rgba);
        let e = (name.clone(), src);
        proof {
            lemma_view_entries_push(entries@, e);
        }
        entries.push(e);
        assert(view_entries(entries@) =~= want_entries.take(k + 1));
        let f = cover_frame_value(k as i64, name);
        proof {
            lemma_view_values_push(frames@, f);
        }
        frames.push(f);
        assert(view_values(frames@) =~= want_frames.take(k + 1));
        k = k + 1;
    }
    let last: i64 = if n > 50 {
        n as i64 + 2
    } else {
        52
    };
    let end = end_frame_value(last);
    proof {
        lemma_view_values_push(frames@, end);
    }
    frames.push(end);
    assert(view_values(frames@) =~= want_frames);
    assert(view_entries(entries@) =~= want_entries);
    let mut t = match splice(tree, entries, frames, last) {
        Ok(t) => t,
        Err(e) => return Err(Error::Template(e)),
    };
    compact_stock_atlases(&mut t, mt + 1);
    let out = t;
    assert(sheet_result(tv, gv, iv) == Ok::<ValueView, Failure>(out@));
    if !keys_fit(&out) {
        return Err(Error::Template(String::from_str("the key names of the generated file do not fit its key table")));
    }
    match crate::psb::writer::write(&out, 4) {
        Ok(b) => {
            let r: Result<Vec<u8>, Error> = Ok(b);
            proof {
                let t0 = choose|t: crate::psb::layout::TrieArrays| #[trigger] crate::psb::writer::written(
                    b@,
                    out@,
                    4,
                    t,
                );
                assert(r->Ok_0 == b);
                assert(crate::psb::writer::written(r->Ok_0@, out@, 4, t0));
            }
            r
        },
        Err(e) => Err(Error::Psb(e)),
    }
}

proof fn lemma_max_tex(source: Seq<(Seq<char>, ValueView)>, k: nat)
    ensures
        max_tex_of(source, k) >= -1,
    decreases k,
{
    if k > 0 && k <= source.len() {
        lemma_max_tex(source, (k - 1) as nat);
    }
}

/// What a title-select sheet is generated from.
pub struct GenInputs<'a> {
    /// The covers in menu order.
    pub games: &'a [CoverEntry],
    /// Decoded bytes of the stock sheet of the lineup.
    pub template_psb: &'a [u8],
}

/// What the cover files decode to; none for a missing file.
pub open spec fn decoded_files(files: Seq<Option<Vec<u8>>>) -> Seq<Option<Decoded>> {
    files.map_values(
        |f: Option<Vec<u8>>|
            match f {
                None => None,
                Some(b) => Some(image_decoded(b@)),
            },
    )
}

/// The title-select sheet of a pack, from the stock sheet and the contents
/// of the cover files (`files[i]` for cover `i`, none when it is missing):
/// as [`sheet_result`] says, each file as the image decoder reads it.
pub fn generate(inputs: &GenInputs, files: &[Option<Vec<u8>>]) -> (r: Result<Vec<u8>, Error>)
    requires
        files@.len() == inputs.games@.len(),
        inputs.games@.len() + 2 <= i64::MAX,
        read_result(inputs.template_psb@) matches Ok(tree) ==> (scan_of(tree) matches Ok(p) ==> p.0 + 1
            + inputs.games@.len() <= i64::MAX && p.1 + 1 + inputs.games@.len() <= u32::MAX),
    ensures
        read_result(inputs.template_psb@) matches Err(e) ==> r == Err::<Vec<u8>, Error>(Error::Psb(e)),
        read_result(inputs.template_psb@) matches Ok(tree) ==> (sheet_result(
            tree,
            inputs.games@,
            decoded_files(files@),
        ) matches Err(f) ==> failed_as(r, f)),
        read_result(inputs.template_psb@) matches Ok(tree) ==> (sheet_result(
            tree,
            inputs.games@,
            decoded_files(files@),
        ) matches Ok(out) ==> written_or_refused(r, out)),
{
    let tree = match read(inputs.template_psb) {
        Ok(t) => t,
        Err(e) => return Err(Error::Psb(e)),
    };
    let mut images: Vec<Option<Result<CoverImage, String>>> = Vec::new();
    let mut i: usize = 0;
    while i < files.len()
        invariant
            i <= files@.len(),
            images@.len() == i,
            forall|k: int| 0 <= k < i ==> #[trigger] image_view(images@[k]) == decoded_files(files@)[k],
        decreases files@.len() - i,
    {
        match &files[i] {
            None => images.push(None),
            Some(b) => {
                let d = decode_image(b.as_slice());
                images.push(Some(d));
            },
        }
        i = i + 1;
    }
    assert(images_view(images@) =~= decoded_files(files@));
    sheet_from(tree, inputs.games, images)
}

} // verus!
