//! The decisions made while opening a console dump: which archive paths are
//! acceptable, which partition reads stay inside their partition, which files
//! are P9 images, and which ranges of `alldata.bin` its index describes.
use vstd::prelude::*;
use vstd::string::StrSliceExecFns;
use vstd::string::StringExecFns;
use crate::library::joined;
use crate::saves::starts_with;
use crate::psb::layout::{bytes_lt, text_lt};
use crate::psb::value::{find_key, lemma_view_entries_len, view_entries, Value, ValueView};
use crate::title_prof::find_entry;
use vstd::utf8::{encode_utf8, encode_utf8_decode_utf8};

verus! {

// ---- archive paths ----

/// Whether `s` has a `..` component.
pub open spec fn has_parent_step(s: Seq<char>) -> bool {
    exists|i: int|
        0 <= i && i + 2 <= s.len() && (i == 0 || s[i - 1] == '/') && #[trigger] s[i] == '.' && s[i + 1] == '.'
            && (i + 2 == s.len() || s[i + 2] == '/')
}

/// Whether `s` is a relative path made of plain names only: not empty, no
/// `\` or `:`, not rooted, not starting with a `.` component, and without a
/// `..` component (the Unix rules of `Path::components`).
pub open spec fn safe_name(s: Seq<char>) -> bool {
    &&& s.len() > 0
    &&& forall|i: int| 0 <= i < s.len() ==> #[trigger] s[i] != '\\' && s[i] != ':'
    &&& s[0] != '/'
    &&& !(s == "."@ || starts_with(s, "./"@))
    &&& !has_parent_step(s)
}

/// Accepts an archive path only when it is [`safe_name`].
pub fn safe_relative(name: &str) -> (r: Result<(), String>)
    ensures
        r is Ok == safe_name(name@),
        r matches Err(m) ==> m@ == "Invalid archive path: "@ + name@,
{
    proof {
        reveal_strlit(".");
        reveal_strlit("./");
    }
    let n = name.unicode_len();
    let bad = {
        let mut m = String::from_str("Invalid archive path: ");
        m.append(name);
        m
    };
    if n == 0 {
        return Err(bad);
    }
    let mut i: usize = 0;
    while i < n
        invariant
            i <= n,
            n == name@.len(),
            bad@ == "Invalid archive path: "@ + name@,
            forall|k: int| 0 <= k < i ==> #[trigger] name@[k] != '\\' && name@[k] != ':',
        decreases n - i,
    {
        let c = name.get_char(i);
        if c == '\\' || c == ':' {
            return Err(bad);
        }
        i = i + 1;
    }
    if name.get_char(0) == '/' {
        return Err(bad);
    }
    if name.get_char(0) == '.' && (n == 1 || name.get_char(1) == '/') {
        proof {
            if n > 1 {
                assert(name@.take(2) =~= "./"@);
            } else {
                assert(name@ =~= "."@);
            }
        }
        return Err(bad);
    }
    proof {
        assert(!(name@ == "."@)) by {
            if name@ == "."@ {
                assert("."@.len() == 1);
                assert(name@[0] == "."@[0]);
            }
        }
        assert(!starts_with(name@, "./"@)) by {
            if starts_with(name@, "./"@) {
                assert(name@.take(2)[0] == name@[0]);
                assert(name@.take(2)[1] == name@[1]);
                assert("./"@[0] == '.' && "./"@[1] == '/');
            }
        }
    }
    let mut j: usize = 0;
    while n >= 2 && j <= n - 2
        invariant
            n == name@.len(),
            n > 0,
            bad@ == "Invalid archive path: "@ + name@,
            forall|k: int| 0 <= k < n ==> #[trigger] name@[k] != '\\' && name@[k] != ':',
            name@[0] != '/',
            !(name@ == "."@ || starts_with(name@, "./"@)),
            forall|k: int|
                0 <= k < j && k + 2 <= n ==> !((k == 0 || name@[k - 1] == '/') && #[trigger] name@[k] == '.'
                    && name@[k + 1] == '.' && (k + 2 == n || name@[k + 2] == '/')),
        decreases n - j,
    {
        if (j == 0 || name.get_char(j - 1) == '/') && name.get_char(j) == '.' && name.get_char(j + 1) == '.' && (j
            + 2 == n || name.get_char(j + 2) == '/') {
            return Err(bad);
        }
        j = j + 1;
    }
    Ok(())
}

// ---- partition reads ----

/// Whether `len` bytes from `start` lie inside a partition `length` bytes
/// long (a sum past `u64::MAX` lies outside).
pub fn read_in_bounds(start: u64, len: u64, length: u64) -> (b: bool)
    ensures
        b == (start + len <= length),
{
    match start.checked_add(len) {
        Some(end) => end <= length,
        None => false,
    }
}

// ---- P9 images ----

/// ASCII lower case of a text.
pub open spec fn lower(s: Seq<char>) -> Seq<char> {
    s.map_values(|c: char| crate::library::ascii_lower(c))
}

/// The stem and extension of a file name, by the rules of `Path::file_stem`
/// and `Path::extension`: split at the last `.`, unless the name is `..` or
/// its only `.` leads it.
pub open spec fn stem_and_extension(name: Seq<char>) -> (Seq<char>, Seq<char>) {
    let k = last_dot(name, name.len() as int);
    if name == ".."@ || k <= 0 {
        (name, Seq::empty())
    } else {
        (name.take(k), name.skip(k + 1))
    }
}

/// Position of the last `.` in the first `n` characters, or -1.
pub open spec fn last_dot(s: Seq<char>, n: int) -> int
    decreases n,
{
    if n <= 0 {
        -1
    } else if s[n - 1] == '.' {
        n - 1
    } else {
        last_dot(s, n - 1)
    }
}

/// Whether a file of a dump folder is a P9 image: its stem, in lower case,
/// is `mmcblk0p9`, `p9`, `partition9` or `partition_9`, and its extension
/// `bin`, `img`, `ext4` or `raw`.
pub open spec fn is_p9_image(name: Seq<char>) -> bool {
    let (stem, ext) = stem_and_extension(name);
    let s = lower(stem);
    let e = lower(ext);
    (s == "mmcblk0p9"@ || s == "p9"@ || s == "partition9"@ || s == "partition_9"@) && (e == "bin"@ || e
        == "img"@ || e == "ext4"@ || e == "raw"@)
}

fn lower_is(s: &str, lit: &str) -> (b: bool)
    ensures
        b == (lower(s@) == lit@),
{
    let n = s.unicode_len();
    if n != lit.unicode_len() {
        return false;
    }
    let mut i: usize = 0;
    while i < n
        invariant
            i <= n,
            n == s@.len(),
            n == lit@.len(),
            forall|k: int| 0 <= k < i ==> crate::library::ascii_lower(#[trigger] s@[k]) == lit@[k],
        decreases n - i,
    {
        let c = s.get_char(i);
        let l = if 'A' <= c && c <= 'Z' {
            ((c as u32) + 32) as u8 as char
        } else {
            c
        };
        assert(l == crate::library::ascii_lower(c)) by {
            if 'A' <= c && c <= 'Z' {
                assert((c as u32 + 32) < 256);
            }
        }
        if l != lit.get_char(i) {
            assert(lower(s@)[i as int] != lit@[i as int]);
            return false;
        }
        i = i + 1;
    }
    assert(lower(s@) =~= lit@);
    true
}

/// The stem and extension of a file name (see `stem_and_extension`).
pub fn split_name(name: &str) -> (r: (String, String))
    ensures
        (r.0@, r.1@) == stem_and_extension(name@),
{
    proof {
        reveal_strlit("..");
    }
    let n = name.unicode_len();
    let mut k: usize = n;
    while k > 0 && name.get_char(k - 1) != '.'
        invariant
            k <= n,
            n == name@.len(),
            last_dot(name@, n as int) == last_dot(name@, k as int),
        decreases k,
    {
        k = k - 1;
    }
    let ghost kd = last_dot(name@, n as int);
    assert(kd == if k == 0 { -1 } else { k - 1 });
    let dots = String::from_str("..");
    let whole = String::from_str(name);
    if whole == dots || k <= 1 {
        proof {
            reveal_strlit("");
        }
        (whole, String::from_str(""))
    } else {
        let st = String::from_str(name.substring_char(0, k - 1));
        let ex = String::from_str(name.substring_char(k, n));
        assert(st@ =~= name@.take(kd));
        assert(ex@ =~= name@.skip(kd + 1));
        (st, ex)
    }
}

/// Whether a dump folder's file named `name` is a P9 image.
pub fn p9_name(name: &str) -> (b: bool)
    ensures
        b == is_p9_image(name@),
{
    let (st, ex) = split_name(name);
    let stem = st.as_str();
    let ext = ex.as_str();
    (lower_is(stem, "mmcblk0p9") || lower_is(stem, "p9") || lower_is(stem, "partition9") || lower_is(
        stem,
        "partition_9",
    )) && (lower_is(ext, "bin") || lower_is(ext, "img") || lower_is(ext, "ext4") || lower_is(ext, "raw"))
}

// ---- dump folders ----

/// The folders of a dump, in the order they are tried, that may hold the
/// games: the folder itself, `game`, `usr/game`, `p9`, `P9`, `BACKUP/game`.
pub fn dump_roots(path: &str) -> (r: Vec<String>)
    ensures
        r@.len() == 6,
        r@[0]@ == joined(path@, ""@),
        r@[1]@ == joined(path@, "game"@),
        r@[2]@ == joined(path@, "usr/game"@),
        r@[3]@ == joined(path@, "p9"@),
        r@[4]@ == joined(path@, "P9"@),
        r@[5]@ == joined(path@, "BACKUP/game"@),
{
    let mut r: Vec<String> = Vec::new();
    r.push(crate::library::join_path(path, ""));
    r.push(crate::library::join_path(path, "game"));
    r.push(crate::library::join_path(path, "usr/game"));
    r.push(crate::library::join_path(path, "p9"));
    r.push(crate::library::join_path(path, "P9"));
    r.push(crate::library::join_path(path, "BACKUP/game"));
    r
}


// ---- the alldata.bin index ----

proof fn lemma_bytes_lt_transitive(a: Seq<u8>, b: Seq<u8>, c: Seq<u8>)
    requires
        bytes_lt(a, b),
        bytes_lt(b, c),
    ensures
        bytes_lt(a, c),
    decreases a.len(),
{
    if a.len() > 0 && a[0] == b[0] && b[0] == c[0] {
        lemma_bytes_lt_transitive(a.drop_first(), b.drop_first(), c.drop_first());
    }
}

proof fn lemma_bytes_lt_total(a: Seq<u8>, b: Seq<u8>)
    requires
        a != b,
    ensures
        bytes_lt(a, b) || bytes_lt(b, a),
    decreases a.len(),
{
    if a.len() > 0 && b.len() > 0 && a[0] == b[0] {
        if a.drop_first() == b.drop_first() {
            assert(a =~= seq![a[0]] + a.drop_first());
            assert(b =~= seq![b[0]] + b.drop_first());
        }
        lemma_bytes_lt_total(a.drop_first(), b.drop_first());
    } else if a.len() == 0 && b.len() == 0 {
        assert(a =~= b);
    }
}

/// Two different texts are ordered one way or the other.
proof fn lemma_text_lt_total(a: Seq<char>, b: Seq<char>)
    requires
        a != b,
    ensures
        text_lt(a, b) || text_lt(b, a),
{
    encode_utf8_decode_utf8(a);
    encode_utf8_decode_utf8(b);
    lemma_bytes_lt_total(encode_utf8(a), encode_utf8(b));
}

fn bytes_less(a: &[u8], b: &[u8]) -> (r: bool)
    ensures
        r == bytes_lt(a@, b@),
{
    let mut i: usize = 0;
    assert(a@.skip(0) =~= a@);
    assert(b@.skip(0) =~= b@);
    while i < a.len() && i < b.len() && a[i] == b[i]
        invariant
            i <= a@.len(),
            i <= b@.len(),
            bytes_lt(a@, b@) == bytes_lt(a@.skip(i as int), b@.skip(i as int)),
        decreases a@.len() - i,
    {
        assert(a@.skip(i as int).drop_first() =~= a@.skip(i + 1));
        assert(b@.skip(i as int).drop_first() =~= b@.skip(i + 1));
        i = i + 1;
    }
    if i == b.len() {
        false
    } else if i == a.len() {
        true
    } else {
        assert(a@.skip(i as int)[0] == a@[i as int]);
        assert(b@.skip(i as int)[0] == b@[i as int]);
        a[i] < b[i]
    }
}

/// Whether `a` comes before `b` in the order of their UTF-8 bytes.
pub fn text_less(a: &str, b: &str) -> (r: bool)
    ensures
        r == text_lt(a@, b@),
{
    bytes_less(a.as_bytes(), b.as_bytes())
}

/// A non-negative integer of the index.
pub open spec fn index_u64(v: ValueView) -> Option<u64> {
    match v {
        ValueView::Int(i) => if i >= 0 {
            Some(i as u64)
        } else {
            None
        },
        _ => None,
    }
}

/// The `file_info` table of an `alldata.psb.m` index, if it has one (of
/// repeated keys the last counts).
pub open spec fn file_info_table(index: ValueView) -> Option<Seq<(Seq<char>, ValueView)>> {
    match index {
        ValueView::Object(es) => {
            let i = find_key(es, "file_info"@);
            if i >= 0 {
                match es[i].1 {
                    ValueView::Object(t) => Some(t),
                    _ => None,
                }
            } else {
                None
            }
        },
        _ => None,
    }
}

pub open spec fn loose_names(loose: Seq<String>) -> Seq<Seq<char>> {
    loose.map_values(|s: String| s@)
}

/// The range of `alldata.bin` that the entry `name` describes, or why it is refused.
pub open spec fn entry_range(name: Seq<char>, range: ValueView, size: u64, loose: Seq<Seq<char>>) -> Result<
    (u64, u64),
    Seq<char>,
> {
    if !safe_name(name) {
        Err("Invalid archive path: "@ + name)
    } else {
        match range {
            ValueView::Array(a) => if a.len() != 2 {
                Err("Invalid alldata range"@)
            } else {
                match index_u64(a[0]) {
                    None => Err("Invalid alldata offset"@),
                    Some(start) => match index_u64(a[1]) {
                        None => Err("Invalid alldata length"@),
                        Some(length) => if start + length > size {
                            Err("Truncated alldata.bin: "@ + name)
                        } else if loose.contains(name) {
                            Err("Ambiguous source: "@ + name + " exists both loose and in alldata.bin"@)
                        } else {
                            Ok((start, length))
                        },
                    },
                }
            },
            _ => Err("Invalid alldata range"@),
        }
    }
}

/// Entry `i` of the table is the one its key stands for (the last with that key).
pub open spec fn counted(t: Seq<(Seq<char>, ValueView)>, i: int) -> bool {
    0 <= i < t.len() && find_key(t, t[i].0) == i
}

pub open spec fn refused(t: Seq<(Seq<char>, ValueView)>, i: int, size: u64, loose: Seq<Seq<char>>) -> bool {
    counted(t, i) && entry_range(t[i].0, t[i].1, size, loose) is Err
}

pub open spec fn triples(v: Seq<(String, u64, u64)>) -> Seq<(Seq<char>, u64, u64)> {
    v.map_values(|e: (String, u64, u64)| (e.0@, e.1, e.2))
}

/// Strictly increasing by name.
pub open spec fn by_name(v: Seq<(Seq<char>, u64, u64)>) -> bool {
    forall|i: int, j: int| 0 <= i < j < v.len() ==> text_lt(#[trigger] v[i].0, #[trigger] v[j].0)
}

/// What the index says of table `t`: every counted entry's range, in name
/// order, or the refusal of the entry that comes first by name.
pub open spec fn alldata_outcome(
    t: Seq<(Seq<char>, ValueView)>,
    size: u64,
    loose: Seq<Seq<char>>,
    r: Result<Seq<(Seq<char>, u64, u64)>, Seq<char>>,
) -> bool {
    &&& (exists|i: int| refused(t, i, size, loose)) <==> r is Err
    &&& r matches Err(m) ==> exists|i: int|
        #[trigger] refused(t, i, size, loose) && entry_range(t[i].0, t[i].1, size, loose) == Err::<
            (u64, u64),
            Seq<char>,
        >(m) && forall|j: int| #[trigger] refused(t, j, size, loose) && j != i ==> text_lt(t[i].0, t[j].0)
    &&& r matches Ok(v) ==> by_name(v) && (forall|q: int|
        0 <= q < v.len() ==> sourced(t, size, loose, #[trigger] v[q])) && (forall|i: int|
        #[trigger] counted(t, i) ==> exists|q: int| 0 <= q < v.len() && #[trigger] v[q].0 == t[i].0)
}

/// `e` is the name and range of a counted entry of `t`.
pub open spec fn sourced(
    t: Seq<(Seq<char>, ValueView)>,
    size: u64,
    loose: Seq<Seq<char>>,
    e: (Seq<char>, u64, u64),
) -> bool {
    exists|i: int|
        #[trigger] counted(t, i) && entry_range(t[i].0, t[i].1, size, loose) == Ok::<(u64, u64), Seq<char>>(
            (e.1, e.2),
        ) && t[i].0 == e.0
}

proof fn lemma_counted_unique(t: Seq<(Seq<char>, ValueView)>, i: int, j: int)
    requires
        counted(t, i),
        counted(t, j),
        t[i].0 == t[j].0,
    ensures
        i == j,
{
}

/// Inserts `e` where its name keeps `v` in name order.
fn insert_by_name(v: &mut Vec<(String, u64, u64)>, e: (String, u64, u64)) -> (p: usize)
    requires
        by_name(triples(old(v)@)),
        forall|q: int| 0 <= q < old(v)@.len() ==> #[trigger] old(v)@[q].0@ != e.0@,
    ensures
        by_name(triples(final(v)@)),
        p <= old(v)@.len(),
        triples(final(v)@) == triples(old(v)@).insert(p as int, (e.0@, e.1, e.2)),
{
    let ghost tv = triples(v@);
    let ghost te = (e.0@, e.1, e.2);
    let mut p: usize = 0;
    while p < v.len() && !text_less(e.0.as_str(), v[p].0.as_str())
        invariant
            p <= v@.len(),
            tv == triples(v@),
            by_name(tv),
            forall|q: int| 0 <= q < v@.len() ==> #[trigger] v@[q].0@ != e.0@,
            forall|q: int| 0 <= q < p ==> text_lt(#[trigger] tv[q].0, e.0@),
        decreases v@.len() - p,
    {
        proof {
            assert(tv[p as int].0 == v@[p as int].0@);
            lemma_text_lt_total(e.0@, v@[p as int].0@);
        }
        p = p + 1;
    }
    let ghost old_len = v@.len();
    v.insert(p, e);
    proof {
        let nv = triples(v@);
        assert(nv =~= tv.insert(p as int, te));
        if p < old_len {
            assert(text_lt(e.0@, tv[p as int].0));
        }
        assert forall|i: int, j: int| 0 <= i < j < nv.len() implies text_lt(#[trigger] nv[i].0, #[trigger] nv[j].0) by {
            if j < p {
            } else if j == p {
            } else if i < p {
                assert(text_lt(tv[i].0, te.0));
                assert(text_lt(te.0, tv[p as int].0));
                if j - 1 > p {
                    lemma_bytes_lt_transitive(encode_utf8(te.0), encode_utf8(tv[p as int].0), encode_utf8(tv[j - 1].0));
                }
                lemma_bytes_lt_transitive(encode_utf8(tv[i].0), encode_utf8(te.0), encode_utf8(tv[j - 1].0));
            } else if i == p {
                if j - 1 > p {
                    lemma_bytes_lt_transitive(encode_utf8(te.0), encode_utf8(tv[p as int].0), encode_utf8(tv[j - 1].0));
                }
            } else {
            }
        }
    }
    p
}


pub(crate) fn index_u64_of(v: &Value) -> (r: Option<u64>)
    ensures
        r == index_u64(v@),
{
    match v {
        Value::Int(i) => if *i >= 0 {
            Some(*i as u64)
        } else {
            None
        },
        _ => None,
    }
}

pub(crate) fn contains_text(v: &Vec<String>, s: &String) -> (b: bool)
    ensures
        b == loose_names(v@).contains(s@),
{
    let ghost lv = loose_names(v@);
    let mut i: usize = 0;
    while i < v.len()
        invariant
            i <= v@.len(),
            lv == loose_names(v@),
            lv.len() == v@.len(),
            forall|j: int| 0 <= j < i ==> lv[j] != s@,
        decreases v@.len() - i,
    {
        if v[i] == *s {
            assert(lv[i as int] == s@);
            return true;
        }
        i = i + 1;
    }
    false
}

/// The view of an entry check's outcome.
pub open spec fn range_view(r: Result<(u64, u64), String>) -> Result<(u64, u64), Seq<char>> {
    match r {
        Ok(x) => Ok(x),
        Err(m) => Err(m@),
    }
}

/// The range of `alldata.bin` that the index entry `name` describes, or why
/// it is refused.
pub fn check_entry(name: &String, range: &Value, size: u64, loose: &Vec<String>) -> (r: Result<(u64, u64), String>)
    ensures
        range_view(r) == entry_range(name@, range@, size, loose_names(loose@)),
{
    match safe_relative(name.as_str()) {
        Err(m) => {
            return Err(m);
        },
        Ok(()) => {},
    }
    match range {
        Value::Array(a) => {
            proof {
                crate::psb::value::lemma_view_values_len(a@);
            }
            if a.len() != 2 {
                return Err(String::from_str("Invalid alldata range"));
            }
            let start = match index_u64_of(&a[0]) {
                None => {
                    return Err(String::from_str("Invalid alldata offset"));
                },
                Some(x) => x,
            };
            let length = match index_u64_of(&a[1]) {
                None => {
                    return Err(String::from_str("Invalid alldata length"));
                },
                Some(x) => x,
            };
            if !read_in_bounds(start, length, size) {
                let mut m = String::from_str("Truncated alldata.bin: ");
                m.append(name.as_str());
                return Err(m);
            }
            if contains_text(loose, name) {
                let mut m = String::from_str("Ambiguous source: ");
                m.append(name.as_str());
                m.append(" exists both loose and in alldata.bin");
                return Err(m);
            }
            Ok((start, length))
        },
        _ => Err(String::from_str("Invalid alldata range")),
    }
}

/// The view of what `alldata_entries` returns.
pub open spec fn entries_view(r: Result<Vec<(String, u64, u64)>, String>) -> Result<Seq<(Seq<char>, u64, u64)>, Seq<char>> {
    match r {
        Ok(v) => Ok(triples(v@)),
        Err(m) => Err(m@),
    }
}

/// The ranges of `alldata.bin` that its index (the tree read from
/// `alldata.psb.m`) gives for each packed file, in name order; `loose` are
/// the files found outside the archive. Refused when the index has no
/// `file_info` table, or for the first entry by name whose path is unsafe,
/// whose range is not a pair of non-negative integers, which reaches past
/// the archive, or which is also a loose file.
pub fn alldata_entries(index: &Value, archive_size: u64, loose: &Vec<String>) -> (r: Result<
    Vec<(String, u64, u64)>,
    String,
>)
    ensures
        file_info_table(index@) is None ==> (r matches Err(m) && m@ == "alldata index has no file_info table"@),
        file_info_table(index@) matches Some(t) ==> alldata_outcome(
            t,
            archive_size,
            loose_names(loose@),
            entries_view(r),
        ),
{
    let t: &Vec<(String, Value)> = match index {
        Value::Object(es) => {
            let key = String::from_str("file_info");
            proof {
                lemma_view_entries_len(es@);
            }
            match find_entry(es, &key) {
                Some(k) => match &es[k].1 {
                    Value::Object(t) => t,
                    _ => {
                        return Err(String::from_str("alldata index has no file_info table"));
                    },
                },
                None => {
                    return Err(String::from_str("alldata index has no file_info table"));
                },
            }
        },
        _ => {
            return Err(String::from_str("alldata index has no file_info table"));
        },
    };
    assert(file_info_table(index@) == Some(view_entries(t@)));
    let ghost tv = view_entries(t@);
    let ghost lv = loose_names(loose@);
    proof {
        lemma_view_entries_len(t@);
    }
    let mut out: Vec<(String, u64, u64)> = Vec::new();
    let mut best: Option<(usize, String)> = None;
    let ghost mut src: Seq<int> = Seq::empty();
    let mut i: usize = 0;
    while i < t.len()
        invariant
            tv == view_entries(t@),
            tv.len() == t@.len(),
            forall|j: int| 0 <= j < t@.len() ==> #[trigger] tv[j] == (t@[j].0@, t@[j].1@),
            lv == loose_names(loose@),
            i <= t@.len(),
            by_name(triples(out@)),
            src.len() == out@.len(),
            forall|q: int|
                0 <= q < out@.len() ==> 0 <= #[trigger] src[q] < i && counted(tv, src[q]) && entry_range(
                    tv[src[q]].0,
                    tv[src[q]].1,
                    archive_size,
                    lv,
                ) == Ok::<(u64, u64), Seq<char>>((out@[q].1, out@[q].2)) && tv[src[q]].0 == out@[q].0@,
            forall|j: int|
                0 <= j < i && #[trigger] counted(tv, j) && entry_range(tv[j].0, tv[j].1, archive_size, lv) is Ok
                    ==> exists|q: int| 0 <= q < out@.len() && #[trigger] out@[q].0@ == tv[j].0,
            best matches Some(bm) ==> {
                &&& bm.0 < i
                &&& refused(tv, bm.0 as int, archive_size, lv)
                &&& entry_range(tv[bm.0 as int].0, tv[bm.0 as int].1, archive_size, lv) == Err::<(u64, u64), Seq<char>>(bm.1@)
                &&& forall|j: int|
                    0 <= j < i && #[trigger] refused(tv, j, archive_size, lv) && j != bm.0 ==> text_lt(
                        tv[bm.0 as int].0,
                        tv[j].0,
                    )
            },
            best is None ==> forall|j: int| 0 <= j < i ==> !#[trigger] refused(tv, j, archive_size, lv),
        decreases t@.len() - i,
    {
        let live = match find_entry(t, &t[i].0) {
            Some(k) => k == i,
            None => false,
        };
        assert(live == counted(tv, i as int));
        if live {
            match check_entry(&t[i].0, &t[i].1, archive_size, loose) {
                Ok(x) => {
                    proof {
                        assert forall|q: int| 0 <= q < out@.len() implies #[trigger] out@[q].0@ != t@[i as int].0@ by {
                            if out@[q].0@ == t@[i as int].0@ {
                                lemma_counted_unique(tv, src[q], i as int);
                            }
                        }
                    }
                    let ghost old_out = out@;
                    let p = insert_by_name(&mut out, (t[i].0.clone(), x.0, x.1));
                    proof {
                        let to = triples(old_out);
                        let tn = triples(out@);
                        let old_src = src;
                        to.insert_ensures(p as int, (t@[i as int].0@, x.0, x.1));
                        src.insert_ensures(p as int, i as int);
                        src = src.insert(p as int, i as int);
                        assert forall|k: int| p < k < tn.len() implies #[trigger] tn[k] == to[k - 1] && src[k] == old_src[k - 1] by {
                            assert(tn[(k - 1) + 1] == to[k - 1]);
                        }
                        assert forall|q: int| 0 <= q < out@.len() implies 0 <= #[trigger] src[q] < i + 1 && counted(
                            tv,
                            src[q],
                        ) && entry_range(tv[src[q]].0, tv[src[q]].1, archive_size, lv) == Ok::<(u64, u64), Seq<char>>(
                            (out@[q].1, out@[q].2),
                        ) && tv[src[q]].0 == out@[q].0@ by {
                            assert(tn[q] == (out@[q].0@, out@[q].1, out@[q].2));
                            if q != p {
                                let q0 = if q < p { q } else { q - 1 };
                                assert(tn[q] == to[q0]);
                                assert(to[q0] == (old_out[q0].0@, old_out[q0].1, old_out[q0].2));
                                assert(src[q] == old_src[q0]);
                            }
                        }
                        assert forall|j: int|
                            0 <= j < i + 1 && #[trigger] counted(tv, j) && entry_range(tv[j].0, tv[j].1, archive_size, lv) is Ok
                                implies exists|q: int| 0 <= q < out@.len() && #[trigger] out@[q].0@ == tv[j].0 by {
                            if j == i {
                                assert(tn[p as int] == (out@[p as int].0@, out@[p as int].1, out@[p as int].2));
                                assert(out@[p as int].0@ == tv[j].0);
                            } else {
                                let q = choose|q: int| 0 <= q < old_out.len() && #[trigger] old_out[q].0@ == tv[j].0;
                                assert(to[q] == (old_out[q].0@, old_out[q].1, old_out[q].2));
                                if q < p {
                                    assert(tn[q] == to[q]);
                                    assert(tn[q] == (out@[q].0@, out@[q].1, out@[q].2));
                                    assert(out@[q].0@ == tv[j].0);
                                } else {
                                    assert(tn[q + 1] == to[q]);
                                    assert(tn[q + 1] == (out@[q + 1].0@, out@[q + 1].1, out@[q + 1].2));
                                    assert(out@[q + 1].0@ == tv[j].0);
                                }
                            }
                        }
                    }
                },
                Err(m) => {
                    let take = match &best {
                        None => true,
                        Some(bm) => text_less(t[i].0.as_str(), t[bm.0].0.as_str()),
                    };
                    proof {
                        if best is Some {
                            let bm = best->Some_0;
                            if !take {
                                lemma_text_lt_total(tv[i as int].0, tv[bm.0 as int].0);
                                if tv[i as int].0 == tv[bm.0 as int].0 {
                                    lemma_counted_unique(tv, i as int, bm.0 as int);
                                }
                            } else {
                                assert forall|j: int|
                                    0 <= j < i + 1 && #[trigger] refused(tv, j, archive_size, lv) && j != i implies text_lt(
                                        tv[i as int].0,
                                        tv[j].0,
                                    ) by {
                                    if j != bm.0 {
                                        lemma_bytes_lt_transitive(
                                            encode_utf8(tv[i as int].0),
                                            encode_utf8(tv[bm.0 as int].0),
                                            encode_utf8(tv[j].0),
                                        );
                                    }
                                }
                            }
                        }
                    }
                    if take {
                        best = Some((i, m));
                    }
                },
            }
        }
        i = i + 1;
    }
    match best {
        Some(bm) => {
            proof {
                assert forall|j: int| #[trigger] refused(tv, j, archive_size, lv) && j != bm.0 implies text_lt(
                    tv[bm.0 as int].0,
                    tv[j].0,
                ) by {
                    assert(0 <= j < t@.len());
                }
            }
            Err(bm.1)
        },
        None => {
            proof {
                assert(triples(out@).len() == out@.len());
                assert forall|j: int| !#[trigger] refused(tv, j, archive_size, lv) by {
                    if 0 <= j < t@.len() {
                    }
                }
                assert forall|j: int| #[trigger] counted(tv, j) implies exists|q: int|
                    0 <= q < out@.len() && #[trigger] triples(out@)[q].0 == tv[j].0 by {
                    assert(!refused(tv, j, archive_size, lv));
                    let q = choose|q: int| 0 <= q < out@.len() && #[trigger] out@[q].0@ == tv[j].0;
                    assert(triples(out@)[q].0 == out@[q].0@);
                }
                assert forall|q: int| 0 <= q < triples(out@).len() implies sourced(
                    tv,
                    archive_size,
                    lv,
                    #[trigger] triples(out@)[q],
                ) by {
                    let j = src[q];
                    assert(triples(out@)[q] == (out@[q].0@, out@[q].1, out@[q].2));
                    assert(counted(tv, j));
                }
            }
            Ok(out)
        },
    }
}

} // verus!
