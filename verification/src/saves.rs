//! The console's save data as a published library lays it out: the SRAM
//! blocks of a pack, the system save `data_008` with its metadata, and the
//! slots and names of per-game save-state files.
use vstd::prelude::*;
use vstd::string::StrSliceExecFns;
use vstd::string::StringExecFns;
use crate::mzs::{md5, md5_digest};
use crate::psb::format::decimal;
use crate::psb::layout::TrieArrays;
use crate::psb::reader::decimal_string;
use crate::psb::trie::trie_fits;
use crate::psb::value::{Stream, Value, ValueView, view_entries};
use crate::psb::writer::{key_bytes, keys_fit, written};
use crate::publish::{Error, LineupKind, keys_overflow_message};
use crate::title_prof::push_entry;

verus! {

/// Bytes of one game's SRAM block.
pub const SRAM_BLOCK_SIZE: usize = 8448;
/// Number of SRAM blocks in a pack (and in the system save).
pub const SRAM_GAME_COUNT: usize = 150;
/// Where the SRAM blocks start in `data_008_0000.bin`; the settings
/// (BACKUP_FLAGS) come before.
pub const SRAM_OFFSET: usize = 0x5E80;
/// Size of the settings region of the system save.
pub const BACKUP_FLAGS_SIZE: usize = 0x5E80;
/// Size of the system save the engine expects: settings, SRAM blocks and
/// four trailing bytes.
pub const DATA_008_SIZE: usize = 1_291_396;
/// Bytes of the system save looked at to tell whether the console has
/// written user settings.
pub const USER_STATE_PROBE: usize = 4096;
/// Save-state slots of each game.
pub const SAVES_PER_GAME: u16 = 4;
/// First state slot of the US lineup (50 games of 4 slots).
pub const LINEUP_SLOT_OFFSET_US: u16 = 200;

/// A game's SRAM file that is one block long.
pub open spec fn whole_block(o: Option<Vec<u8>>) -> bool {
    match o {
        Some(b) => b@.len() == SRAM_BLOCK_SIZE,
        None => false,
    }
}

/// A game's SRAM file of another size.
pub open spec fn wrong_size_block(o: Option<Vec<u8>>) -> bool {
    match o {
        Some(b) => b@.len() != SRAM_BLOCK_SIZE,
        None => false,
    }
}

/// The SRAM block for slot `i` of a pack: the game's block when it has one of
/// the right size, zeros otherwise.
pub open spec fn sram_block_byte(blocks: Seq<Option<Vec<u8>>>, i: int, k: int) -> u8 {
    if 0 <= i < blocks.len() && whole_block(blocks[i]) {
        blocks[i]->Some_0@[k]
    } else {
        0
    }
}

/// How many of the first `n` games have a block of the right size.
pub open spec fn blocks_embedded(blocks: Seq<Option<Vec<u8>>>, n: nat) -> nat
    decreases n,
{
    if n == 0 || n > blocks.len() {
        0
    } else {
        blocks_embedded(blocks, (n - 1) as nat) + if whole_block(blocks[n - 1]) {
            1nat
        } else {
            0nat
        }
    }
}

/// How many of the first `n` games have a block of the wrong size.
pub open spec fn blocks_skipped(blocks: Seq<Option<Vec<u8>>>, n: nat) -> nat
    decreases n,
{
    if n == 0 || n > blocks.len() {
        0
    } else {
        blocks_skipped(blocks, (n - 1) as nat) + if wrong_size_block(blocks[n - 1]) {
            1nat
        } else {
            0nat
        }
    }
}

pub open spec fn min_nat(a: nat, b: nat) -> nat {
    if a <= b {
        a
    } else {
        b
    }
}

/// A pack's `saves/sram.bin`, from the SRAM files of its games in menu order
/// (`None` where a game has none): 150 blocks, a game's block where it has
/// one of exactly 8448 bytes and zeros elsewhere; games past the 150th are
/// dropped. Also how many blocks were embedded and how many skipped for
/// their size.
pub fn pack_sram(blocks: &Vec<Option<Vec<u8>>>) -> (r: (Vec<u8>, usize, usize))
    ensures
        r.0@.len() == SRAM_GAME_COUNT * SRAM_BLOCK_SIZE,
        forall|j: int|
            0 <= j < r.0@.len() ==> #[trigger] r.0@[j] == sram_block_byte(
                blocks@,
                j / SRAM_BLOCK_SIZE as int,
                j % SRAM_BLOCK_SIZE as int,
            ),
        r.1 == blocks_embedded(blocks@, min_nat(blocks@.len(), SRAM_GAME_COUNT as nat)),
        r.2 == blocks_skipped(blocks@, min_nat(blocks@.len(), SRAM_GAME_COUNT as nat)),
{
    let total = SRAM_GAME_COUNT * SRAM_BLOCK_SIZE;
    let mut blob: Vec<u8> = Vec::new();
    let mut embedded: usize = 0;
    let mut skipped: usize = 0;
    let mut i: usize = 0;
    while i < SRAM_GAME_COUNT
        invariant
            i <= SRAM_GAME_COUNT,
            blob@.len() == i * SRAM_BLOCK_SIZE,
            forall|j: int|
                0 <= j < blob@.len() ==> #[trigger] blob@[j] == sram_block_byte(
                    blocks@,
                    j / SRAM_BLOCK_SIZE as int,
                    j % SRAM_BLOCK_SIZE as int,
                ),
            embedded == blocks_embedded(blocks@, min_nat(blocks@.len(), i as nat)),
            skipped == blocks_skipped(blocks@, min_nat(blocks@.len(), i as nat)),
            embedded <= i,
            skipped <= i,
        decreases SRAM_GAME_COUNT - i,
    {
        let ghost before = blob@;
        let use_block = i < blocks.len() && match &blocks[i] {
            Some(b) => b.len() == SRAM_BLOCK_SIZE,
            None => false,
        };
        let mut k: usize = 0;
        while k < SRAM_BLOCK_SIZE
            invariant
                k <= SRAM_BLOCK_SIZE,
                i < SRAM_GAME_COUNT,
                blob@.len() == i * SRAM_BLOCK_SIZE + k,
                blob@.subrange(0, i * SRAM_BLOCK_SIZE) == before,
                before.len() == i * SRAM_BLOCK_SIZE,
                use_block == (i < blocks@.len() && whole_block(blocks@[i as int])),
                forall|q: int|
                    0 <= q < k ==> #[trigger] blob@[i * SRAM_BLOCK_SIZE + q] == sram_block_byte(blocks@, i as int, q),
            decreases SRAM_BLOCK_SIZE - k,
        {
            let byte = if use_block {
                match &blocks[i] {
                    Some(b) => b[k],
                    None => 0,
                }
            } else {
                0
            };
            blob.push(byte);
            k = k + 1;
        }
        proof {
            assert forall|j: int| 0 <= j < blob@.len() implies #[trigger] blob@[j] == sram_block_byte(
                blocks@,
                j / SRAM_BLOCK_SIZE as int,
                j % SRAM_BLOCK_SIZE as int,
            ) by {
                if j < i * SRAM_BLOCK_SIZE {
                    assert(blob@[j] == before[j]);
                } else {
                    let q = j - i * SRAM_BLOCK_SIZE;
                    assert(j / SRAM_BLOCK_SIZE as int == i) by (nonlinear_arith)
                        requires
                            j == i * 8448 + q,
                            0 <= q < 8448,
                    ;
                    assert(j % SRAM_BLOCK_SIZE as int == q) by (nonlinear_arith)
                        requires
                            j == i * 8448 + q,
                            0 <= q < 8448,
                    ;
                    assert(blob@[i * SRAM_BLOCK_SIZE + q] == sram_block_byte(blocks@, i as int, q));
                }
            }
        }
        if i < blocks.len() {
            match &blocks[i] {
                Some(b) => if b.len() == SRAM_BLOCK_SIZE {
                    embedded = embedded + 1;
                } else {
                    skipped = skipped + 1;
                },
                None => {},
            }
        }
        i = i + 1;
    }
    assert(total == blob@.len());
    (blob, embedded, skipped)
}

/// Byte `j` of the rebuilt system save: the library's settings in the
/// settings region, the active pack's SRAM in the SRAM region, zeros
/// elsewhere and wherever a source is missing or too short.
pub open spec fn data_008_byte(flags: Option<Seq<u8>>, sram: Option<Seq<u8>>, j: int) -> u8 {
    if j < SRAM_OFFSET {
        match flags {
            Some(f) => if j < f.len() {
                f[j]
            } else {
                0
            },
            None => 0,
        }
    } else if j < SRAM_OFFSET + SRAM_GAME_COUNT * SRAM_BLOCK_SIZE {
        match sram {
            Some(s) => if j - SRAM_OFFSET < s.len() {
                s[j - SRAM_OFFSET]
            } else {
                0
            },
            None => 0,
        }
    } else {
        0
    }
}

pub open spec fn opt_view(o: Option<&[u8]>) -> Option<Seq<u8>> {
    match o {
        Some(b) => Some(b@),
        None => None,
    }
}

/// The system save `data_008_0000.bin` a publication writes, from the
/// library's copy of it (for the settings) and the active pack's
/// `saves/sram.bin`, either of which may be missing.
pub fn data_008_image(flags: Option<&[u8]>, sram: Option<&[u8]>) -> (r: Vec<u8>)
    ensures
        r@.len() == DATA_008_SIZE,
        forall|j: int| 0 <= j < DATA_008_SIZE ==> #[trigger] r@[j] == data_008_byte(opt_view(flags), opt_view(sram), j),
{
    let mut buf: Vec<u8> = Vec::new();
    let mut j: usize = 0;
    while j < DATA_008_SIZE
        invariant
            j <= DATA_008_SIZE,
            buf@.len() == j,
            forall|q: int| 0 <= q < j ==> #[trigger] buf@[q] == data_008_byte(opt_view(flags), opt_view(sram), q),
        decreases DATA_008_SIZE - j,
    {
        let byte = if j < SRAM_OFFSET {
            match flags {
                Some(f) => if j < f.len() {
                    f[j]
                } else {
                    0
                },
                None => 0,
            }
        } else if j < SRAM_OFFSET + SRAM_GAME_COUNT * SRAM_BLOCK_SIZE {
            match sram {
                Some(s) => if j - SRAM_OFFSET < s.len() {
                    s[j - SRAM_OFFSET]
                } else {
                    0
                },
                None => 0,
            }
        } else {
            0
        };
        buf.push(byte);
        j = j + 1;
    }
    buf
}

/// Some byte among the first 4096 is not zero.
pub open spec fn probe_nonzero(d: Seq<u8>) -> bool {
    exists|i: int| 0 <= i < d.len() && i < USER_STATE_PROBE && #[trigger] d[i] != 0
}

/// Whether a published system save holds user settings: some byte among its
/// first 4096 is not zero. A missing file holds none.
pub fn has_user_state(data: Option<&[u8]>) -> (b: bool)
    ensures
        b == match data {
            Some(d) => probe_nonzero(d@),
            None => false,
        },
{
    match data {
        None => false,
        Some(d) => {
            let mut i: usize = 0;
            while i < d.len() && i < USER_STATE_PROBE
                invariant
                    data == Some(d),
                    i <= d@.len(),
                    i <= USER_STATE_PROBE,
                    forall|q: int| 0 <= q < i ==> #[trigger] d@[q] == 0,
                decreases d@.len() - i,
            {
                if d[i] != 0 {
                    assert(d@[i as int] != 0);
                    assert(probe_nonzero(d@));
                    return true;
                }
                i = i + 1;
            }
            false
        },
    }
}

/// The settings a sync captures from a published system save: its first
/// 0x5E80 bytes, or nothing when it is shorter.
pub fn backup_flags(data: &[u8]) -> (r: Option<Vec<u8>>)
    ensures
        data@.len() < BACKUP_FLAGS_SIZE ==> r is None,
        data@.len() >= BACKUP_FLAGS_SIZE ==> (r matches Some(f) && f@ == data@.take(BACKUP_FLAGS_SIZE as int)),
{
    if data.len() < BACKUP_FLAGS_SIZE {
        return None;
    }
    let mut out: Vec<u8> = Vec::new();
    let mut i: usize = 0;
    while i < BACKUP_FLAGS_SIZE
        invariant
            i <= BACKUP_FLAGS_SIZE <= data@.len(),
            out@ == data@.take(i as int),
        decreases BACKUP_FLAGS_SIZE - i,
    {
        out.push(data[i]);
        i = i + 1;
        assert(out@ =~= data@.take(i as int));
    }
    Some(out)
}

// ---- the metadata of the system save ----

/// The metadata the native loader reads before the system save: no
/// encryption, the MD5 digest of the data, its size (twice), the format
/// version and the time it was written.
pub open spec fn metadata_tree(data: Seq<u8>, timestamp: i64) -> ValueView {
    ValueView::Object(
        seq![
            ("CryptMagic"@, ValueView::Int(0)),
            ("Digest"@, ValueView::Stream(0, md5_digest(data))),
            ("FileSize"@, ValueView::Int(data.len() as i64)),
            ("FileVersion"@, ValueView::Int(0x10200)),
            ("OriginalSize"@, ValueView::Int(data.len() as i64)),
            ("TimeStamp"@, ValueView::Int(timestamp)),
        ],
    )
}

fn digest_vec(data: &[u8]) -> (v: Vec<u8>)
    ensures
        v@ == md5_digest(data@),
{
    let d = md5(data);
    let mut v: Vec<u8> = Vec::new();
    let mut i: usize = 0;
    while i < 16
        invariant
            i <= 16,
            d@.len() == 16,
            v@ == d@.take(i as int),
        decreases 16 - i,
    {
        v.push(d[i]);
        i = i + 1;
        assert(v@ =~= d@.take(i as int));
    }
    assert(d@.take(16) =~= d@);
    v
}

/// The metadata file (`meta_008_0000.bin`, a version 3 PSB file) of the
/// system save `data` written at `timestamp` (seconds since the epoch).
pub fn system_save_metadata(data: &[u8], timestamp: i64) -> (r: Result<Vec<u8>, Error>)
    ensures
        trie_fits(key_bytes(metadata_tree(data@, timestamp))) ==> r is Ok && (r matches Ok(b) ==> exists|
            t: TrieArrays,
        | #[trigger] written(b@, metadata_tree(data@, timestamp), 3, t)),
        !trie_fits(key_bytes(metadata_tree(data@, timestamp))) ==> (r matches Err(Error::Template(x)) && x@
            == keys_overflow_message()),
{
    let mut es: Vec<(String, Value)> = Vec::new();
    assert(view_entries(es@) =~= Seq::<(Seq<char>, ValueView)>::empty());
    push_entry(&mut es, "CryptMagic", Value::Int(0));
    push_entry(&mut es, "Digest", Value::Stream(Stream { index: 0, data: digest_vec(data) }));
    push_entry(&mut es, "FileSize", Value::Int(data.len() as i64));
    push_entry(&mut es, "FileVersion", Value::Int(0x10200));
    push_entry(&mut es, "OriginalSize", Value::Int(data.len() as i64));
    push_entry(&mut es, "TimeStamp", Value::Int(timestamp));
    assert(view_entries(es@) =~= seq![
        ("CryptMagic"@, ValueView::Int(0)),
        ("Digest"@, ValueView::Stream(0, md5_digest(data@))),
        ("FileSize"@, ValueView::Int(data@.len() as i64)),
        ("FileVersion"@, ValueView::Int(0x10200)),
        ("OriginalSize"@, ValueView::Int(data@.len() as i64)),
        ("TimeStamp"@, ValueView::Int(timestamp)),
    ]);
    let tree = Value::Object(es);
    if !keys_fit(&tree) {
        return Err(Error::Template(String::from_str("the key names of the generated file do not fit its key table")));
    }
    match crate::psb::writer::write(&tree, 3) {
        Ok(b) => {
            let r: Result<Vec<u8>, Error> = Ok(b);
            proof {
                let t0 = choose|t: TrieArrays| #[trigger] written(b@, tree@, 3, t);
                assert(r->Ok_0 == b);
                assert(written(r->Ok_0@, tree@, 3, t0));
            }
            r
        },
        Err(e) => Err(Error::Psb(e)),
    }
}

// ---- save-state files ----

/// First state slot of a lineup.
pub open spec fn lineup_slot_offset(lineup: LineupKind) -> nat {
    match lineup {
        LineupKind::Jp => 0,
        LineupKind::Us => LINEUP_SLOT_OFFSET_US as nat,
    }
}

/// The engine's slot of save state `save_slot` of the game at menu position
/// `game_index` of a pack of the given lineup.
pub fn state_slot(game_index: u16, save_slot: u16, lineup: LineupKind) -> (r: u16)
    requires
        game_index * SAVES_PER_GAME + save_slot + lineup_slot_offset(lineup) <= u16::MAX,
    ensures
        r == game_index * SAVES_PER_GAME + save_slot + lineup_slot_offset(lineup),
{
    let offset: u16 = match lineup {
        LineupKind::Jp => 0,
        LineupKind::Us => LINEUP_SLOT_OFFSET_US,
    };
    game_index * SAVES_PER_GAME + save_slot + offset
}

/// `n` in decimal, left-padded with zeros to `w` digits.
pub open spec fn padded(n: nat, w: nat) -> Seq<char> {
    let d = decimal(n);
    if d.len() >= w {
        d
    } else {
        Seq::new((w - d.len()) as nat, |i: int| '0') + d
    }
}

pub(crate) fn padded_text(n: u64, w: usize) -> (s: String)
    ensures
        s@ == padded(n as nat, w as nat),
{
    let d = decimal_string(n);
    let len = d.as_str().unicode_len();
    if len >= w {
        return d;
    }
    let mut s = String::new();
    let mut i: usize = 0;
    while i < w - len
        invariant
            i <= w - len,
            s@ == Seq::new(i as nat, |q: int| '0'),
        decreases w - len - i,
    {
        s.append("0");
        i = i + 1;
        proof {
            reveal_strlit("0");
        }
        assert(s@ =~= Seq::new(i as nat, |q: int| '0'));
    }
    s.append(d.as_str());
    s
}

/// The engine's names of a state file and of its metadata:
/// `data_TTT_SSSS.bin` and `meta_TTT_SSSS.bin`.
pub fn state_file_names(seg_type: u16, slot: u16) -> (r: (String, String))
    ensures
        r.0@ == "data_"@ + padded(seg_type as nat, 3) + "_"@ + padded(slot as nat, 4) + ".bin"@,
        r.1@ == "meta_"@ + padded(seg_type as nat, 3) + "_"@ + padded(slot as nat, 4) + ".bin"@,
{
    let t = padded_text(seg_type as u64, 3);
    let s = padded_text(slot as u64, 4);
    let mut data = String::from_str("data_");
    data.append(t.as_str());
    data.append("_");
    data.append(s.as_str());
    data.append(".bin");
    let mut meta = String::from_str("meta_");
    meta.append(t.as_str());
    meta.append("_");
    meta.append(s.as_str());
    meta.append(".bin");
    (data, meta)
}

pub open spec fn starts_with(s: Seq<char>, p: Seq<char>) -> bool {
    s.len() >= p.len() && s.take(p.len() as int) == p
}

pub open spec fn ends_with(s: Seq<char>, p: Seq<char>) -> bool {
    s.len() >= p.len() && s.skip(s.len() - p.len()) == p
}

pub(crate) fn has_prefix(s: &str, p: &str) -> (b: bool)
    ensures
        b == starts_with(s@, p@),
{
    let n = s.unicode_len();
    let m = p.unicode_len();
    if n < m {
        return false;
    }
    let mut i: usize = 0;
    while i < m
        invariant
            i <= m <= n,
            n == s@.len(),
            m == p@.len(),
            forall|q: int| 0 <= q < i ==> s@[q] == p@[q],
        decreases m - i,
    {
        if s.get_char(i) != p.get_char(i) {
            assert(s@.take(m as int)[i as int] != p@[i as int]);
            return false;
        }
        i = i + 1;
    }
    assert(s@.take(m as int) =~= p@);
    true
}

fn has_suffix(s: &str, p: &str) -> (b: bool)
    ensures
        b == ends_with(s@, p@),
{
    let n = s.unicode_len();
    let m = p.unicode_len();
    if n < m {
        return false;
    }
    let mut i: usize = 0;
    while i < m
        invariant
            i <= m <= n,
            n == s@.len(),
            m == p@.len(),
            forall|q: int| 0 <= q < i ==> s@[n - m + q] == p@[q],
        decreases m - i,
    {
        if s.get_char(n - m + i) != p.get_char(i) {
            assert(s@.skip(n - m)[i as int] != p@[i as int]);
            return false;
        }
        i = i + 1;
    }
    assert(s@.skip(n - m) =~= p@);
    true
}

/// Whether a file of a pack's `saves/` directory is a state file (or its
/// metadata) that a publication rewrites.
pub fn is_pack_state_file(name: &str) -> (b: bool)
    ensures
        b == ((starts_with(name@, "data_011_"@) || starts_with(name@, "data_012_"@) || starts_with(
            name@,
            "meta_011_"@,
        ) || starts_with(name@, "meta_012_"@)) && ends_with(name@, ".bin"@)),
{
    (has_prefix(name, "data_011_") || has_prefix(name, "data_012_") || has_prefix(name, "meta_011_")
        || has_prefix(name, "meta_012_")) && has_suffix(name, ".bin")
}

// ---- reading state files back ----

pub open spec fn is_digit(c: char) -> bool {
    '0' <= c && c <= '9'
}

/// The value of a string of decimal digits.
pub open spec fn digits_value(s: Seq<char>) -> nat
    decreases s.len(),
{
    if s.len() == 0 {
        0
    } else {
        (digits_value(s.drop_last()) * 10 + (s.last() as int - 48)) as nat
    }
}

/// An unsigned number as `str::parse` reads it: an optional `+`, then at
/// least one decimal digit, for a value of at most `max`.
pub open spec fn parse_uint(s: Seq<char>, max: nat) -> Option<nat> {
    let b = unsigned_part(s);
    if b.len() == 0 || !(forall|i: int| 0 <= i < b.len() ==> is_digit(#[trigger] b[i])) {
        None
    } else if digits_value(b) > max {
        None
    } else {
        Some(digits_value(b))
    }
}

proof fn lemma_digits_grow(b: Seq<char>, i: int)
    requires
        0 <= i <= b.len(),
        forall|q: int| 0 <= q < b.len() ==> is_digit(#[trigger] b[q]),
    ensures
        digits_value(b.take(i)) <= digits_value(b),
    decreases b.len() - i,
{
    if i < b.len() {
        lemma_digits_grow(b, i + 1);
        assert(b.take(i + 1).drop_last() =~= b.take(i));
        assert(b.take(i + 1).last() == b[i]);
    } else {
        assert(b.take(i) =~= b);
    }
}

/// The digits part of a number: without its `+` sign.
pub open spec fn unsigned_part(s: Seq<char>) -> Seq<char> {
    if s.len() > 0 && s[0] == '+' {
        s.drop_first()
    } else {
        s
    }
}

proof fn lemma_parse_rejects(s: Seq<char>, max: nat, j: int)
    requires
        0 <= j < unsigned_part(s).len(),
        !is_digit(unsigned_part(s)[j]),
    ensures
        parse_uint(s, max) is None,
{
}

proof fn lemma_parse_too_big(s: Seq<char>, max: nat, i: int)
    requires
        0 <= i <= unsigned_part(s).len(),
        digits_value(unsigned_part(s).take(i)) > max,
        forall|q: int| 0 <= q < i ==> is_digit(#[trigger] unsigned_part(s)[q]),
    ensures
        parse_uint(s, max) is None,
{
    let b = unsigned_part(s);
    if forall|q: int| 0 <= q < b.len() ==> is_digit(#[trigger] b[q]) {
        lemma_digits_grow(b, i);
    }
}

pub(crate) fn parse_uint_text(s: &str, max: u64) -> (r: Option<u64>)
    ensures
        r matches Some(v) ==> parse_uint(s@, max as nat) == Some(v as nat),
        r is None ==> parse_uint(s@, max as nat) is None,
{
    let n = s.unicode_len();
    let start: usize = if n > 0 && s.get_char(0) == '+' {
        1
    } else {
        0
    };
    let ghost b = unsigned_part(s@);
    assert(b =~= s@.skip(start as int));
    if start == n {
        return None;
    }
    let mut v: u128 = 0;
    let mut i: usize = start;
    while i < n
        invariant
            start <= i <= n,
            n == s@.len(),
            b == s@.skip(start as int),
            b == unsigned_part(s@),
            v == digits_value(b.take(i - start)),
            v <= max,
            forall|q: int| 0 <= q < i - start ==> is_digit(#[trigger] b[q]),
        decreases n - i,
    {
        let c = s.get_char(i);
        assert(c == b[i - start]);
        if !(c >= '0' && c <= '9') {
            proof {
                lemma_parse_rejects(s@, max as nat, i - start);
            }
            return None;
        }
        let d = (c as u32 - 48) as u128;
        assert(b.take(i - start + 1).drop_last() =~= b.take(i - start));
        assert(b.take(i - start + 1).last() == c);
        v = v * 10 + d;
        i = i + 1;
        if v > max as u128 {
            proof {
                lemma_parse_too_big(s@, max as nat, i - start);
            }
            return None;
        }
    }
    assert(b.take(n - start) =~= b);
    Some(v as u64)
}

/// Position of the first `c` in `s`, or -1.
pub open spec fn first_index_of(s: Seq<char>, c: char) -> int
    decreases s.len(),
{
    if s.len() == 0 {
        -1
    } else if s[0] == c {
        0
    } else {
        let r = first_index_of(s.drop_first(), c);
        if r < 0 {
            -1
        } else {
            r + 1
        }
    }
}

pub(crate) proof fn lemma_first_index_of(s: Seq<char>, c: char, k: int)
    requires
        0 <= k <= s.len(),
        forall|q: int| 0 <= q < k ==> #[trigger] s[q] != c,
        k == s.len() || s[k] == c,
    ensures
        first_index_of(s, c) == if k == s.len() {
            -1
        } else {
            k
        },
    decreases s.len(),
{
    if s.len() > 0 && k > 0 {
        assert forall|q: int| 0 <= q < k - 1 implies #[trigger] s.drop_first()[q] != c by {
            assert(s.drop_first()[q] == s[q + 1]);
        }
        lemma_first_index_of(s.drop_first(), c, k - 1);
    }
}

/// Segment type and slot of a pack's state file `data_TTT_SSSS.bin`, for the
/// two state segment types 11 and 12; `None` for any other file.
pub open spec fn state_file_parts(name: Seq<char>) -> Option<(u16, usize)> {
    if !ends_with(name, ".bin"@) {
        None
    } else {
        let stem = name.take(name.len() - 4);
        if !starts_with(stem, "data_"@) {
            None
        } else {
            let body = stem.skip(5);
            let k = first_index_of(body, '_');
            if k < 0 {
                None
            } else {
                match parse_uint(body.take(k), u16::MAX as nat) {
                    None => None,
                    Some(t) => if t != 11 && t != 12 {
                        None
                    } else {
                        match parse_uint(body.skip(k + 1), usize::MAX as nat) {
                            None => None,
                            Some(v) => Some((t as u16, v as usize)),
                        }
                    },
                }
            }
        }
    }
}

/// Segment type and slot of a state file name (see `state_file_parts`).
pub fn parse_state_filename(name: &str) -> (r: Option<(u16, usize)>)
    ensures
        r == state_file_parts(name@),
{
    proof {
        reveal_strlit(".bin");
        reveal_strlit("data_");
    }
    if !has_suffix(name, ".bin") {
        return None;
    }
    let n = name.unicode_len();
    let stem = name.substring_char(0, n - 4);
    assert(stem@ =~= name@.take(n - 4));
    if !has_prefix(stem, "data_") {
        return None;
    }
    let body = stem.substring_char(5, n - 4);
    assert(body@ =~= stem@.skip(5));
    let bl = body.unicode_len();
    let mut k: usize = 0;
    while k < bl && body.get_char(k) != '_'
        invariant
            k <= bl,
            bl == body@.len(),
            forall|q: int| 0 <= q < k ==> #[trigger] body@[q] != '_',
        decreases bl - k,
    {
        k = k + 1;
    }
    proof {
        lemma_first_index_of(body@, '_', k as int);
    }
    if k == bl {
        return None;
    }
    let ttt = body.substring_char(0, k);
    let sss = body.substring_char(k + 1, bl);
    assert(ttt@ =~= body@.take(k as int));
    assert(sss@ =~= body@.skip(k + 1));
    let t = match parse_uint_text(ttt, 65535) {
        Some(t) => t,
        None => {
            return None;
        },
    };
    if t != 11 && t != 12 {
        return None;
    }
    match parse_uint_text(sss, usize::MAX as u64) {
        Some(v) => Some((t as u16, v as usize)),
        None => None,
    }
}

// ---- sync: where a pack's saves belong in the library ----

/// The library game an SRAM block of a pack belongs to.
#[derive(Debug, Clone, Copy, PartialEq, Eq)]
pub enum SramTarget {
    /// The folder's back card, which has no game.
    BackCard,
    /// The game at this position of the pack's game list.
    Game(usize),
    /// A position past the pack's games.
    Unmapped,
}

/// Which game SRAM block `slot` of a pack with `games` games belongs to; a
/// folder pack's slot 0 is its back card.
pub fn sram_target(slot: usize, folder_pack: bool, games: usize) -> (r: SramTarget)
    ensures
        folder_pack && slot == 0 ==> r == SramTarget::BackCard,
        !(folder_pack && slot == 0) ==> ({
            let idx = if folder_pack {
                slot - 1
            } else {
                slot as int
            };
            &&& idx < games ==> r == SramTarget::Game(idx as usize)
            &&& idx >= games ==> r == SramTarget::Unmapped
        }),
{
    let offset: usize = if folder_pack {
        1
    } else {
        0
    };
    if slot < offset {
        return SramTarget::BackCard;
    }
    let idx = slot - offset;
    if idx >= games {
        SramTarget::Unmapped
    } else {
        SramTarget::Game(idx)
    }
}

/// The game position and save slot a pack's state file with engine slot
/// `slot` belongs to, `None` when it is past the pack's games or falls on a
/// folder pack's back card (menu position 0, which has no game). The US
/// lineup's slots start at 200; a folder pack's first game is at menu
/// position 1.
pub fn state_target(slot: usize, us: bool, folder_pack: bool, games: usize) -> (r: Option<(usize, usize)>)
    ensures
        ({
            let off = if us {
                LINEUP_SLOT_OFFSET_US as int
            } else {
                0
            };
            let local = if slot >= off {
                slot - off
            } else {
                0
            };
            let pos = if folder_pack {
                1int
            } else {
                0
            };
            let g = local / 4;
            let idx = g - pos;
            &&& g < pos ==> r is None
            &&& g >= pos && idx < games ==> r == Some((idx as usize, (local % 4) as usize))
            &&& g >= pos && idx >= games ==> r is None
        }),
{
    let off: usize = if us {
        LINEUP_SLOT_OFFSET_US as usize
    } else {
        0
    };
    let local = if slot >= off {
        slot - off
    } else {
        0
    };
    let pos: usize = if folder_pack {
        1
    } else {
        0
    };
    let g = local / SAVES_PER_GAME as usize;
    if g < pos {
        return None;
    }
    let idx = g - pos;
    if idx >= games {
        None
    } else {
        Some((idx, local % SAVES_PER_GAME as usize))
    }
}

/// Whether an SRAM block holds nothing (all zeros): sync skips those.
pub fn all_zero(block: &[u8]) -> (b: bool)
    ensures
        b == forall|i: int| 0 <= i < block@.len() ==> #[trigger] block@[i] == 0,
{
    let mut i: usize = 0;
    while i < block.len()
        invariant
            i <= block@.len(),
            forall|q: int| 0 <= q < i ==> #[trigger] block@[q] == 0,
        decreases block@.len() - i,
    {
        if block[i] != 0 {
            return false;
        }
        i = i + 1;
    }
    true
}

/// The 150 SRAM blocks starting at `at` in `data` (0 for a pack's
/// `sram.bin`, `SRAM_OFFSET` for the live system save), or nothing when the
/// data is too short.
pub fn sram_slice(data: &[u8], at: usize) -> (r: Option<Vec<u8>>)
    ensures
        at + SRAM_GAME_COUNT * SRAM_BLOCK_SIZE > data@.len() ==> r is None,
        at + SRAM_GAME_COUNT * SRAM_BLOCK_SIZE <= data@.len() ==> (r matches Some(v) && v@ == data@.subrange(
            at as int,
            at + SRAM_GAME_COUNT * SRAM_BLOCK_SIZE,
        )),
{
    let size = SRAM_GAME_COUNT * SRAM_BLOCK_SIZE;
    if data.len() < size || at > data.len() - size {
        return None;
    }
    let mut out: Vec<u8> = Vec::new();
    let mut i: usize = 0;
    while i < size
        invariant
            i <= size,
            size == SRAM_GAME_COUNT * SRAM_BLOCK_SIZE,
            at + size <= data.len(),
            out@ == data@.subrange(at as int, at + i),
        decreases size - i,
    {
        out.push(data[at + i]);
        i = i + 1;
        assert(out@ =~= data@.subrange(at as int, at + i));
    }
    Some(out)
}

// ---- a state file's name reads back as its segment type and slot ----

pub(crate) proof fn lemma_decimal_digits(n: nat)
    ensures
        decimal(n).len() >= 1,
        forall|i: int| 0 <= i < decimal(n).len() ==> is_digit(#[trigger] decimal(n)[i]),
        digits_value(decimal(n)) == n,
    decreases n,
{
    if n >= 10 {
        lemma_decimal_digits(n / 10);
        let d = decimal(n / 10);
        let c = (48 + n % 10) as char;
        assert(c as int == 48 + n % 10);
        assert(decimal(n) == d.push(c));
        assert(decimal(n).drop_last() =~= d);
        assert(decimal(n).last() == c);
        assert(n == (n / 10) * 10 + n % 10);
        assert(digits_value(decimal(n)) == (digits_value(d) * 10 + (c as int - 48)) as nat);
        assert forall|i: int| 0 <= i < decimal(n).len() implies is_digit(#[trigger] decimal(n)[i]) by {
            if i < d.len() {
                assert(decimal(n)[i] == d[i]);
            }
        }
    } else {
        let c = (48 + n) as char;
        assert(c as int == 48 + n);
        assert(decimal(n) == seq![c]);
        assert(seq![c].drop_last() =~= Seq::<char>::empty());
        assert(seq![c].last() == c);
        assert(digits_value(seq![c].drop_last()) == 0);
        assert(digits_value(seq![c]) == (0 * 10 + (c as int - 48)) as nat);
    }
}

proof fn lemma_zeros_value(k: nat)
    ensures
        digits_value(Seq::new(k, |i: int| '0')) == 0,
    decreases k,
{
    if k > 0 {
        assert(Seq::new(k, |i: int| '0').drop_last() =~= Seq::new((k - 1) as nat, |i: int| '0'));
        lemma_zeros_value((k - 1) as nat);
    }
}

proof fn lemma_leading_zeros(z: Seq<char>, d: Seq<char>)
    requires
        digits_value(z) == 0,
    ensures
        digits_value(z + d) == digits_value(d),
    decreases d.len(),
{
    if d.len() == 0 {
        assert(z + d =~= z);
    } else {
        assert((z + d).drop_last() =~= z + d.drop_last());
        lemma_leading_zeros(z, d.drop_last());
    }
}

proof fn lemma_padded(n: nat, w: nat)
    ensures
        padded(n, w).len() >= 1,
        forall|i: int| 0 <= i < padded(n, w).len() ==> is_digit(#[trigger] padded(n, w)[i]),
        digits_value(padded(n, w)) == n,
{
    lemma_decimal_digits(n);
    let d = decimal(n);
    if d.len() < w {
        let z = Seq::new((w - d.len()) as nat, |i: int| '0');
        lemma_zeros_value((w - d.len()) as nat);
        lemma_leading_zeros(z, d);
        assert forall|i: int| 0 <= i < padded(n, w).len() implies is_digit(#[trigger] padded(n, w)[i]) by {
            if i >= z.len() {
                assert(padded(n, w)[i] == d[i - z.len()]);
            }
        }
    }
}

proof fn lemma_parse_digits(s: Seq<char>, max: nat)
    requires
        s.len() >= 1,
        forall|i: int| 0 <= i < s.len() ==> is_digit(#[trigger] s[i]),
        digits_value(s) <= max,
    ensures
        parse_uint(s, max) == Some(digits_value(s)),
{
    assert(is_digit(s[0]));
    assert(unsigned_part(s) == s);
}

/// The names publication gives a pack's state files read back, on sync, as
/// the segment type and slot they were made from.
pub proof fn lemma_state_name_roundtrip(seg_type: u16, slot: u16)
    requires
        seg_type == 11 || seg_type == 12,
    ensures
        state_file_parts("data_"@ + padded(seg_type as nat, 3) + "_"@ + padded(slot as nat, 4) + ".bin"@) == Some(
            (seg_type, slot as usize),
        ),
{
    reveal_strlit("data_");
    reveal_strlit("_");
    reveal_strlit(".bin");
    let p3 = padded(seg_type as nat, 3);
    let p4 = padded(slot as nat, 4);
    lemma_padded(seg_type as nat, 3);
    lemma_padded(slot as nat, 4);
    let name = "data_"@ + p3 + "_"@ + p4 + ".bin"@;
    assert(ends_with(name, ".bin"@)) by {
        assert(name.skip(name.len() - 4) =~= ".bin"@);
    }
    let stem = name.take(name.len() - 4);
    assert(stem =~= "data_"@ + p3 + "_"@ + p4);
    assert(starts_with(stem, "data_"@)) by {
        assert(stem.take(5) =~= "data_"@);
    }
    let body = stem.skip(5);
    assert(body =~= p3 + "_"@ + p4);
    assert forall|q: int| 0 <= q < p3.len() implies #[trigger] body[q] != '_' by {
        assert(body[q] == p3[q]);
        assert(is_digit(p3[q]));
    }
    assert(body[p3.len() as int] == '_');
    lemma_first_index_of(body, '_', p3.len() as int);
    let k = p3.len() as int;
    assert(body.take(k) =~= p3);
    assert(body.skip(k + 1) =~= p4);
    lemma_parse_digits(p3, u16::MAX as nat);
    lemma_parse_digits(p4, usize::MAX as nat);
}

} // verus!
