//! The emulator profile of a folder pack (`title_prof`): which ROM each menu
//! entry plays and which version label it shows. Everything else in the
//! stock profile (controller set-up and the like) is kept as it is.
use vstd::prelude::*;
use vstd::string::StrSliceExecFns;
use vstd::string::StringExecFns;
use vstd::string::StringSliceAdditionalSpecFns;
use vstd::utf8::encode_utf8;
use crate::psb::format::{decimal, file_readable, read_file, read_result};
use crate::psb::layout::TrieArrays;
use crate::psb::reader::{decimal_string, read};
use crate::psb::value::{
    Value, ValueView, find_key, insert_entry, lemma_find_key, lemma_view_entries_len, lemma_view_entries_push,
    lemma_view_values_push, object_insert, view_entries, view_values, lookup, lemma_lookup_concat,
    lemma_find_key_absent, lemma_find_key_at,
};
use crate::psb::writer::{key_bytes, keys_fit, written};
use crate::psb::trie::trie_fits;
use crate::publish::{Error, Failure, Game, GameRom, failed_as, file_name, last_component, written_or_refused};

verus! {

/// `n` in decimal, zero-padded to at least three digits.
pub open spec fn pad3(n: nat) -> Seq<char> {
    if n < 10 {
        "00"@ + decimal(n)
    } else if n < 100 {
        "0"@ + decimal(n)
    } else {
        decimal(n)
    }
}

pub(crate) fn pad3_text(n: u64) -> (s: String)
    ensures
        s@ == pad3(n as nat),
{
    let d = decimal_string(n);
    if n < 10 {
        let mut s = String::from_str("00");
        s.append(d.as_str());
        s
    } else if n < 100 {
        let mut s = String::from_str("0");
        s.append(d.as_str());
        s
    } else {
        d
    }
}

/// Whether a file name ends in `.m` (in either case).
pub open spec fn ends_with_dot_m(s: Seq<char>) -> bool {
    s.len() >= 2 && s[s.len() - 2] == '.' && (s[s.len() - 1] == 'm' || s[s.len() - 1] == 'M')
}

/// The ROM's name as the profile stores it: its file name without a
/// trailing `.m` (the engine appends that itself).
pub open spec fn profile_rom_name(p: Seq<char>) -> Seq<char> {
    let bn = last_component(p);
    if ends_with_dot_m(bn) {
        bn.subrange(0, bn.len() - 2)
    } else {
        bn
    }
}

fn basename(p: &str) -> (r: String)
    ensures
        r@ == profile_rom_name(p@),
{
    let bn = file_name(p);
    let n = bn.as_str().unicode_len();
    if n >= 2 {
        let a = bn.as_str().get_char(n - 2);
        let b = bn.as_str().get_char(n - 1);
        if a == '.' && (b == 'm' || b == 'M') {
            return String::from_str(bn.as_str().substring_char(0, n - 2));
        }
    }
    bn
}

/// An entry for an optional text field.
pub open spec fn opt_text_entry(k: Seq<char>, o: Option<String>) -> Seq<(Seq<char>, ValueView)> {
    match o {
        Some(s) => seq![(k, ValueView::Str(s@))],
        None => Seq::empty(),
    }
}

/// An entry for an optional number field.
pub open spec fn opt_int_entry(k: Seq<char>, o: Option<u32>) -> Seq<(Seq<char>, ValueView)> {
    match o {
        Some(n) => seq![(k, ValueView::Int(n as i64))],
        None => Seq::empty(),
    }
}

/// The machine a ROM runs on: folder cards run as HuCards (the engine
/// tolerates a missing HuCard ROM, also at boot).
pub open spec fn machine(rom: GameRom) -> Seq<char> {
    if rom.arch@ == "folder"@ {
        "tg16"@
    } else {
        rom.arch@
    }
}

/// The emulator profile of a ROM.
pub open spec fn rom_entry(rom: GameRom) -> ValueView {
    ValueView::Object(
        seq![
            ("arch"@, ValueView::Str(machine(rom))),
            ("country"@, ValueView::Str(rom.country@)),
            ("preamp"@, ValueView::Float(rom.preamp)),
            ("rom"@, ValueView::Str("roms/"@ + profile_rom_name(rom.rom@))),
        ] + opt_text_entry("tg16cd_systemcard"@, rom.tg16cd_systemcard) + opt_int_entry(
            "tg16_option"@,
            rom.tg16_option,
        ) + opt_int_entry("tg16pad_type"@, rom.tg16pad_type),
    )
}

/// A single entry gives its key its value, and no other key anything.
pub proof fn lemma_lookup_single(k: Seq<char>, v: ValueView, k2: Seq<char>)
    ensures
        k2 == k ==> lookup(seq![(k, v)], k2) == Some(v),
        k2 != k ==> lookup(seq![(k, v)], k2) is None,
{
    let s1 = seq![(k, v)];
    assert(s1.drop_last() =~= Seq::<(Seq<char>, ValueView)>::empty());
    assert(s1.last().0 == k);
    assert(find_key(Seq::<(Seq<char>, ValueView)>::empty(), k2) == -1);
    assert(find_key(s1, k2) == if k2 == k { 0 } else { find_key(s1.drop_last(), k2) });
}

proof fn lemma_rom_option_key(
    rom: GameRom,
    base: Seq<(Seq<char>, ValueView)>,
    key: Seq<char>,
    others: Seq<Seq<char>>,
)
    requires
        base.len() == 4,
        forall|j: int| 0 <= j < 4 ==> #[trigger] base[j].0 != key,
        others.len() == 3,
        others[0] == "tg16cd_systemcard"@,
        others[1] == "tg16_option"@,
        others[2] == "tg16pad_type"@,
        key == others[0] || key == others[1] || key == others[2],
        forall|i: int, j: int| 0 <= i < j < 3 ==> others[i] != others[j],
    ensures
        ({
            let es = base + opt_text_entry("tg16cd_systemcard"@, rom.tg16cd_systemcard) + opt_int_entry(
                "tg16_option"@,
                rom.tg16_option,
            ) + opt_int_entry("tg16pad_type"@, rom.tg16pad_type);
            let o1 = opt_text_entry("tg16cd_systemcard"@, rom.tg16cd_systemcard);
            let o2 = opt_int_entry("tg16_option"@, rom.tg16_option);
            let o3 = opt_int_entry("tg16pad_type"@, rom.tg16pad_type);
            let want = if key == others[2] {
                lookup(o3, key)
            } else if key == others[1] {
                lookup(o2, key)
            } else {
                lookup(o1, key)
            };
            lookup(es, key) == want
        }),
{
    let o1 = opt_text_entry("tg16cd_systemcard"@, rom.tg16cd_systemcard);
    let o2 = opt_int_entry("tg16_option"@, rom.tg16_option);
    let o3 = opt_int_entry("tg16pad_type"@, rom.tg16pad_type);
    match rom.tg16cd_systemcard {
        Some(c) => lemma_lookup_single("tg16cd_systemcard"@, ValueView::Str(c@), key),
        None => lemma_find_key_absent(o1, key),
    }
    match rom.tg16_option {
        Some(n) => lemma_lookup_single("tg16_option"@, ValueView::Int(n as i64), key),
        None => lemma_find_key_absent(o2, key),
    }
    match rom.tg16pad_type {
        Some(n) => lemma_lookup_single("tg16pad_type"@, ValueView::Int(n as i64), key),
        None => lemma_find_key_absent(o3, key),
    }
    lemma_find_key_absent(base, key);
    lemma_lookup_concat(base + o1 + o2, o3, key);
    lemma_lookup_concat(base + o1, o2, key);
    lemma_lookup_concat(base, o1, key);
}

/// The optional settings of a ROM's profile are exactly those the ROM has:
/// `tg16pad_type`, `tg16_option` and `tg16cd_systemcard` appear with the
/// ROM's value when it has one, and are absent otherwise.
pub proof fn lemma_rom_entry_options(rom: GameRom)
    ensures
        rom.tg16pad_type matches Some(n) ==> lookup(crate::title_mode_top::entries_of(rom_entry(rom)), "tg16pad_type"@)
            == Some(ValueView::Int(n as i64)),
        rom.tg16pad_type is None ==> lookup(crate::title_mode_top::entries_of(rom_entry(rom)), "tg16pad_type"@)
            is None,
        rom.tg16_option matches Some(n) ==> lookup(crate::title_mode_top::entries_of(rom_entry(rom)), "tg16_option"@)
            == Some(ValueView::Int(n as i64)),
        rom.tg16_option is None ==> lookup(crate::title_mode_top::entries_of(rom_entry(rom)), "tg16_option"@)
            is None,
        rom.tg16cd_systemcard matches Some(c) ==> lookup(
            crate::title_mode_top::entries_of(rom_entry(rom)),
            "tg16cd_systemcard"@,
        ) == Some(ValueView::Str(c@)),
        rom.tg16cd_systemcard is None ==> lookup(
            crate::title_mode_top::entries_of(rom_entry(rom)),
            "tg16cd_systemcard"@,
        ) is None,
{
    reveal_strlit("arch");
    reveal_strlit("country");
    reveal_strlit("preamp");
    reveal_strlit("rom");
    reveal_strlit("tg16cd_systemcard");
    reveal_strlit("tg16_option");
    reveal_strlit("tg16pad_type");
    let base = seq![
        ("arch"@, ValueView::Str(machine(rom))),
        ("country"@, ValueView::Str(rom.country@)),
        ("preamp"@, ValueView::Float(rom.preamp)),
        ("rom"@, ValueView::Str("roms/"@ + profile_rom_name(rom.rom@))),
    ];
    let others = seq!["tg16cd_systemcard"@, "tg16_option"@, "tg16pad_type"@];
    assert("arch"@.len() == 4 && "country"@.len() == 7 && "preamp"@.len() == 6 && "rom"@.len() == 3);
    assert("tg16cd_systemcard"@.len() == 17 && "tg16_option"@.len() == 11 && "tg16pad_type"@.len() == 12);
    assert(others[0] != others[1] && others[0] != others[2] && others[1] != others[2]);
    assert(forall|j: int| 0 <= j < 4 ==> #[trigger] base[j].0 != "tg16pad_type"@ && base[j].0 != "tg16_option"@
        && base[j].0 != "tg16cd_systemcard"@);
    lemma_rom_option_key(rom, base, "tg16pad_type"@, others);
    lemma_rom_option_key(rom, base, "tg16_option"@, others);
    lemma_rom_option_key(rom, base, "tg16cd_systemcard"@, others);
    match rom.tg16pad_type {
        Some(n) => lemma_lookup_single("tg16pad_type"@, ValueView::Int(n as i64), "tg16pad_type"@),
        None => {},
    }
    match rom.tg16_option {
        Some(n) => lemma_lookup_single("tg16_option"@, ValueView::Int(n as i64), "tg16_option"@),
        None => {},
    }
    match rom.tg16cd_systemcard {
        Some(c) => lemma_lookup_single("tg16cd_systemcard"@, ValueView::Str(c@), "tg16cd_systemcard"@),
        None => {},
    }
}

/// A ROM's profile runs it on its machine (a folder card as a HuCard), in its
/// country, at its preamp, from its ROM file under `roms/`.
pub proof fn lemma_rom_entry_fields(rom: GameRom)
    ensures
        rom.arch@ == "folder"@ ==> lookup(crate::title_mode_top::entries_of(rom_entry(rom)), "arch"@) == Some(
            ValueView::Str("tg16"@),
        ),
        rom.arch@ != "folder"@ ==> lookup(crate::title_mode_top::entries_of(rom_entry(rom)), "arch"@) == Some(
            ValueView::Str(rom.arch@),
        ),
        lookup(crate::title_mode_top::entries_of(rom_entry(rom)), "country"@) == Some(ValueView::Str(rom.country@)),
        lookup(crate::title_mode_top::entries_of(rom_entry(rom)), "preamp"@) == Some(ValueView::Float(rom.preamp)),
        lookup(crate::title_mode_top::entries_of(rom_entry(rom)), "rom"@) == Some(
            ValueView::Str("roms/"@ + profile_rom_name(rom.rom@)),
        ),
{
    reveal_strlit("arch");
    reveal_strlit("country");
    reveal_strlit("preamp");
    reveal_strlit("rom");
    reveal_strlit("tg16cd_systemcard");
    reveal_strlit("tg16_option");
    reveal_strlit("tg16pad_type");
    assert("arch"@.len() == 4 && "country"@.len() == 7 && "preamp"@.len() == 6 && "rom"@.len() == 3);
    assert("tg16cd_systemcard"@.len() == 17 && "tg16_option"@.len() == 11 && "tg16pad_type"@.len() == 12);
    let base = seq![
        ("arch"@, ValueView::Str(machine(rom))),
        ("country"@, ValueView::Str(rom.country@)),
        ("preamp"@, ValueView::Float(rom.preamp)),
        ("rom"@, ValueView::Str("roms/"@ + profile_rom_name(rom.rom@))),
    ];
    let o1 = opt_text_entry("tg16cd_systemcard"@, rom.tg16cd_systemcard);
    let o2 = opt_int_entry("tg16_option"@, rom.tg16_option);
    let o3 = opt_int_entry("tg16pad_type"@, rom.tg16pad_type);
    let keys = seq!["arch"@, "country"@, "preamp"@, "rom"@];
    assert forall|q: int| 0 <= q < 4 implies lookup(base + o1 + o2 + o3, #[trigger] keys[q]) == Some(base[q].1) by {
        let k = keys[q];
        assert(base[q].0 == k);
        lemma_find_key_at(base, k, q);
        lemma_find_key_absent(o1, k);
        lemma_find_key_absent(o2, k);
        lemma_find_key_absent(o3, k);
        lemma_lookup_concat(base + o1 + o2, o3, k);
        lemma_lookup_concat(base + o1, o2, k);
        lemma_lookup_concat(base, o1, k);
    }
    assert(keys[0] == "arch"@ && keys[1] == "country"@ && keys[2] == "preamp"@ && keys[3] == "rom"@);
}

pub(crate) fn push_entry(es: &mut Vec<(String, Value)>, k: &str, v: Value)
    ensures
        view_entries(final(es)@) == view_entries(old(es)@).push((k@, v@)),
{
    let key = String::from_str(k);
    proof {
        lemma_view_entries_push(es@, (key, v));
    }
    es.push((key, v));
}

fn build_rom_entry(rom: &GameRom) -> (v: Value)
    ensures
        v@ == rom_entry(*rom),
{
    let mut es: Vec<(String, Value)> = Vec::new();
    assert(view_entries(es@) =~= Seq::<(Seq<char>, ValueView)>::empty());
    let folder = String::from_str("folder");
    let arch = if rom.arch == folder {
        String::from_str("tg16")
    } else {
        rom.arch.clone()
    };
    push_entry(&mut es, "arch", Value::String(arch));
    push_entry(&mut es, "country", Value::String(rom.country.clone()));
    push_entry(&mut es, "preamp", Value::Float(rom.preamp));
    let mut path = String::from_str("roms/");
    let name = basename(rom.rom.as_str());
    path.append(name.as_str());
    push_entry(&mut es, "rom", Value::String(path));
    let ghost base = view_entries(es@);
    assert(base =~= seq![
        ("arch"@, ValueView::Str(machine(*rom))),
        ("country"@, ValueView::Str(rom.country@)),
        ("preamp"@, ValueView::Float(rom.preamp)),
        ("rom"@, ValueView::Str("roms/"@ + profile_rom_name(rom.rom@))),
    ]);
    match &rom.tg16cd_systemcard {
        Some(sc) => push_entry(&mut es, "tg16cd_systemcard", Value::String(sc.clone())),
        None => {},
    }
    let ghost with_card = view_entries(es@);
    match rom.tg16_option {
        Some(o) => push_entry(&mut es, "tg16_option", Value::Int(o as i64)),
        None => {},
    }
    let ghost with_option = view_entries(es@);
    match rom.tg16pad_type {
        Some(t) => push_entry(&mut es, "tg16pad_type", Value::Int(t as i64)),
        None => {},
    }
    proof {
        assert(view_entries(Seq::<(String, Value)>::empty()) =~= Seq::<(Seq<char>, ValueView)>::empty());
        assert(with_card =~= base + opt_text_entry("tg16cd_systemcard"@, rom.tg16cd_systemcard));
        assert(with_option =~= with_card + opt_int_entry("tg16_option"@, rom.tg16_option));
        assert(view_entries(es@) =~= with_option + opt_int_entry("tg16pad_type"@, rom.tg16pad_type));
    }
    Value::Object(es)
}

/// A map after inserting `v` under an alternative region tag, unless the tag
/// is missing, empty or `NO`.
pub open spec fn insert_alt(m: Seq<(Seq<char>, ValueView)>, tag: Option<String>, v: ValueView) -> Seq<
    (Seq<char>, ValueView),
> {
    match tag {
        Some(t) => if t@ != "NO"@ && t@.len() > 0 {
            insert_entry(m, t@, v)
        } else {
            m
        },
        None => m,
    }
}

/// A map after inserting `v` under a game's region tag and under each of its
/// alternative tags (alternative ROMs share the primary's profile and label).
pub open spec fn insert_game(m: Seq<(Seq<char>, ValueView)>, g: Game, v: ValueView) -> Seq<
    (Seq<char>, ValueView),
> {
    insert_alt(
        insert_alt(insert_alt(insert_entry(m, g.region_tag@, v), g.data.rom_alt.region_tag_e, v), g.data.rom_alt.region_tag_s1, v),
        g.data.rom_alt.region_tag_s2,
        v,
    )
}

/// The ROM profiles of the first `k` games, by region tag.
pub open spec fn version_map(games: Seq<Game>, k: nat) -> Seq<(Seq<char>, ValueView)>
    decreases k,
{
    if k == 0 || k > games.len() {
        Seq::empty()
    } else {
        insert_game(version_map(games, (k - 1) as nat), games[k - 1], rom_entry(games[k - 1].data.rom))
    }
}

/// The label key of the `i`-th menu entry.
pub open spec fn version_label(i: nat) -> Seq<char> {
    "MenuItemText__TITLE_GAME_VERSION_"@ + pad3(i)
}

/// The version triple of the `i`-th menu entry: slot, version, label.
pub open spec fn version_row(i: int) -> ValueView {
    ValueView::Array(seq![ValueView::Int(i as i64), ValueView::Int(0), ValueView::Str(version_label(i as nat))])
}

/// The version triples of the first `k` games, by region tag.
pub open spec fn game_versions_map(games: Seq<Game>, k: nat) -> Seq<(Seq<char>, ValueView)>
    decreases k,
{
    if k == 0 || k > games.len() {
        Seq::empty()
    } else {
        insert_game(game_versions_map(games, (k - 1) as nat), games[k - 1], version_row(k - 1))
    }
}

fn insert_alt_value(m: &mut Vec<(String, Value)>, tag: &Option<String>, v: &Value)
    ensures
        view_entries(final(m)@) == insert_alt(view_entries(old(m)@), *tag, v@),
{
    match tag {
        Some(t) => {
            let no = String::from_str("NO");
            if !(*t == no) && t.as_str().unicode_len() > 0 {
                object_insert(m, t.clone(), v.duplicate());
            }
        },
        None => {},
    }
}

fn insert_game_value(m: &mut Vec<(String, Value)>, g: &Game, v: Value)
    ensures
        view_entries(final(m)@) == insert_game(view_entries(old(m)@), *g, v@),
{
    let d = v.duplicate();
    object_insert(m, g.region_tag.clone(), d);
    insert_alt_value(m, &g.data.rom_alt.region_tag_e, &v);
    insert_alt_value(m, &g.data.rom_alt.region_tag_s1, &v);
    insert_alt_value(m, &g.data.rom_alt.region_tag_s2, &v);
}

fn build_version_map(games: &[Game]) -> (m: Vec<(String, Value)>)
    ensures
        view_entries(m@) == version_map(games@, games@.len()),
{
    let mut m: Vec<(String, Value)> = Vec::new();
    let mut i: usize = 0;
    assert(view_entries(m@) =~= Seq::<(Seq<char>, ValueView)>::empty());
    while i < games.len()
        invariant
            i <= games@.len(),
            view_entries(m@) == version_map(games@, i as nat),
        decreases games@.len() - i,
    {
        let e = build_rom_entry(&games[i].data.rom);
        insert_game_value(&mut m, &games[i], e);
        i = i + 1;
    }
    m
}

fn version_row_value(i: usize) -> (v: Value)
    ensures
        v@ == version_row(i as int),
{
    let mut label = String::from_str("MenuItemText__TITLE_GAME_VERSION_");
    let digits = pad3_text(i as u64);
    label.append(digits.as_str());
    let mut row: Vec<Value> = Vec::new();
    proof {
        assert(view_values(Seq::<Value>::empty()) =~= Seq::<ValueView>::empty());
        lemma_view_values_push(row@, Value::Int(i as i64));
    }
    row.push(Value::Int(i as i64));
    proof {
        lemma_view_values_push(row@, Value::Int(0));
    }
    row.push(Value::Int(0));
    proof {
        lemma_view_values_push(row@, Value::String(label));
    }
    row.push(Value::String(label));
    proof {
        assert(view_values(row@) =~= seq![
            ValueView::Int(i as i64),
            ValueView::Int(0),
            ValueView::Str(version_label(i as nat)),
        ]);
    }
    Value::Array(row)
}

fn build_game_versions_map(games: &[Game]) -> (m: Vec<(String, Value)>)
    ensures
        view_entries(m@) == game_versions_map(games@, games@.len()),
{
    let mut m: Vec<(String, Value)> = Vec::new();
    let mut i: usize = 0;
    assert(view_entries(m@) =~= Seq::<(Seq<char>, ValueView)>::empty());
    while i < games.len()
        invariant
            i <= games@.len(),
            view_entries(m@) == game_versions_map(games@, i as nat),
        decreases games@.len() - i,
    {
        let row = version_row_value(i);
        insert_game_value(&mut m, &games[i], row);
        i = i + 1;
    }
    m
}

// ---- folder cards with long tags ----

/// The two maps of the profile and the tag the menu starts on.
pub struct ProfileMaps {
    pub versions: Seq<(Seq<char>, ValueView)>,
    pub game_versions: Seq<(Seq<char>, ValueView)>,
    pub default_tag: Option<Seq<char>>,
}

/// A folder card whose tag is too long for the engine's profile key (the
/// native tag field holds 14 bytes and a terminator).
pub open spec fn long_folder(g: Game) -> bool {
    g.data.rom.arch@ == "folder"@ && encode_utf8(g.region_tag@).len() > 14
}

/// No two folder cards with long tags share their tag.
pub open spec fn long_folder_tags_distinct(games: Seq<Game>) -> bool {
    forall|i: int, j: int|
        0 <= i < j < games.len() && long_folder(#[trigger] games[i]) && long_folder(#[trigger] games[j])
            ==> games[i].region_tag@ != games[j].region_tag@
}

fn is_long_folder(g: &Game) -> (b: bool)
    ensures
        b == long_folder(*g),
{
    let folder = String::from_str("folder");
    g.data.rom.arch == folder && g.region_tag.as_str().as_bytes().len() > 14
}

/// Whether no two folder cards with long tags share their tag (`generate`
/// cannot key two such cards).
pub fn long_folder_tags_are_distinct(games: &[Game]) -> (b: bool)
    ensures
        b == long_folder_tags_distinct(games@),
{
    let mut j: usize = 0;
    while j < games.len()
        invariant
            j <= games@.len(),
            forall|a: int, c: int|
                0 <= a < c < j && long_folder(#[trigger] games@[a]) && long_folder(#[trigger] games@[c])
                    ==> games@[a].region_tag@ != games@[c].region_tag@,
        decreases games@.len() - j,
    {
        if is_long_folder(&games[j]) {
            let mut i: usize = 0;
            while i < j
                invariant
                    i <= j < games@.len(),
                    long_folder(games@[j as int]),
                    forall|a: int| 0 <= a < i && long_folder(#[trigger] games@[a]) ==> games@[a].region_tag@
                        != games@[j as int].region_tag@,
                decreases j - i,
            {
                if is_long_folder(&games[i]) && games[i].region_tag == games[j].region_tag {
                    assert(!long_folder_tags_distinct(games@)) by {
                        assert(long_folder(games@[i as int]) && long_folder(games@[j as int]));
                    }
                    return false;
                }
                i = i + 1;
            }
        }
        j = j + 1;
    }
    true
}

/// The short profile key of the folder card in slot `i`.
pub open spec fn folder_alias(i: nat) -> Seq<char> {
    "FOLDER_"@ + pad3(i)
}

pub open spec fn reserved_message(alias: Seq<char>) -> Seq<char> {
    alias + " is reserved for native folder initialization"@
}

/// A map without its `i`-th entry, the last entry taking its place.
pub open spec fn swap_out(s: Seq<(Seq<char>, ValueView)>, i: int) -> Seq<(Seq<char>, ValueView)> {
    s.update(i, s.last()).drop_last()
}

/// The maps after moving the entries of a long-tagged folder card in slot
/// `i` to its short key; the short key of slot 0 becomes the start tag.
pub open spec fn alias_step(st: ProfileMaps, i: nat, g: Game) -> Result<ProfileMaps, Seq<char>> {
    if !long_folder(g) {
        Ok(st)
    } else {
        let a = folder_alias(i);
        if find_key(st.game_versions, a) >= 0 {
            Err(reserved_message(a))
        } else {
            let iv = find_key(st.versions, g.region_tag@);
            let ig = find_key(st.game_versions, g.region_tag@);
            Ok(
                ProfileMaps {
                    versions: insert_entry(swap_out(st.versions, iv), a, st.versions[iv].1),
                    game_versions: insert_entry(swap_out(st.game_versions, ig), a, st.game_versions[ig].1),
                    default_tag: if i == 0 {
                        Some(a)
                    } else {
                        st.default_tag
                    },
                },
            )
        }
    }
}

pub open spec fn initial_maps(games: Seq<Game>) -> ProfileMaps {
    ProfileMaps {
        versions: version_map(games, games.len()),
        game_versions: game_versions_map(games, games.len()),
        default_tag: if games.len() > 0 {
            Some(games[0].region_tag@)
        } else {
            None
        },
    }
}

/// The maps after the first `k` games have been looked at.
pub open spec fn alias_steps(games: Seq<Game>, k: nat) -> Result<ProfileMaps, Seq<char>>
    decreases k,
{
    if k == 0 {
        Ok(initial_maps(games))
    } else {
        match alias_steps(games, (k - 1) as nat) {
            Err(m) => Err(m),
            Ok(st) => alias_step(st, (k - 1) as nat, games[k - 1]),
        }
    }
}

pub open spec fn has_key(s: Seq<(Seq<char>, ValueView)>, k: Seq<char>) -> bool {
    find_key(s, k) >= 0
}

proof fn lemma_has_key_at(s: Seq<(Seq<char>, ValueView)>, k: Seq<char>, j: int)
    requires
        0 <= j < s.len(),
        s[j].0 == k,
    ensures
        has_key(s, k),
{
    lemma_find_key(s, k);
}

proof fn lemma_insert_has(s: Seq<(Seq<char>, ValueView)>, k: Seq<char>, v: ValueView, k2: Seq<char>)
    ensures
        has_key(insert_entry(s, k, v), k),
        has_key(s, k2) ==> has_key(insert_entry(s, k, v), k2),
{
    lemma_find_key(s, k);
    lemma_find_key(s, k2);
    let t = insert_entry(s, k, v);
    let i = find_key(s, k);
    if i >= 0 {
        lemma_has_key_at(t, k, i);
    } else {
        lemma_has_key_at(t, k, s.len() as int);
    }
    if has_key(s, k2) {
        let j = find_key(s, k2);
        if i >= 0 && j == i {
            lemma_has_key_at(t, k2, i);
        } else {
            lemma_has_key_at(t, k2, j);
        }
    }
}

proof fn lemma_insert_alt_has(s: Seq<(Seq<char>, ValueView)>, tag: Option<String>, v: ValueView, k2: Seq<char>)
    ensures
        has_key(s, k2) ==> has_key(insert_alt(s, tag, v), k2),
{
    if let Some(t) = tag {
        lemma_insert_has(s, t@, v, k2);
    }
}

proof fn lemma_insert_game_has(s: Seq<(Seq<char>, ValueView)>, g: Game, v: ValueView, k2: Seq<char>)
    ensures
        has_key(insert_game(s, g, v), g.region_tag@),
        has_key(s, k2) ==> has_key(insert_game(s, g, v), k2),
{
    let s1 = insert_entry(s, g.region_tag@, v);
    lemma_insert_has(s, g.region_tag@, v, k2);
    let s2 = insert_alt(s1, g.data.rom_alt.region_tag_e, v);
    let s3 = insert_alt(s2, g.data.rom_alt.region_tag_s1, v);
    lemma_insert_alt_has(s1, g.data.rom_alt.region_tag_e, v, g.region_tag@);
    lemma_insert_alt_has(s2, g.data.rom_alt.region_tag_s1, v, g.region_tag@);
    lemma_insert_alt_has(s3, g.data.rom_alt.region_tag_s2, v, g.region_tag@);
    lemma_insert_alt_has(s1, g.data.rom_alt.region_tag_e, v, k2);
    lemma_insert_alt_has(s2, g.data.rom_alt.region_tag_s1, v, k2);
    lemma_insert_alt_has(s3, g.data.rom_alt.region_tag_s2, v, k2);
}

/// Every game's tag is a key of both maps.
proof fn lemma_maps_have_tags(games: Seq<Game>, k: nat, j: int)
    requires
        k <= games.len(),
        0 <= j < k,
    ensures
        has_key(version_map(games, k), games[j].region_tag@),
        has_key(game_versions_map(games, k), games[j].region_tag@),
    decreases k,
{
    let g = games[k - 1];
    lemma_insert_game_has(version_map(games, (k - 1) as nat), g, rom_entry(g.data.rom), games[j].region_tag@);
    lemma_insert_game_has(game_versions_map(games, (k - 1) as nat), g, version_row(k - 1), games[j].region_tag@);
    if j < k - 1 {
        lemma_maps_have_tags(games, (k - 1) as nat, j);
    }
}

proof fn lemma_swap_out_has(s: Seq<(Seq<char>, ValueView)>, i: int, k2: Seq<char>)
    requires
        0 <= i < s.len(),
        s[i].0 != k2,
        has_key(s, k2),
    ensures
        has_key(swap_out(s, i), k2),
{
    lemma_find_key(s, k2);
    let j = find_key(s, k2);
    let t = swap_out(s, i);
    if j == s.len() - 1 {
        lemma_has_key_at(t, k2, i);
    } else {
        lemma_has_key_at(t, k2, j);
    }
}

/// Once a step fails, the later steps give the same error.
proof fn lemma_alias_steps_err(games: Seq<Game>, k0: nat, k: nat)
    requires
        k0 <= k,
        alias_steps(games, k0) is Err,
    ensures
        alias_steps(games, k) == alias_steps(games, k0),
    decreases k,
{
    if k > k0 {
        lemma_alias_steps_err(games, k0, (k - 1) as nat);
    }
}

/// Every long-tagged folder card that reaches its turn (no earlier card
/// failed, and its short key is free) finds its tag in both maps.
#[verifier::opaque]
pub open spec fn aliases_found(games: Seq<Game>) -> bool {
    forall|j: int|
        0 <= j < games.len() && long_folder(#[trigger] games[j]) ==> match alias_steps(games, j as nat) {
            Ok(st) => find_key(st.game_versions, folder_alias(j as nat)) >= 0 || (has_key(
                st.versions,
                games[j].region_tag@,
            ) && has_key(st.game_versions, games[j].region_tag@)),
            Err(_) => true,
        }
}

/// While the long tags are distinct, the tags of the cards still to come stay
/// in both maps.
proof fn lemma_tags_kept(games: Seq<Game>, k: nat)
    requires
        long_folder_tags_distinct(games),
        k <= games.len(),
    ensures
        alias_steps(games, k) matches Ok(st) ==> forall|j: int|
            k <= j < games.len() && long_folder(#[trigger] games[j]) ==> has_key(st.versions, games[j].region_tag@)
                && has_key(st.game_versions, games[j].region_tag@),
    decreases k,
{
    if k == 0 {
        assert forall|j: int| 0 <= j < games.len() && long_folder(#[trigger] games[j]) implies has_key(
            version_map(games, games.len()),
            games[j].region_tag@,
        ) && has_key(game_versions_map(games, games.len()), games[j].region_tag@) by {
            lemma_maps_have_tags(games, games.len(), j);
        }
    } else {
        lemma_tags_kept(games, (k - 1) as nat);
        let i = (k - 1) as nat;
        if alias_steps(games, i) is Ok {
            let st = alias_steps(games, i)->Ok_0;
            let g = games[i as int];
            if long_folder(g) && find_key(st.game_versions, folder_alias(i)) < 0 {
                let a = folder_alias(i);
                let iv = find_key(st.versions, g.region_tag@);
                let ig = find_key(st.game_versions, g.region_tag@);
                lemma_find_key(st.versions, g.region_tag@);
                lemma_find_key(st.game_versions, g.region_tag@);
                let v1 = swap_out(st.versions, iv);
                let g1 = swap_out(st.game_versions, ig);
                assert forall|j: int| k <= j < games.len() && long_folder(#[trigger] games[j]) implies has_key(
                    insert_entry(v1, a, st.versions[iv].1),
                    games[j].region_tag@,
                ) && has_key(insert_entry(g1, a, st.game_versions[ig].1), games[j].region_tag@) by {
                    assert(g.region_tag@ != games[j].region_tag@);
                    lemma_swap_out_has(st.versions, iv, games[j].region_tag@);
                    lemma_swap_out_has(st.game_versions, ig, games[j].region_tag@);
                    lemma_insert_has(v1, a, st.versions[iv].1, games[j].region_tag@);
                    lemma_insert_has(g1, a, st.game_versions[ig].1, games[j].region_tag@);
                }
            }
        }
    }
}

/// Packs whose long folder tags are distinct meet `aliases_found`.
pub proof fn lemma_distinct_tags_found(games: Seq<Game>)
    requires
        long_folder_tags_distinct(games),
    ensures
        aliases_found(games),
{
    reveal(aliases_found);
    assert forall|j: int| 0 <= j < games.len() && long_folder(#[trigger] games[j]) implies match alias_steps(
        games,
        j as nat,
    ) {
        Ok(st) => find_key(st.game_versions, folder_alias(j as nat)) >= 0 || (has_key(
            st.versions,
            games[j].region_tag@,
        ) && has_key(st.game_versions, games[j].region_tag@)),
        Err(_) => true,
    } by {
        lemma_tags_kept(games, j as nat);
    }
}

/// Index of the entry with key `k`, searching from the end (keys are distinct).
pub(crate) fn find_entry(es: &Vec<(String, Value)>, k: &String) -> (r: Option<usize>)
    ensures
        r matches Some(i) ==> i == find_key(view_entries(es@), k@) && i < es@.len(),
        r is None ==> find_key(view_entries(es@), k@) == -1,
{
    let ghost v = view_entries(es@);
    proof {
        lemma_view_entries_len(es@);
    }
    let mut i: usize = es.len();
    assert(v.subrange(0, i as int) =~= v);
    while i > 0
        invariant
            i <= es@.len(),
            v == view_entries(es@),
            v.len() == es@.len(),
            forall|j: int| 0 <= j < es@.len() ==> #[trigger] v[j] == (es@[j].0@, es@[j].1@),
            find_key(v, k@) == find_key(v.subrange(0, i as int), k@),
        decreases i,
    {
        if es[i - 1].0 == *k {
            assert(v.subrange(0, i as int).last().0 == k@);
            return Some(i - 1);
        }
        assert(v.subrange(0, i as int).drop_last() =~= v.subrange(0, i - 1));
        i = i - 1;
    }
    assert(v.subrange(0, 0) =~= Seq::<(Seq<char>, ValueView)>::empty());
    None
}

/// Takes out the entry at `i`, the last entry taking its place.
fn swap_out_entry(es: &mut Vec<(String, Value)>, i: usize) -> (e: (String, Value))
    requires
        i < old(es)@.len(),
    ensures
        view_entries(final(es)@) == swap_out(view_entries(old(es)@), i as int),
        (e.0@, e.1@) == view_entries(old(es)@)[i as int],
{
    proof {
        lemma_view_entries_len(es@);
    }
    let e = es.swap_remove(i);
    proof {
        lemma_view_entries_len(old(es)@);
        lemma_view_entries_len(es@);
        assert(view_entries(es@) =~= swap_out(view_entries(old(es)@), i as int));
    }
    e
}

pub open spec fn text_opt(o: Option<String>) -> Option<Seq<char>> {
    match o {
        Some(s) => Some(s@),
        None => None,
    }
}

fn folder_alias_text(i: usize) -> (s: String)
    ensures
        s@ == folder_alias(i as nat),
{
    let mut s = String::from_str("FOLDER_");
    let digits = pad3_text(i as u64);
    s.append(digits.as_str());
    s
}

/// The maps after all games have been looked at.
fn alias_folders(games: &[Game]) -> (r: Result<(Vec<(String, Value)>, Vec<(String, Value)>, Option<String>), Error>)
    requires
        aliases_found(games@),
    ensures
        match alias_steps(games@, games@.len()) {
            Ok(st) => r matches Ok((v, g, d)) && view_entries(v@) == st.versions && view_entries(g@)
                == st.game_versions && text_opt(d) == st.default_tag,
            Err(m) => r matches Err(Error::Library(x)) && x@ == m,
        },
{
    let mut versions = build_version_map(games);
    let mut gvs = build_game_versions_map(games);
    let mut default_tag: Option<String> = if games.len() > 0 {
        Some(games[0].region_tag.clone())
    } else {
        None
    };
    let folder = String::from_str("folder");
    let mut i: usize = 0;
    while i < games.len()
        invariant
            i <= games@.len(),
            folder@ == "folder"@,
            aliases_found(games@),
            alias_steps(games@, i as nat) == Ok::<ProfileMaps, Seq<char>>(
                ProfileMaps {
                    versions: view_entries(versions@),
                    game_versions: view_entries(gvs@),
                    default_tag: text_opt(default_tag),
                },
            ),
        decreases games@.len() - i,
    {
        let g = &games[i];
        let ghost st = ProfileMaps {
            versions: view_entries(versions@),
            game_versions: view_entries(gvs@),
            default_tag: text_opt(default_tag),
        };
        if g.data.rom.arch == folder && g.region_tag.as_str().as_bytes().len() > 14 {
            assert(long_folder(games@[i as int]));
            let alias = folder_alias_text(i);
            match find_entry(&gvs, &alias) {
                Some(_) => {
                    let mut m = alias.clone();
                    m.append(" is reserved for native folder initialization");
                    proof {
                        lemma_alias_steps_err(games@, (i + 1) as nat, games@.len());
                    }
                    return Err(Error::Library(m));
                },
                None => {},
            }
            proof {
                reveal(aliases_found);
            }
            assert(has_key(view_entries(versions@), games@[i as int].region_tag@) && has_key(
                view_entries(gvs@),
                games@[i as int].region_tag@,
            ));
            let iv = match find_entry(&versions, &g.region_tag) {
                Some(x) => x,
                None => {
                    assert(false);
                    return Err(Error::Library(String::new()));
                },
            };
            let ig = match find_entry(&gvs, &g.region_tag) {
                Some(x) => x,
                None => {
                    assert(false);
                    return Err(Error::Library(String::new()));
                },
            };
            proof {
                lemma_find_key(view_entries(versions@), g.region_tag@);
                lemma_find_key(view_entries(gvs@), g.region_tag@);
            }
            let ghost v0 = view_entries(versions@);
            let ghost g0 = view_entries(gvs@);
            let (_k1, profile) = swap_out_entry(&mut versions, iv);
            let (_k2, version) = swap_out_entry(&mut gvs, ig);
            let ghost v1 = view_entries(versions@);
            let ghost g1 = view_entries(gvs@);
            object_insert(&mut versions, alias.clone(), profile);
            object_insert(&mut gvs, alias.clone(), version);
            if i == 0 {
                default_tag = Some(alias);
            }
        } else {
            proof {
                assert(!long_folder(games@[i as int]));
            }
        }
        i = i + 1;
    }
    Ok((versions, gvs, default_tag))
}

// ---- placing the maps in the template ----

pub open spec fn path_missing(k: Seq<char>) -> Seq<char> {
    "template missing path key '"@ + k + "'"@
}

pub open spec fn path_mismatch(k: Seq<char>) -> Seq<char> {
    "template type mismatch at '"@ + k + "': expected object"@
}

/// `v` with `nv` put under the object path `path`: each key but the last must
/// name an object entry; the last key is inserted into its object.
pub open spec fn placed_at(v: ValueView, path: Seq<Seq<char>>, nv: ValueView) -> Result<ValueView, Seq<char>>
    decreases path.len(),
{
    if path.len() == 0 {
        Ok(v)
    } else {
        match v {
            ValueView::Object(es) => if path.len() == 1 {
                Ok(ValueView::Object(insert_entry(es, path[0], nv)))
            } else {
                let i = find_key(es, path[0]);
                if i < 0 {
                    Err(path_missing(path[0]))
                } else {
                    match placed_at(es[i].1, path.drop_first(), nv) {
                        Ok(c) => Ok(ValueView::Object(es.update(i, (path[0], c)))),
                        Err(m) => Err(m),
                    }
                }
            },
            _ => Err(path_mismatch(path[0])),
        }
    }
}

pub open spec fn texts(s: Seq<String>) -> Seq<Seq<char>> {
    s.map_values(|x: String| x@)
}

fn set_path(v: Value, path: &Vec<String>, at: usize, nv: Value) -> (r: Result<Value, Error>)
    requires
        at <= path@.len(),
    ensures
        match placed_at(v@, texts(path@).skip(at as int), nv@) {
            Ok(x) => r matches Ok(y) && y@ == x,
            Err(m) => r matches Err(Error::Template(s)) && s@ == m,
        },
    decreases path@.len() - at,
{
    let ghost p = texts(path@).skip(at as int);
    if at == path.len() {
        assert(p.len() == 0);
        return Ok(v);
    }
    assert(p[0] == path@[at as int]@);
    match v {
        Value::Object(mut es) => {
            proof {
                lemma_view_entries_len(es@);
            }
            if at + 1 == path.len() {
                object_insert(&mut es, path[at].clone(), nv);
                return Ok(Value::Object(es));
            }
            assert(texts(path@).skip(at + 1) =~= p.drop_first());
            match find_entry(&es, &path[at]) {
                None => {
                    let mut m = String::from_str("template missing path key '");
                    m.append(path[at].as_str());
                    m.append("'");
                    Err(Error::Template(m))
                },
                Some(i) => {
                    let ghost es0 = es@;
                    let (k, child) = es.remove(i);
                    proof {
                        lemma_find_key(view_entries(es0), path@[at as int]@);
                        assert(decreases_to!(es0 => es0[i as int]));
                    }
                    match set_path(child, path, at + 1, nv) {
                        Err(e) => Err(e),
                        Ok(c) => {
                            es.insert(i, (k, c));
                            proof {
                                lemma_view_entries_len(es@);
                                assert(view_entries(es@) =~= view_entries(es0).update(
                                    i as int,
                                    (path@[at as int]@, c@),
                                ));
                            }
                            Ok(Value::Object(es))
                        },
                    }
                },
            }
        },
        _ => {
            let mut m = String::from_str("template type mismatch at '");
            m.append(path[at].as_str());
            m.append("': expected object");
            Err(Error::Template(m))
        },
    }
}

/// The start tag for every region.
pub open spec fn defaults_object(d: Seq<char>) -> ValueView {
    ValueView::Object(
        seq![
            ("japan"@, ValueView::Str(d)),
            ("usa"@, ValueView::Str(d)),
            ("europe"@, ValueView::Str(d)),
            ("asia"@, ValueView::Str(d)),
        ],
    )
}

fn defaults_value(d: &String) -> (v: Value)
    ensures
        v@ == defaults_object(d@),
{
    let mut es: Vec<(String, Value)> = Vec::new();
    assert(view_entries(es@) =~= Seq::<(Seq<char>, ValueView)>::empty());
    push_entry(&mut es, "japan", Value::String(d.clone()));
    push_entry(&mut es, "usa", Value::String(d.clone()));
    push_entry(&mut es, "europe", Value::String(d.clone()));
    push_entry(&mut es, "asia", Value::String(d.clone()));
    assert(view_entries(es@) =~= seq![
        ("japan"@, ValueView::Str(d@)),
        ("usa"@, ValueView::Str(d@)),
        ("europe"@, ValueView::Str(d@)),
        ("asia"@, ValueView::Str(d@)),
    ]);
    Value::Object(es)
}

/// The template with the start tags, the ROM profiles and the version
/// labels put in place.
pub open spec fn profile_tree(tree: ValueView, st: ProfileMaps) -> Result<ValueView, Seq<char>> {
    let with_defaults = match st.default_tag {
        Some(d) => placed_at(tree, seq!["root"@, "game_versions_default"@], defaults_object(d)),
        None => Ok(tree),
    };
    match with_defaults {
        Err(m) => Err(m),
        Ok(a) => match placed_at(a, seq!["root"@, "m2epi"@, "version"@], ValueView::Object(st.versions)) {
            Err(m) => Err(m),
            Ok(b) => placed_at(b, seq!["root"@, "game_versions"@], ValueView::Object(st.game_versions)),
        },
    }
}


fn two_keys(a: &str, b: &str) -> (p: Vec<String>)
    ensures
        texts(p@) == seq![a@, b@],
{
    let mut p: Vec<String> = Vec::new();
    p.push(String::from_str(a));
    p.push(String::from_str(b));
    assert(texts(p@) =~= seq![a@, b@]);
    p
}

fn three_keys(a: &str, b: &str, c: &str) -> (p: Vec<String>)
    ensures
        texts(p@) == seq![a@, b@, c@],
{
    let mut p: Vec<String> = Vec::new();
    p.push(String::from_str(a));
    p.push(String::from_str(b));
    p.push(String::from_str(c));
    assert(texts(p@) =~= seq![a@, b@, c@]);
    p
}

/// The profile tree for `games` on `template`, or why there is none.
pub open spec fn profile_result(template: ValueView, games: Seq<Game>) -> Result<ValueView, Failure> {
    match alias_steps(games, games.len()) {
        Err(m) => Err(Failure::Library(m)),
        Ok(st) => match profile_tree(template, st) {
            Err(m) => Err(Failure::Template(m)),
            Ok(out) => Ok(out),
        },
    }
}

/// The emulator profile of a folder pack, from the stock profile `template`
/// (as read) and the pack's games in slot order.
///
/// Each game's region tag (and each alternative tag it has) maps to its ROM
/// profile and to its version triple. A folder card whose tag is longer than
/// 14 bytes is keyed by `FOLDER_<slot>` instead, and if it is in slot 0 that
/// short key is the start tag of every region; otherwise the start tag is the
/// first game's tag.
#[verifier::spinoff_prover]
pub fn profile_from(template: Value, games: &[Game]) -> (r: Result<Vec<u8>, Error>)
    requires
        aliases_found(games@),
    ensures
        profile_result(template@, games@) matches Err(f) ==> failed_as(r, f),
        profile_result(template@, games@) matches Ok(out) ==> written_or_refused(r, out),
{
    let (versions, gvs, default_tag) = match alias_folders(games) {
        Ok(x) => x,
        Err(e) => {
            return Err(e);
        },
    };
    let with_defaults = match default_tag {
        Some(d) => {
            let path = two_keys("root", "game_versions_default");
            assert(texts(path@).skip(0) =~= seq!["root"@, "game_versions_default"@]);
            match set_path(template, &path, 0, defaults_value(&d)) {
                Ok(x) => x,
                Err(e) => {
                    return Err(e);
                },
            }
        },
        None => template,
    };
    let path = three_keys("root", "m2epi", "version");
    assert(texts(path@).skip(0) =~= seq!["root"@, "m2epi"@, "version"@]);
    let with_versions = match set_path(with_defaults, &path, 0, Value::Object(versions)) {
        Ok(x) => x,
        Err(e) => {
            return Err(e);
        },
    };
    let path = two_keys("root", "game_versions");
    assert(texts(path@).skip(0) =~= seq!["root"@, "game_versions"@]);
    let out = match set_path(with_versions, &path, 0, Value::Object(gvs)) {
        Ok(x) => x,
        Err(e) => {
            return Err(e);
        },
    };
    if !keys_fit(&out) {
        return Err(Error::Template(String::from_str("the key names of the generated file do not fit its key table")));
    }
    match crate::psb::writer::write(&out, 4) {
        Ok(b) => {
            let r: Result<Vec<u8>, Error> = Ok(b);
            proof {
                let t0 = choose|t: TrieArrays| #[trigger] written(b@, out@, 4, t);
                assert(r->Ok_0 == b);
                assert(written(r->Ok_0@, out@, 4, t0));
                let st = alias_steps(games@, games@.len())->Ok_0;
                assert(profile_tree(template@, st) == Ok::<ValueView, Seq<char>>(out@));
            }
            r
        },
        Err(e) => Err(Error::Psb(e)),
    }
}

/// What the profile generator works from.
pub struct GenInputs<'a> {
    /// Decoded bytes of the stock profile template.
    pub template_psb: &'a [u8],
    /// The pack's games, in menu order.
    pub games: &'a [Game],
}

/// The emulator profile of a folder pack, from the stock profile file
/// `template_psb` and the pack's games in slot order (see `profile_from`).
/// A long-tagged folder card whose tag is no longer in the maps when its turn
/// comes (a second card with the same tag) cannot be moved to its short key;
/// such packs are left out (see `aliases_found`).
pub fn generate(inputs: &GenInputs) -> (r: Result<Vec<u8>, Error>)
    requires
        aliases_found(inputs.games@),
    ensures
        read_result(inputs.template_psb@) matches Err(e) ==> r == Err::<Vec<u8>, Error>(Error::Psb(e)),
        read_result(inputs.template_psb@) matches Ok(tree) ==> (profile_result(tree, inputs.games@) matches Err(
            f,
        ) ==> failed_as(r, f)),
        read_result(inputs.template_psb@) matches Ok(tree) ==> (profile_result(tree, inputs.games@) matches Ok(
            out,
        ) ==> written_or_refused(r, out)),
{
    match read(inputs.template_psb) {
        Ok(t) => profile_from(t, inputs.games),
        Err(e) => Err(Error::Psb(e)),
    }
}

} // verus!
