//! Creating a library from a console dump: which original games the stock
//! menu lists, and what the library records of each.
use vstd::prelude::*;
use vstd::string::StringExecFns;
use crate::library::{file_name_of, path_file_name};
use crate::psb::value::{
    find_key, insert_entry, lemma_view_entries_len, lookup, lemma_find_key_at, lemma_insert_lookup, lemma_view_values_len, object_insert, view_entries, view_values, Value,
    ValueView,
};
use crate::saves::{has_prefix, starts_with};
use crate::source::{contains_text, index_u64, loose_names, safe_name, safe_relative};
use crate::import::BiosConfig;
use crate::library::{ends_with_lower, ends_with_lower_text};
use crate::title_prof::find_entry;
use crate::publish::LineupKind;

verus! {

/// The value of `key` in an object (of repeated keys the last counts).
pub open spec fn field_of(v: ValueView, key: Seq<char>) -> Option<ValueView> {
    match v {
        ValueView::Object(es) => {
            let i = find_key(es, key);
            if i >= 0 {
                Some(es[i].1)
            } else {
                None
            }
        },
        _ => None,
    }
}

pub open spec fn text_of(v: Option<ValueView>) -> Option<Seq<char>> {
    match v {
        Some(ValueView::Str(s)) => Some(s),
        _ => None,
    }
}

/// The stock menu's game list: its `items`, or else `root.items`.
pub open spec fn menu_items(menu: ValueView) -> Option<Seq<ValueView>> {
    let found = match field_of(menu, "items"@) {
        Some(v) => Some(v),
        None => match field_of(menu, "root"@) {
            Some(r) => field_of(r, "items"@),
            None => None,
        },
    };
    match found {
        Some(ValueView::Array(a)) => Some(a),
        _ => None,
    }
}

/// The ROM profiles of the stock `title_prof`: `root.m2epi.version`.
pub open spec fn rom_profiles(profiles: ValueView) -> Option<Seq<(Seq<char>, ValueView)>> {
    match field_of(profiles, "root"@) {
        Some(r) => match field_of(r, "m2epi"@) {
            Some(m) => match field_of(m, "version"@) {
                Some(ValueView::Object(es)) => Some(es),
                _ => None,
            },
            None => None,
        },
        None => None,
    }
}

/// Whether position `i` of a relative path starts a component other than `.`.
pub open spec fn starts_component(s: Seq<char>, i: int) -> bool {
    &&& 0 <= i < s.len()
    &&& s[i] != '/'
    &&& (i == 0 || s[i - 1] == '/')
    &&& !(s[i] == '.' && (i + 1 == s.len() || s[i + 1] == '/'))
}

/// A relative path of exactly one component.
pub open spec fn one_component(s: Seq<char>) -> bool {
    exists|i: int| #[trigger] starts_component(s, i) && forall|j: int| #[trigger] starts_component(s, j) ==> j == i
}

fn is_one_component(s: &str) -> (b: bool)
    ensures
        b == one_component(s@),
{
    let n = s.unicode_len();
    let mut first: Option<usize> = None;
    let mut i: usize = 0;
    while i < n
        invariant
            i <= n,
            n == s@.len(),
            first matches Some(f) ==> f < i && starts_component(s@, f as int) && forall|j: int|
                0 <= j < i && #[trigger] starts_component(s@, j) ==> j == f,
            first is None ==> forall|j: int| 0 <= j < i ==> !#[trigger] starts_component(s@, j),
        decreases n - i,
    {
        let c = s.get_char(i);
        let starts = c != '/' && (i == 0 || s.get_char(i - 1) == '/') && !(c == '.' && (i + 1 == n || s.get_char(
            i + 1,
        ) == '/'));
        assert(starts == starts_component(s@, i as int));
        if starts {
            match first {
                Some(f) => {
                    assert(!one_component(s@)) by {
                        if one_component(s@) {
                            let k = choose|k: int|
                                #[trigger] starts_component(s@, k) && forall|j: int| #[trigger] starts_component(s@, j) ==> j == k;
                            assert(starts_component(s@, f as int));
                            assert(starts_component(s@, i as int));
                        }
                    }
                    return false;
                },
                None => {
                    first = Some(i);
                },
            }
        }
        i = i + 1;
    }
    match first {
        Some(f) => {
            assert(starts_component(s@, f as int));
            true
        },
        None => false,
    }
}

/// What the library records of an original game: its tag, the file name of
/// its ROM, the cover's image index in the menu's motion data, and the
/// `display`, `rom` and `emulator` tables of its `game.json` and its entry
/// in `gamelist.json`.
#[derive(Debug)]
pub struct OriginalGame {
    pub tag: String,
    pub rom_file: String,
    pub image: u64,
    pub display: Vec<(String, Value)>,
    pub rom: Vec<(String, Value)>,
    pub emulator: Vec<(String, Value)>,
    pub entry: Vec<(String, Value)>,
}

pub struct OriginalGameView {
    pub tag: Seq<char>,
    pub rom_file: Seq<char>,
    pub image: u64,
    pub display: Seq<(Seq<char>, ValueView)>,
    pub rom: Seq<(Seq<char>, ValueView)>,
    pub emulator: Seq<(Seq<char>, ValueView)>,
    pub entry: Seq<(Seq<char>, ValueView)>,
}

impl View for OriginalGame {
    type V = OriginalGameView;

    open spec fn view(&self) -> OriginalGameView {
        OriginalGameView {
            tag: self.tag@,
            rom_file: self.rom_file@,
            image: self.image,
            display: view_entries(self.display@),
            rom: view_entries(self.rom@),
            emulator: view_entries(self.emulator@),
            entry: view_entries(self.entry@),
        }
    }
}

pub open spec fn or_default(v: Option<ValueView>, d: ValueView) -> ValueView {
    match v {
        Some(x) => x,
        None => d,
    }
}

pub open spec fn copied(item: ValueView, key: Seq<char>, d: ValueView) -> (Seq<char>, ValueView) {
    (key, or_default(field_of(item, key), d))
}

/// The item that names the game in English: the first of the 50 items from
/// `start + 100` on with the same tag, else the game's own item.
pub open spec fn english_from(items: Seq<ValueView>, tag: Seq<char>, j: int, end: int, item: ValueView) -> ValueView
    decreases end - j,
{
    if j >= end || j >= items.len() || j < 0 {
        item
    } else if text_of(field_of(items[j], "regionTag"@)) == Some(tag) {
        items[j]
    } else {
        english_from(items, tag, j + 1, end, item)
    }
}

/// What the library records of the game in slot `slot`, whose tag is `tag`,
/// ROM file `f` and ROM profile `pes`.
pub open spec fn original_view(
    items: Seq<ValueView>,
    start: int,
    slot: int,
    tag: Seq<char>,
    f: Seq<char>,
    pes: Seq<(Seq<char>, ValueView)>,
) -> OriginalGameView {
    let item = items[slot];
    let english = english_from(items, tag, start + 100, start + 150, item);
    OriginalGameView {
        tag,
        rom_file: f,
        image: match index_u64(or_default(field_of(item, "image"@), ValueView::Null)) {
            Some(n) => n,
            None => slot as u64,
        },
        display: seq![
            copied(item, "name"@, ValueView::Str(""@)),
            copied(item, "tname"@, ValueView::Str(""@)),
            copied(item, "titlebar"@, ValueView::Int(0)),
            copied(item, "ccolor"@, ValueView::Int(0)),
            copied(item, "csize"@, ValueView::Int(0)),
            copied(item, "players"@, ValueView::Int(0)),
            copied(item, "demo_time"@, ValueView::Int(0)),
            ("name_eng"@, or_default(field_of(english, "tname"@), ValueView::Str(""@))),
        ],
        rom: insert_entry(insert_entry(pes, "rom"@, ValueView::Str(f)), "regionTag"@, ValueView::Str(tag)),
        emulator: seq![
            copied(item, "EmuOfsX"@, ValueView::Int(0)),
            copied(item, "EmuOfsY"@, ValueView::Int(0)),
            copied(item, "ScreenMode"@, ValueView::Int(0)),
        ],
        entry: seq![
            ("folder"@, ValueView::Str(tag)),
            copied(item, "sor_date"@, ValueView::Int(0)),
            copied(item, "sor_demo"@, ValueView::Int(0)),
            copied(item, "sor_genr"@, ValueView::Int(0)),
            copied(item, "sor_name"@, ValueView::Int(0)),
            copied(item, "sor_pnum"@, ValueView::Int(0)),
        ],
    }
}

/// The game in slot `slot` (`None` for an empty `DUMMY` slot), or why it
/// cannot be imported.
pub open spec fn original_at(
    items: Seq<ValueView>,
    versions: Seq<(Seq<char>, ValueView)>,
    start: int,
    slot: int,
) -> Result<Option<OriginalGameView>, Seq<char>> {
    match text_of(field_of(items[slot], "regionTag"@)) {
        None => Err("Game has no regionTag"@),
        Some(tag) => if tag == "DUMMY"@ {
            Ok(None)
        } else if !safe_name(tag) {
            Err("Invalid archive path: "@ + tag)
        } else if !one_component(tag) || starts_with(tag, "FOLDER"@) {
            Err("Invalid game identifier: "@ + tag)
        } else if find_key(versions, tag) < 0 {
            Err("No ROM profile for "@ + tag)
        } else {
            let profile = versions[find_key(versions, tag)].1;
            match text_of(field_of(profile, "rom"@)) {
                None => Err("Game has no ROM filename"@),
                Some(orig) => match path_file_name(orig) {
                    None => Err("Invalid ROM filename"@),
                    Some(f) => if !safe_name(f) {
                        Err("Invalid archive path: "@ + f)
                    } else {
                        match profile {
                            ValueView::Object(pes) => Ok(Some(original_view(items, start, slot, tag, f, pes))),
                            _ => Err("Invalid ROM profile"@),
                        }
                    },
                },
            }
        },
    }
}

/// An original game's `gamelist.json` entry names its folder by the game's
/// tag and holds, under each sort key, the value its menu item has there (0
/// when the item has none).
pub proof fn lemma_original_entry_fields(
    items: Seq<ValueView>,
    versions: Seq<(Seq<char>, ValueView)>,
    start: int,
    slot: int,
)
    requires
        0 <= slot < items.len(),
    ensures
        original_at(items, versions, start, slot) matches Ok(Some(g)) ==> {
            &&& text_of(field_of(items[slot], "regionTag"@)) == Some(g.tag)
            &&& lookup(g.entry, "folder"@) == Some(ValueView::Str(g.tag))
            &&& lookup(g.entry, "sor_date"@) == Some(or_default(field_of(items[slot], "sor_date"@), ValueView::Int(0)))
            &&& lookup(g.entry, "sor_demo"@) == Some(or_default(field_of(items[slot], "sor_demo"@), ValueView::Int(0)))
            &&& lookup(g.entry, "sor_genr"@) == Some(or_default(field_of(items[slot], "sor_genr"@), ValueView::Int(0)))
            &&& lookup(g.entry, "sor_name"@) == Some(or_default(field_of(items[slot], "sor_name"@), ValueView::Int(0)))
            &&& lookup(g.entry, "sor_pnum"@) == Some(or_default(field_of(items[slot], "sor_pnum"@), ValueView::Int(0)))
        },
{
    if original_at(items, versions, start, slot) is Ok && original_at(items, versions, start, slot)->Ok_0 is Some {
        let g = original_at(items, versions, start, slot)->Ok_0->Some_0;
        let e = g.entry;
        crate::title_mode_top::lemma_sort_keys_distinct();
        reveal_strlit("folder");
        reveal_strlit("sor_date");
        reveal_strlit("sor_demo");
        reveal_strlit("sor_genr");
        reveal_strlit("sor_name");
        reveal_strlit("sor_pnum");
        assert("folder"@.len() == 6 && "sor_date"@.len() == 8 && "sor_demo"@.len() == 8 && "sor_genr"@.len() == 8
            && "sor_name"@.len() == 8 && "sor_pnum"@.len() == 8);
        assert(e.len() == 6);
        lemma_find_key_at(e, "folder"@, 0);
        lemma_find_key_at(e, "sor_date"@, 1);
        lemma_find_key_at(e, "sor_demo"@, 2);
        lemma_find_key_at(e, "sor_genr"@, 3);
        lemma_find_key_at(e, "sor_name"@, 4);
        lemma_find_key_at(e, "sor_pnum"@, 5);
    }
}

/// What the library records of an original game comes from its menu item
/// and its ROM profile: the ROM file is the file name of the profile's `rom`
/// path; the `rom` table is the profile with `rom` set to that file name and
/// `regionTag` to the tag; the display and emulator tables copy the item's
/// values (an empty text or 0 where it has none), the English name coming
/// from the English block's item; the cover image index is the item's
/// `image`, else the slot.
pub proof fn lemma_original_record(
    items: Seq<ValueView>,
    versions: Seq<(Seq<char>, ValueView)>,
    start: int,
    slot: int,
    key: Seq<char>,
)
    requires
        0 <= slot < items.len(),
    ensures
        original_at(items, versions, start, slot) matches Ok(Some(g)) ==> {
            let item = items[slot];
            let profile = versions[find_key(versions, g.tag)].1;
            &&& lookup(versions, g.tag) == Some(profile)
            &&& text_of(field_of(profile, "rom"@)) matches Some(orig) && path_file_name(orig) == Some(g.rom_file)
            &&& lookup(g.rom, "rom"@) == Some(ValueView::Str(g.rom_file))
            &&& lookup(g.rom, "regionTag"@) == Some(ValueView::Str(g.tag))
            &&& (key != "rom"@ && key != "regionTag"@) ==> lookup(g.rom, key) == field_of(profile, key)
            &&& lookup(g.display, "name"@) == Some(or_default(field_of(item, "name"@), ValueView::Str(""@)))
            &&& lookup(g.display, "tname"@) == Some(or_default(field_of(item, "tname"@), ValueView::Str(""@)))
            &&& lookup(g.display, "titlebar"@) == Some(or_default(field_of(item, "titlebar"@), ValueView::Int(0)))
            &&& lookup(g.display, "ccolor"@) == Some(or_default(field_of(item, "ccolor"@), ValueView::Int(0)))
            &&& lookup(g.display, "csize"@) == Some(or_default(field_of(item, "csize"@), ValueView::Int(0)))
            &&& lookup(g.display, "players"@) == Some(or_default(field_of(item, "players"@), ValueView::Int(0)))
            &&& lookup(g.display, "demo_time"@) == Some(or_default(field_of(item, "demo_time"@), ValueView::Int(0)))
            &&& lookup(g.display, "name_eng"@) == Some(
                or_default(
                    field_of(english_from(items, g.tag, start + 100, start + 150, item), "tname"@),
                    ValueView::Str(""@),
                ),
            )
            &&& lookup(g.emulator, "EmuOfsX"@) == Some(or_default(field_of(item, "EmuOfsX"@), ValueView::Int(0)))
            &&& lookup(g.emulator, "EmuOfsY"@) == Some(or_default(field_of(item, "EmuOfsY"@), ValueView::Int(0)))
            &&& lookup(g.emulator, "ScreenMode"@) == Some(or_default(field_of(item, "ScreenMode"@), ValueView::Int(0)))
            &&& index_u64(or_default(field_of(item, "image"@), ValueView::Null)) matches Some(n) ==> g.image == n
            &&& index_u64(or_default(field_of(item, "image"@), ValueView::Null)) is None ==> g.image == slot as u64
        },
{
    if original_at(items, versions, start, slot) is Ok && original_at(items, versions, start, slot)->Ok_0 is Some {
        let g = original_at(items, versions, start, slot)->Ok_0->Some_0;
        let i = find_key(versions, g.tag);
        crate::psb::value::lemma_find_key(versions, g.tag);
        let profile = versions[i].1;
        let pes = profile->Object_0;
        reveal_strlit("rom");
        reveal_strlit("regionTag");
        assert("rom"@.len() == 3 && "regionTag"@.len() == 9);
        let s1 = insert_entry(pes, "rom"@, ValueView::Str(g.rom_file));
        lemma_insert_lookup(pes, "rom"@, ValueView::Str(g.rom_file), key);
        lemma_insert_lookup(s1, "regionTag"@, ValueView::Str(g.tag), "rom"@);
        lemma_insert_lookup(s1, "regionTag"@, ValueView::Str(g.tag), key);
        let keys = seq!["name"@, "tname"@, "titlebar"@, "ccolor"@, "csize"@, "players"@, "demo_time"@, "name_eng"@];
        reveal_strlit("name");
        reveal_strlit("tname");
        reveal_strlit("titlebar");
        reveal_strlit("ccolor");
        reveal_strlit("csize");
        reveal_strlit("players");
        reveal_strlit("demo_time");
        reveal_strlit("name_eng");
        reveal_strlit("EmuOfsX");
        reveal_strlit("EmuOfsY");
        reveal_strlit("ScreenMode");
        assert("name"@.len() == 4 && "tname"@.len() == 5 && "titlebar"@.len() == 8 && "ccolor"@.len() == 6
            && "csize"@.len() == 5 && "players"@.len() == 7 && "demo_time"@.len() == 9 && "name_eng"@.len() == 8);
        assert("tname"@[0] != "csize"@[0]);
        assert("titlebar"@[0] != "name_eng"@[0]);
        assert("EmuOfsX"@.len() == 7 && "EmuOfsY"@.len() == 7 && "ScreenMode"@.len() == 10);
        assert("EmuOfsX"@[6] != "EmuOfsY"@[6]);
        let d = g.display;
        assert(d.len() == 8);
        assert forall|q: int| 0 <= q < 8 implies lookup(d, #[trigger] keys[q]) == Some(d[q].1) by {
            assert(d[q].0 == keys[q]);
            lemma_find_key_at(d, keys[q], q);
        }
        assert(keys[0] == "name"@ && keys[1] == "tname"@ && keys[2] == "titlebar"@ && keys[3] == "ccolor"@
            && keys[4] == "csize"@ && keys[5] == "players"@ && keys[6] == "demo_time"@ && keys[7] == "name_eng"@);
        let e = g.emulator;
        lemma_find_key_at(e, "EmuOfsX"@, 0);
        lemma_find_key_at(e, "EmuOfsY"@, 1);
        lemma_find_key_at(e, "ScreenMode"@, 2);
    }
}

/// The games of the first `k` slots from `start`, or the first refusal.
pub open spec fn originals_from(
    items: Seq<ValueView>,
    versions: Seq<(Seq<char>, ValueView)>,
    start: int,
    k: nat,
) -> Result<Seq<OriginalGameView>, Seq<char>>
    decreases k,
{
    if k == 0 {
        Ok(Seq::empty())
    } else {
        match originals_from(items, versions, start, (k - 1) as nat) {
            Err(m) => Err(m),
            Ok(gs) => match original_at(items, versions, start, start + k - 1) {
                Err(m) => Err(m),
                Ok(None) => Ok(gs),
                Ok(Some(g)) => Ok(gs.push(g)),
            },
        }
    }
}

/// The first slot of a lineup in the stock menu.
pub open spec fn lineup_start(lineup: LineupKind) -> int {
    match lineup {
        LineupKind::Jp => 0,
        LineupKind::Us => 50,
    }
}

/// The original games of a lineup, from the stock menu and ROM profiles.
pub open spec fn original_games_of(menu: ValueView, profiles: ValueView, lineup: LineupKind) -> Result<
    Seq<OriginalGameView>,
    Seq<char>,
> {
    match menu_items(menu) {
        None => Err("Original menu has no game list"@),
        Some(items) => if items.len() < 200 {
            Err("Unsupported original menu: expected the JP/US lineups"@)
        } else {
            match rom_profiles(profiles) {
                None => Err("Original ROM profiles not found"@),
                Some(vs) => originals_from(items, vs, lineup_start(lineup), 50),
            }
        },
    }
}

pub open spec fn games_view(r: Result<Vec<OriginalGame>, String>) -> Result<Seq<OriginalGameView>, Seq<char>> {
    match r {
        Ok(v) => Ok(v@.map_values(|g: OriginalGame| g@)),
        Err(m) => Err(m@),
    }
}

fn get_field<'a>(v: &'a Value, key: &str) -> (r: Option<&'a Value>)
    ensures
        r matches Some(x) ==> field_of(v@, key@) == Some(x@),
        r is None ==> field_of(v@, key@) is None,
{
    match v {
        Value::Object(es) => {
            let k = String::from_str(key);
            proof {
                lemma_view_entries_len(es@);
            }
            match find_entry(es, &k) {
                Some(i) => Some(&es[i].1),
                None => None,
            }
        },
        _ => None,
    }
}

fn text_field(v: &Value, key: &str) -> (r: Option<String>)
    ensures
        r matches Some(s) ==> text_of(field_of(v@, key@)) == Some(s@),
        r is None ==> text_of(field_of(v@, key@)) is None,
{
    match get_field(v, key) {
        Some(Value::String(s)) => Some(s.clone()),
        _ => None,
    }
}

fn field_or(item: &Value, key: &str, d: Value) -> (r: (String, Value))
    ensures
        r.0@ == key@,
        r.1@ == or_default(field_of(item@, key@), d@),
{
    match get_field(item, key) {
        Some(v) => (String::from_str(key), v.duplicate()),
        None => (String::from_str(key), d),
    }
}

fn empty_text() -> (v: Value)
    ensures
        v@ == ValueView::Str(""@),
{
    Value::String(String::from_str(""))
}

fn english_item<'a>(items: &'a Vec<Value>, tag: &String, start: usize, item: &'a Value) -> (r: &'a Value)
    requires
        start + 150 <= usize::MAX,
    ensures
        r@ == english_from(view_values(items@), tag@, start + 100, start + 150, item@),
{
    let ghost iv = view_values(items@);
    proof {
        lemma_view_values_len(items@);
    }
    let mut j: usize = start + 100;
    while j < start + 150 && j < items.len()
        invariant
            start + 100 <= j <= start + 150,
            start + 150 <= usize::MAX,
            iv == view_values(items@),
            iv.len() == items@.len(),
            forall|k: int| 0 <= k < items@.len() ==> #[trigger] iv[k] == items@[k]@,
            english_from(iv, tag@, start + 100, start + 150, item@) == english_from(iv, tag@, j as int, start + 150, item@),
        decreases start + 150 - j,
    {
        match text_field(&items[j], "regionTag") {
            Some(t) => {
                if t == *tag {
                    return &items[j];
                }
            },
            None => {},
        }
        j = j + 1;
    }
    item
}

pub open spec fn slot_view(r: Result<Option<OriginalGame>, String>) -> Result<Option<OriginalGameView>, Seq<char>> {
    match r {
        Ok(Some(g)) => Ok(Some(g@)),
        Ok(None) => Ok(None),
        Err(m) => Err(m@),
    }
}

fn with_text(prefix: &str, s: &str) -> (r: String)
    ensures
        r@ == prefix@ + s@,
{
    let mut m = String::from_str(prefix);
    m.append(s);
    m
}

/// The game in slot `slot` of the stock menu, `None` for an empty slot.
fn original_in_slot(items: &Vec<Value>, versions: &Vec<(String, Value)>, start: usize, slot: usize) -> (r: Result<
    Option<OriginalGame>,
    String,
>)
    requires
        slot < items@.len(),
        start + 150 <= usize::MAX,
    ensures
        slot_view(r) == original_at(view_values(items@), view_entries(versions@), start as int, slot as int),
{
    proof {
        lemma_view_values_len(items@);
        lemma_view_entries_len(versions@);
    }
    let item = &items[slot];
    let tag = match text_field(item, "regionTag") {
        None => {
            return Err(String::from_str("Game has no regionTag"));
        },
        Some(t) => t,
    };
    if tag == String::from_str("DUMMY") {
        return Ok(None);
    }
    match safe_relative(tag.as_str()) {
        Err(m) => {
            return Err(m);
        },
        Ok(()) => {},
    }
    if !is_one_component(tag.as_str()) || has_prefix(tag.as_str(), "FOLDER") {
        return Err(with_text("Invalid game identifier: ", tag.as_str()));
    }
    let pi = match find_entry(versions, &tag) {
        None => {
            return Err(with_text("No ROM profile for ", tag.as_str()));
        },
        Some(i) => i,
    };
    let profile = &versions[pi].1;
    let orig = match text_field(profile, "rom") {
        None => {
            return Err(String::from_str("Game has no ROM filename"));
        },
        Some(o) => o,
    };
    let f = match file_name_of(orig.as_str()) {
        None => {
            return Err(String::from_str("Invalid ROM filename"));
        },
        Some(f) => f,
    };
    match safe_relative(f.as_str()) {
        Err(m) => {
            return Err(m);
        },
        Ok(()) => {},
    }
    let mut rom: Vec<(String, Value)> = match profile {
        Value::Object(pes) => match profile.duplicate() {
            Value::Object(es) => es,
            _ => {
                proof {
                    assert(false);
                }
                Vec::new()
            },
        },
        _ => {
            return Err(String::from_str("Invalid ROM profile"));
        },
    };
    object_insert(&mut rom, String::from_str("rom"), Value::String(f.clone()));
    object_insert(&mut rom, String::from_str("regionTag"), Value::String(tag.clone()));
    let english = english_item(items, &tag, start, item);
    let image = match get_field(item, "image") {
        Some(v) => match crate::source::index_u64_of(v) {
            Some(n) => n,
            None => slot as u64,
        },
        None => slot as u64,
    };
    let mut display: Vec<(String, Value)> = Vec::new();
    display.push(field_or(item, "name", empty_text()));
    display.push(field_or(item, "tname", empty_text()));
    display.push(field_or(item, "titlebar", Value::Int(0)));
    display.push(field_or(item, "ccolor", Value::Int(0)));
    display.push(field_or(item, "csize", Value::Int(0)));
    display.push(field_or(item, "players", Value::Int(0)));
    display.push(field_or(item, "demo_time", Value::Int(0)));
    let (_, name_eng) = field_or(english, "tname", empty_text());
    display.push((String::from_str("name_eng"), name_eng));
    let mut emulator: Vec<(String, Value)> = Vec::new();
    emulator.push(field_or(item, "EmuOfsX", Value::Int(0)));
    emulator.push(field_or(item, "EmuOfsY", Value::Int(0)));
    emulator.push(field_or(item, "ScreenMode", Value::Int(0)));
    let mut entry: Vec<(String, Value)> = Vec::new();
    entry.push((String::from_str("folder"), Value::String(tag.clone())));
    entry.push(field_or(item, "sor_date", Value::Int(0)));
    entry.push(field_or(item, "sor_demo", Value::Int(0)));
    entry.push(field_or(item, "sor_genr", Value::Int(0)));
    entry.push(field_or(item, "sor_name", Value::Int(0)));
    entry.push(field_or(item, "sor_pnum", Value::Int(0)));
    proof {
        lemma_view_entries_len(display@);
        lemma_view_entries_len(emulator@);
        lemma_view_entries_len(entry@);
        let iv = view_values(items@);
        let tv = view_entries(versions@);
        assert(iv[slot as int] == item@);
        let want = original_view(iv, start as int, slot as int, tag@, f@, view_entries(rom@));
        assert(view_entries(display@) =~= want.display);
        assert(view_entries(emulator@) =~= want.emulator);
        assert(view_entries(entry@) =~= want.entry);
    }
    let g = OriginalGame { tag, rom_file: f, image, display, rom, emulator, entry };
    Ok(Some(g))
}

proof fn lemma_originals_err(items: Seq<ValueView>, versions: Seq<(Seq<char>, ValueView)>, start: int, k0: nat, k: nat)
    requires
        k0 <= k,
        originals_from(items, versions, start, k0) is Err,
    ensures
        originals_from(items, versions, start, k) == originals_from(items, versions, start, k0),
    decreases k,
{
    if k > k0 {
        lemma_originals_err(items, versions, start, k0, (k - 1) as nat);
    }
}

/// The original games of a lineup (50 slots of the stock menu, from slot 0
/// for Japan and 50 for the US): from the stock menu tree
/// (`title_mode_top`) and the stock ROM profiles (`title_prof`).
pub fn original_games(menu: &Value, profiles: &Value, lineup: LineupKind) -> (r: Result<Vec<OriginalGame>, String>)
    ensures
        games_view(r) == original_games_of(menu@, profiles@, lineup),
{
    let no_list = "Original menu has no game list";
    let items: &Vec<Value> = match get_field(menu, "items") {
        Some(v) => match v {
            Value::Array(a) => a,
            _ => {
                return Err(String::from_str(no_list));
            },
        },
        None => match get_field(menu, "root") {
            Some(root) => match get_field(root, "items") {
                Some(Value::Array(a)) => a,
                _ => {
                    return Err(String::from_str(no_list));
                },
            },
            None => {
                return Err(String::from_str(no_list));
            },
        },
    };
    proof {
        lemma_view_values_len(items@);
    }
    if items.len() < 200 {
        return Err(String::from_str("Unsupported original menu: expected the JP/US lineups"));
    }
    let no_profiles = "Original ROM profiles not found";
    let versions: &Vec<(String, Value)> = match get_field(profiles, "root") {
        Some(root) => match get_field(root, "m2epi") {
            Some(m) => match get_field(m, "version") {
                Some(Value::Object(es)) => es,
                _ => {
                    return Err(String::from_str(no_profiles));
                },
            },
            None => {
                return Err(String::from_str(no_profiles));
            },
        },
        None => {
            return Err(String::from_str(no_profiles));
        },
    };
    let start: usize = match lineup {
        LineupKind::Jp => 0,
        LineupKind::Us => 50,
    };
    let ghost iv = view_values(items@);
    let ghost vv = view_entries(versions@);
    assert(menu_items(menu@) == Some(iv));
    assert(rom_profiles(profiles@) == Some(vv));
    let mut out: Vec<OriginalGame> = Vec::new();
    assert(out@.map_values(|g: OriginalGame| g@) =~= Seq::<OriginalGameView>::empty());
    let mut k: usize = 0;
    while k < 50
        invariant
            k <= 50,
            start == lineup_start(lineup),
            items@.len() >= 200,
            iv == view_values(items@),
            vv == view_entries(versions@),
            menu_items(menu@) == Some(iv),
            rom_profiles(profiles@) == Some(vv),
            iv.len() >= 200,
            originals_from(iv, vv, start as int, k as nat) == Ok::<Seq<OriginalGameView>, Seq<char>>(
                out@.map_values(|g: OriginalGame| g@),
            ),
        decreases 50 - k,
    {
        proof {
            lemma_view_values_len(items@);
        }
        match original_in_slot(items, versions, start, start + k) {
            Err(m) => {
                proof {
                    lemma_originals_err(iv, vv, start as int, (k + 1) as nat, 50);
                }
                return Err(m);
            },
            Ok(None) => {},
            Ok(Some(g)) => {
                let ghost before = out@;
                out.push(g);
                assert(out@.map_values(|g: OriginalGame| g@) =~= before.map_values(|g: OriginalGame| g@).push(
                    g@,
                ));
            },
        }
        k = k + 1;
    }
    Ok(out)
}

// ---- a new library from a console dump ----

/// The stock templates a library keeps: the four files the generators start from.
pub open spec fn stock_templates() -> Seq<Seq<char>> {
    seq![
        "040/config/title_prof.psb.m"@,
        "040/config/title_mode_top.psb.m"@,
        "040/motion/title_jp_titleselect_jp.psb.m"@,
        "040/motion/title_jp_titleselect_us.psb.m"@,
    ]
}

/// Everything a dump must hold before a library is made from it: the stock
/// templates, the engine and its runtime files.
pub open spec fn required_files() -> Seq<Seq<char>> {
    stock_templates() + seq![
        "m2engage"@,
        "libopus.so.0"@,
        "version"@,
        "shutdown.png"@,
        "system/script/init.nut.m"@,
        "system/config/system_prof.psb.m"@,
    ]
}

/// The files copied into the library's `templates` folder: the stock
/// templates and the font resources.
pub open spec fn template_files() -> Seq<Seq<char>> {
    stock_templates() + seq![
        "system/font/makoto_basefont.psb.m"@,
        "system/font/makoto_basefont_18pt.psb.m"@,
        "system/font/makoto_basefont_32pt.psb.m"@,
        "system/motion/titleselect_ui.psb.m"@,
    ]
}

pub open spec fn missing_message(name: Seq<char>) -> Seq<char> {
    "The dump is missing "@ + name + ". Select the original P9, not only alldata.bin."@
}

fn texts_of(names: &[&str]) -> (r: Vec<String>)
    ensures
        r@.len() == names@.len(),
        forall|i: int| 0 <= i < names@.len() ==> #[trigger] r@[i]@ == names@[i]@,
{
    let mut r: Vec<String> = Vec::new();
    let mut i: usize = 0;
    while i < names.len()
        invariant
            i <= names@.len(),
            r@.len() == i,
            forall|k: int| 0 <= k < i ==> #[trigger] r@[k]@ == names@[k]@,
        decreases names@.len() - i,
    {
        r.push(String::from_str(names[i]));
        i = i + 1;
    }
    r
}

/// The files a dump must hold, in the order they are checked.
pub fn required_file_names() -> (r: Vec<String>)
    ensures
        loose_names(r@) == required_files(),
{
    let r = texts_of(
        &[
            "040/config/title_prof.psb.m",
            "040/config/title_mode_top.psb.m",
            "040/motion/title_jp_titleselect_jp.psb.m",
            "040/motion/title_jp_titleselect_us.psb.m",
            "m2engage",
            "libopus.so.0",
            "version",
            "shutdown.png",
            "system/script/init.nut.m",
            "system/config/system_prof.psb.m",
        ],
    );
    assert(loose_names(r@) =~= required_files());
    r
}

/// The files copied into a new library's `templates` folder.
pub fn template_file_names() -> (r: Vec<String>)
    ensures
        loose_names(r@) == template_files(),
{
    let r = texts_of(
        &[
            "040/config/title_prof.psb.m",
            "040/config/title_mode_top.psb.m",
            "040/motion/title_jp_titleselect_jp.psb.m",
            "040/motion/title_jp_titleselect_us.psb.m",
            "system/font/makoto_basefont.psb.m",
            "system/font/makoto_basefont_18pt.psb.m",
            "system/font/makoto_basefont_32pt.psb.m",
            "system/motion/titleselect_ui.psb.m",
        ],
    );
    assert(loose_names(r@) =~= template_files());
    r
}

/// Checks that a dump whose files are `names` holds every required file;
/// refused with the first one missing.
pub fn check_dump(names: &Vec<String>) -> (r: Result<(), String>)
    ensures
        r is Ok <==> forall|j: int| 0 <= j < required_files().len() ==> loose_names(names@).contains(
            #[trigger] required_files()[j],
        ),
        r matches Err(m) ==> exists|j: int|
            0 <= j < required_files().len() && !loose_names(names@).contains(#[trigger] required_files()[j])
                && m@ == missing_message(required_files()[j]) && forall|i: int|
                0 <= i < j ==> loose_names(names@).contains(required_files()[i]),
{
    let req = required_file_names();
    let ghost rv = loose_names(req@);
    let mut j: usize = 0;
    while j < req.len()
        invariant
            j <= req@.len(),
            rv == loose_names(req@),
            rv == required_files(),
            rv.len() == req@.len(),
            forall|i: int| 0 <= i < j ==> loose_names(names@).contains(#[trigger] rv[i]),
        decreases req@.len() - j,
    {
        if !contains_text(names, &req[j]) {
            let mut m = String::from_str("The dump is missing ");
            m.append(req[j].as_str());
            m.append(". Select the original P9, not only alldata.bin.");
            assert(rv[j as int] == req@[j as int]@);
            return Err(m);
        }
        assert(rv[j as int] == req@[j as int]@);
        j = j + 1;
    }
    Ok(())
}

/// Whether a file of the dump is copied into the new library's `game`
/// folder: everything but the ROMs, saves, the packed archive and
/// `lost+found`.
pub open spec fn copied_to_game(name: Seq<char>) -> bool {
    !(starts_with(name, "system/roms/"@) || starts_with(name, "save/"@) || starts_with(name, "alldata."@)
        || starts_with(name, "lost+found/"@))
}

pub fn copies_to_game(name: &str) -> (b: bool)
    ensures
        b == copied_to_game(name@),
{
    !(has_prefix(name, "system/roms/") || has_prefix(name, "save/") || has_prefix(name, "alldata.") || has_prefix(
        name,
        "lost+found/",
    ))
}

/// Whether a file of the dump is an original CD game to take the BIOS from.
pub open spec fn bios_source(name: Seq<char>) -> bool {
    starts_with(name, "system/roms/"@) && ends_with_lower(name, ".pcd"@)
}

pub fn is_bios_source(name: &str) -> (b: bool)
    ensures
        b == bios_source(name@),
{
    has_prefix(name, "system/roms/") && ends_with_lower_text(name, ".pcd")
}

pub open spec fn no_bios_message() -> Seq<char> {
    "No compatible BIOS pair found. Configure BIOS in Settings before importing a CUE."@
}

/// Going through the first `k` attempts to take the BIOS from a CD game:
/// the attempt that succeeded, if one did, and the warnings of those that
/// failed before it.
pub open spec fn bios_tries(tried: Seq<(String, Result<BiosConfig, String>)>, k: nat) -> (Option<int>, Seq<Seq<char>>)
    decreases k,
{
    if k == 0 || k > tried.len() {
        (None, Seq::empty())
    } else {
        let (found, warnings) = bios_tries(tried, (k - 1) as nat);
        if found is Some {
            (found, warnings)
        } else {
            match tried[k - 1].1 {
                Ok(_) => (Some(k - 1), warnings),
                Err(e) => (None, warnings.push(tried[k - 1].0@ + ": "@ + e@)),
            }
        }
    }
}

/// The BIOS a new library is given and its warnings, from the attempts to
/// take the BIOS from the dump's CD games (each named, in the order they
/// were made): the first that succeeded, the failures before it as warnings,
/// and a last warning when none succeeded.
pub fn bios_from_attempts(tried: Vec<(String, Result<BiosConfig, String>)>) -> (r: (Option<BiosConfig>, Vec<String>))
    ensures
        bios_tries(tried@, tried@.len()).0 matches Some(k) ==> (r.0 matches Some(c) && tried@[k].1 == Ok::<
            BiosConfig,
            String,
        >(c) && r.1@.map_values(|w: String| w@) == bios_tries(tried@, tried@.len()).1),
        bios_tries(tried@, tried@.len()).0 is None ==> (r.0 is None && r.1@.map_values(|w: String| w@)
            == bios_tries(tried@, tried@.len()).1.push(no_bios_message())),
{
    let ghost tv = tried@;
    let count = tried.len();
    let mut warnings: Vec<String> = Vec::new();
    let mut rest = tried;
    let ghost n = tv.len();
    assert(warnings@.map_values(|w: String| w@) =~= Seq::<Seq<char>>::empty());
    let mut k: usize = 0;
    assert(rest@ =~= tv.skip(0));
    while rest.len() > 0
        invariant
            n == tv.len(),
            k + rest@.len() == n,
            n == count,
            tv == tried@,
            rest@ == tv.skip(k as int),
            bios_tries(tv, k as nat) == (None::<int>, warnings@.map_values(|w: String| w@)),
        decreases rest@.len(),
    {
        let (name, outcome) = rest.remove(0);
        assert((name, outcome) == tv[k as int]);
        match outcome {
            Ok(c) => {
                proof {
                    assert(tv[k as int].1 == Ok::<BiosConfig, String>(c));
                    assert(bios_tries(tv, (k + 1) as nat) == (Some(k as int), bios_tries(tv, k as nat).1));
                    lemma_bios_found(tv, (k + 1) as nat, n);
                    assert(bios_tries(tv, n) == (Some(k as int), warnings@.map_values(|w: String| w@)));
                }
                return (Some(c), warnings);
            },
            Err(e) => {
                let ghost before = warnings@;
                let mut w = name;
                w.append(": ");
                w.append(e.as_str());
                warnings.push(w);
                assert(warnings@.map_values(|w: String| w@) =~= before.map_values(|w: String| w@).push(
                    tv[k as int].0@ + ": "@ + e@,
                ));
            },
        }
        k = k + 1;
    }
    assert(k == n);
    let ghost before = warnings@;
    warnings.push(String::from_str("No compatible BIOS pair found. Configure BIOS in Settings before importing a CUE."));
    assert(warnings@.map_values(|w: String| w@) =~= before.map_values(|w: String| w@).push(no_bios_message()));
    (None, warnings)
}

proof fn lemma_bios_found(tried: Seq<(String, Result<BiosConfig, String>)>, k0: nat, k: nat)
    requires
        k0 <= k <= tried.len(),
        bios_tries(tried, k0).0 is Some,
    ensures
        bios_tries(tried, k) == bios_tries(tried, k0),
    decreases k,
{
    if k > k0 {
        lemma_bios_found(tried, k0, (k - 1) as nat);
    }
}

}
