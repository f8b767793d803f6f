//! The master game list of a folder pack (`title_mode_top`): 200 menu items,
//! fifty per block. Slots 0..49 hold the JP lineup and 50..99 the US lineup
//! (Japanese names); 100..149 and 150..199 hold them again with English
//! names. A pack fills only its own lineup's slots and stamps the stock DUMMY
//! item everywhere else.
use vstd::prelude::*;
use vstd::string::StrSliceExecFns;
use vstd::string::StringExecFns;
use crate::psb::format::{decimal, file_readable, read_file, read_result};
use crate::psb::reader::{decimal_string, read};
use crate::psb::value::{
    Value, ValueView, find_key, insert_entry, lemma_find_key, lemma_view_entries_len, lemma_view_values_len,
    lemma_view_values_push, object_insert, view_entries, view_values, lookup, lemma_insert_lookup,
};
use crate::psb::writer::keys_fit;
use crate::publish::{Error, Failure, Game, LineupKind, failed_as, written_or_refused};
use crate::title_prof::{find_entry, push_entry};

verus! {

/// Items in the stock list, and games a lineup can hold.
pub const ITEMS: usize = 200;
pub const LINEUP_MAX: usize = 50;

/// The entries of an object (none for anything else).
pub open spec fn entries_of(v: ValueView) -> Seq<(Seq<char>, ValueView)> {
    match v {
        ValueView::Object(es) => es,
        _ => Seq::empty(),
    }
}

/// `es` after inserting the first `k` pairs of `pairs`, one after the other.
pub open spec fn insert_pairs(
    es: Seq<(Seq<char>, ValueView)>,
    pairs: Seq<(Seq<char>, ValueView)>,
    k: nat,
) -> Seq<(Seq<char>, ValueView)>
    decreases k,
{
    if k == 0 || k > pairs.len() {
        es
    } else {
        insert_entry(insert_pairs(es, pairs, (k - 1) as nat), pairs[k - 1].0, pairs[k - 1].1)
    }
}

/// The name a menu item shows: the display name, else the title name.
pub open spec fn shown_name(g: Game) -> Seq<char> {
    if g.data.display.name@.len() == 0 {
        g.data.display.tname@
    } else {
        g.data.display.name@
    }
}

/// The title name of a menu item: in the English blocks the English name if
/// there is one, else the title name, else the shown name.
pub open spec fn title_name(g: Game, english: bool) -> Seq<char> {
    if english && g.data.display.name_eng@.len() > 0 {
        g.data.display.name_eng@
    } else if g.data.display.tname@.len() > 0 {
        g.data.display.tname@
    } else {
        shown_name(g)
    }
}

/// An alternative region tag, `NO` when there is none.
pub open spec fn tag_or_no(o: Option<String>) -> Seq<char> {
    match o {
        Some(t) => t@,
        None => "NO"@,
    }
}

/// The fields a game sets on its menu item in slot `slot`.
pub open spec fn game_fields(g: Game, slot: nat, english: bool) -> Seq<(Seq<char>, ValueView)> {
    seq![
        ("name"@, ValueView::Str(shown_name(g))),
        ("tname"@, ValueView::Str(title_name(g, english))),
        ("regionTag"@, ValueView::Str(g.region_tag@)),
        ("regionTagE"@, ValueView::Str(tag_or_no(g.data.rom_alt.region_tag_e))),
        ("regionTagS1"@, ValueView::Str(tag_or_no(g.data.rom_alt.region_tag_s1))),
        ("regionTagS2"@, ValueView::Str(tag_or_no(g.data.rom_alt.region_tag_s2))),
        ("image"@, ValueView::Int(slot as i64)),
        ("players"@, ValueView::Int(g.data.display.players as i64)),
        ("titlebar"@, ValueView::Int(g.data.display.titlebar as i64)),
        ("ccolor"@, ValueView::Int(g.data.display.ccolor as i64)),
        ("csize"@, ValueView::Int(g.data.display.csize as i64)),
        ("demo_time"@, ValueView::Int(g.data.display.demo_time as i64)),
        ("EmuOfsX"@, ValueView::Int(g.data.emulator.emu_ofs_x as i64)),
        ("EmuOfsY"@, ValueView::Int(g.data.emulator.emu_ofs_y as i64)),
        ("ScreenMode"@, ValueView::Int(g.data.emulator.screen_mode as i64)),
        ("sor_date"@, ValueView::Int(g.sort.sor_date as i64)),
        ("sor_demo"@, ValueView::Int(g.sort.sor_demo as i64)),
        ("sor_genr"@, ValueView::Int(g.sort.sor_genr as i64)),
        ("sor_name"@, ValueView::Int(g.sort.sor_name as i64)),
        ("sor_pnum"@, ValueView::Int(g.sort.sor_pnum as i64)),
    ]
}

/// The menu item of a game: the stock item `template` with the game's fields.
pub open spec fn real_item(template: ValueView, g: Game, slot: nat, english: bool) -> ValueView {
    ValueView::Object(insert_pairs(entries_of(template), game_fields(g, slot, english), 20))
}

/// After inserting the first `k` pairs, the key of pair `j` gives its value
/// when no later pair has that key.
pub proof fn lemma_insert_pairs_lookup(
    es: Seq<(Seq<char>, ValueView)>,
    pairs: Seq<(Seq<char>, ValueView)>,
    k: nat,
    j: int,
)
    requires
        0 <= j < k <= pairs.len(),
        forall|m: int| j < m < k ==> #[trigger] pairs[m].0 != pairs[j].0,
    ensures
        lookup(insert_pairs(es, pairs, k), pairs[j].0) == Some(pairs[j].1),
    decreases k,
{
    let prev = insert_pairs(es, pairs, (k - 1) as nat);
    lemma_insert_lookup(prev, pairs[k - 1].0, pairs[k - 1].1, pairs[j].0);
    if j < k - 1 {
        lemma_insert_pairs_lookup(es, pairs, (k - 1) as nat, j);
    }
}

pub(crate) proof fn lemma_sort_keys_distinct()
    ensures
        "sor_date"@ != "sor_demo"@,
        "sor_date"@ != "sor_genr"@,
        "sor_date"@ != "sor_name"@,
        "sor_date"@ != "sor_pnum"@,
        "sor_demo"@ != "sor_genr"@,
        "sor_demo"@ != "sor_name"@,
        "sor_demo"@ != "sor_pnum"@,
        "sor_genr"@ != "sor_name"@,
        "sor_genr"@ != "sor_pnum"@,
        "sor_name"@ != "sor_pnum"@,
{
    reveal_strlit("sor_date");
    reveal_strlit("sor_demo");
    reveal_strlit("sor_genr");
    reveal_strlit("sor_name");
    reveal_strlit("sor_pnum");
    assert("sor_date"@[5] != "sor_demo"@[5]);
    assert("sor_date"@[4] != "sor_genr"@[4]);
    assert("sor_date"@[4] != "sor_name"@[4]);
    assert("sor_date"@[4] != "sor_pnum"@[4]);
    assert("sor_demo"@[4] != "sor_genr"@[4]);
    assert("sor_demo"@[4] != "sor_name"@[4]);
    assert("sor_demo"@[4] != "sor_pnum"@[4]);
    assert("sor_genr"@[4] != "sor_name"@[4]);
    assert("sor_genr"@[4] != "sor_pnum"@[4]);
    assert("sor_name"@[4] != "sor_pnum"@[4]);
}

/// A game's menu item sorts by the game's own values: its `sor_date`,
/// `sor_demo`, `sor_genr`, `sor_name` and `sor_pnum` are those of the game,
/// whatever the stock item held.
pub proof fn lemma_item_sort_fields(template: ValueView, g: Game, slot: nat, english: bool)
    ensures
        lookup(entries_of(real_item(template, g, slot, english)), "sor_date"@) == Some(
            ValueView::Int(g.sort.sor_date as i64),
        ),
        lookup(entries_of(real_item(template, g, slot, english)), "sor_demo"@) == Some(
            ValueView::Int(g.sort.sor_demo as i64),
        ),
        lookup(entries_of(real_item(template, g, slot, english)), "sor_genr"@) == Some(
            ValueView::Int(g.sort.sor_genr as i64),
        ),
        lookup(entries_of(real_item(template, g, slot, english)), "sor_name"@) == Some(
            ValueView::Int(g.sort.sor_name as i64),
        ),
        lookup(entries_of(real_item(template, g, slot, english)), "sor_pnum"@) == Some(
            ValueView::Int(g.sort.sor_pnum as i64),
        ),
{
    lemma_sort_keys_distinct();
    let es = entries_of(template);
    let pairs = game_fields(g, slot, english);
    assert(pairs.len() == 20);
    lemma_insert_pairs_lookup(es, pairs, 20, 15);
    lemma_insert_pairs_lookup(es, pairs, 20, 16);
    lemma_insert_pairs_lookup(es, pairs, 20, 17);
    lemma_insert_pairs_lookup(es, pairs, 20, 18);
    lemma_insert_pairs_lookup(es, pairs, 20, 19);
}

proof fn lemma_field_keys_distinct(g: Game, slot: nat, english: bool)
    ensures
        forall|i: int, j: int|
            0 <= i < j < 20 ==> #[trigger] game_fields(g, slot, english)[i].0 != #[trigger] game_fields(g, slot, english)[j].0,
{
    reveal_strlit("name");
    reveal_strlit("tname");
    reveal_strlit("regionTag");
    reveal_strlit("regionTagE");
    reveal_strlit("regionTagS1");
    reveal_strlit("regionTagS2");
    reveal_strlit("image");
    reveal_strlit("players");
    reveal_strlit("titlebar");
    reveal_strlit("ccolor");
    reveal_strlit("csize");
    reveal_strlit("demo_time");
    reveal_strlit("EmuOfsX");
    reveal_strlit("EmuOfsY");
    reveal_strlit("ScreenMode");
    reveal_strlit("sor_date");
    reveal_strlit("sor_demo");
    reveal_strlit("sor_genr");
    reveal_strlit("sor_name");
    reveal_strlit("sor_pnum");
    assert("name"@.len() == 4);
    assert("tname"@.len() == 5);
    assert("regionTag"@.len() == 9);
    assert("regionTagE"@.len() == 10);
    assert("regionTagS1"@.len() == 11);
    assert("regionTagS2"@.len() == 11);
    assert("image"@.len() == 5);
    assert("players"@.len() == 7);
    assert("titlebar"@.len() == 8);
    assert("ccolor"@.len() == 6);
    assert("csize"@.len() == 5);
    assert("demo_time"@.len() == 9);
    assert("EmuOfsX"@.len() == 7);
    assert("EmuOfsY"@.len() == 7);
    assert("ScreenMode"@.len() == 10);
    assert("sor_date"@.len() == 8);
    assert("sor_demo"@.len() == 8);
    assert("sor_genr"@.len() == 8);
    assert("sor_name"@.len() == 8);
    assert("sor_pnum"@.len() == 8);
    assert("tname"@[0] != "image"@[0]);
    assert("tname"@[0] != "csize"@[0]);
    assert("regionTag"@[0] != "demo_time"@[0]);
    assert("regionTagE"@[0] != "ScreenMode"@[0]);
    assert("regionTagS1"@[10] != "regionTagS2"@[10]);
    assert("image"@[0] != "csize"@[0]);
    assert("players"@[0] != "EmuOfsX"@[0]);
    assert("players"@[0] != "EmuOfsY"@[0]);
    assert("titlebar"@[0] != "sor_date"@[0]);
    assert("titlebar"@[0] != "sor_demo"@[0]);
    assert("titlebar"@[0] != "sor_genr"@[0]);
    assert("titlebar"@[0] != "sor_name"@[0]);
    assert("titlebar"@[0] != "sor_pnum"@[0]);
    assert("EmuOfsX"@[6] != "EmuOfsY"@[6]);
    assert("sor_date"@[5] != "sor_demo"@[5]);
    assert("sor_date"@[4] != "sor_genr"@[4]);
    assert("sor_date"@[4] != "sor_name"@[4]);
    assert("sor_date"@[4] != "sor_pnum"@[4]);
    assert("sor_demo"@[4] != "sor_genr"@[4]);
    assert("sor_demo"@[4] != "sor_name"@[4]);
    assert("sor_demo"@[4] != "sor_pnum"@[4]);
    assert("sor_genr"@[4] != "sor_name"@[4]);
    assert("sor_genr"@[4] != "sor_pnum"@[4]);
    assert("sor_name"@[4] != "sor_pnum"@[4]);
    let f = game_fields(g, slot, english);
    assert(f.len() == 20);
}

/// A game's menu item shows the game's own data, whatever the stock item held:
/// its names (the display name, else the title name; in the English blocks
/// the English name when there is one), its tags (`NO` for a missing
/// alternative), the cover's image index (its slot), its display, emulator
/// and sort settings.
pub proof fn lemma_item_fields(template: ValueView, g: Game, slot: nat, english: bool)
    ensures
        g.data.display.name@.len() > 0 ==> lookup(entries_of(real_item(template, g, slot, english)), "name"@)
            == Some(ValueView::Str(g.data.display.name@)),
        g.data.display.name@.len() == 0 ==> lookup(entries_of(real_item(template, g, slot, english)), "name"@)
            == Some(ValueView::Str(g.data.display.tname@)),
        english && g.data.display.name_eng@.len() > 0 ==> lookup(
            entries_of(real_item(template, g, slot, english)),
            "tname"@,
        ) == Some(ValueView::Str(g.data.display.name_eng@)),
        !(english && g.data.display.name_eng@.len() > 0) && g.data.display.tname@.len() > 0 ==> lookup(
            entries_of(real_item(template, g, slot, english)),
            "tname"@,
        ) == Some(ValueView::Str(g.data.display.tname@)),
        lookup(entries_of(real_item(template, g, slot, english)), "regionTag"@) == Some(ValueView::Str(g.region_tag@)),
        g.data.rom_alt.region_tag_e matches Some(t) ==> lookup(
            entries_of(real_item(template, g, slot, english)),
            "regionTagE"@,
        ) == Some(ValueView::Str(t@)),
        g.data.rom_alt.region_tag_e is None ==> lookup(entries_of(real_item(template, g, slot, english)), "regionTagE"@)
            == Some(ValueView::Str("NO"@)),
        g.data.rom_alt.region_tag_s1 matches Some(t) ==> lookup(
            entries_of(real_item(template, g, slot, english)),
            "regionTagS1"@,
        ) == Some(ValueView::Str(t@)),
        g.data.rom_alt.region_tag_s2 matches Some(t) ==> lookup(
            entries_of(real_item(template, g, slot, english)),
            "regionTagS2"@,
        ) == Some(ValueView::Str(t@)),
        lookup(entries_of(real_item(template, g, slot, english)), "image"@) == Some(ValueView::Int(slot as i64)),
        lookup(entries_of(real_item(template, g, slot, english)), "players"@) == Some(
            ValueView::Int(g.data.display.players as i64),
        ),
        lookup(entries_of(real_item(template, g, slot, english)), "titlebar"@) == Some(
            ValueView::Int(g.data.display.titlebar as i64),
        ),
        lookup(entries_of(real_item(template, g, slot, english)), "ccolor"@) == Some(
            ValueView::Int(g.data.display.ccolor as i64),
        ),
        lookup(entries_of(real_item(template, g, slot, english)), "csize"@) == Some(
            ValueView::Int(g.data.display.csize as i64),
        ),
        lookup(entries_of(real_item(template, g, slot, english)), "demo_time"@) == Some(
            ValueView::Int(g.data.display.demo_time as i64),
        ),
        lookup(entries_of(real_item(template, g, slot, english)), "EmuOfsX"@) == Some(
            ValueView::Int(g.data.emulator.emu_ofs_x as i64),
        ),
        lookup(entries_of(real_item(template, g, slot, english)), "EmuOfsY"@) == Some(
            ValueView::Int(g.data.emulator.emu_ofs_y as i64),
        ),
        lookup(entries_of(real_item(template, g, slot, english)), "ScreenMode"@) == Some(
            ValueView::Int(g.data.emulator.screen_mode as i64),
        ),
{
    lemma_field_keys_distinct(g, slot, english);
    let es = entries_of(template);
    let pairs = game_fields(g, slot, english);
    assert forall|j: int| 0 <= j < 15 implies lookup(insert_pairs(es, pairs, 20), #[trigger] pairs[j].0) == Some(
        pairs[j].1,
    ) by {
        lemma_insert_pairs_lookup(es, pairs, 20, j);
    }
    assert(pairs[0].0 == "name"@);
    assert(pairs[1].0 == "tname"@);
    assert(pairs[2].0 == "regionTag"@);
    assert(pairs[3].0 == "regionTagE"@);
    assert(pairs[4].0 == "regionTagS1"@);
    assert(pairs[5].0 == "regionTagS2"@);
    assert(pairs[6].0 == "image"@);
    assert(pairs[7].0 == "players"@);
    assert(pairs[8].0 == "titlebar"@);
    assert(pairs[9].0 == "ccolor"@);
    assert(pairs[10].0 == "csize"@);
    assert(pairs[11].0 == "demo_time"@);
    assert(pairs[12].0 == "EmuOfsX"@);
    assert(pairs[13].0 == "EmuOfsY"@);
    assert(pairs[14].0 == "ScreenMode"@);
}

/// A DUMMY item with image index `slot`.
pub open spec fn dummy_item(template: ValueView, slot: nat) -> ValueView {
    ValueView::Object(insert_entry(entries_of(template), "image"@, ValueView::Int(slot as i64)))
}

/// The item in slot `s` (`0 <= s < 200`) for a pack whose JP and US lineups
/// hold `jp` and `us` games.
pub open spec fn slot_item(item0: ValueView, dummy: ValueView, games: Seq<Game>, jp: nat, us: nat, s: int) -> ValueView {
    let block = s / 50;
    let i = s % 50;
    let count = if block == 0 || block == 2 {
        jp
    } else {
        us
    };
    if i < count {
        real_item(item0, games[i], i as nat, block >= 2)
    } else {
        dummy_item(dummy, s as nat)
    }
}

/// Counts of games in the JP and US lineups of a pack of `n` games.
pub open spec fn lineup_counts(kind: LineupKind, n: nat) -> (nat, nat) {
    match kind {
        LineupKind::Jp => (n, 0),
        LineupKind::Us => (0, n),
    }
}

/// Whether an item is a stock DUMMY item.
pub open spec fn is_dummy(v: ValueView) -> bool {
    match v {
        ValueView::Object(es) => find_key(es, "regionTag"@) >= 0 && es[find_key(es, "regionTag"@)].1
            == ValueView::Str("DUMMY"@),
        _ => false,
    }
}

/// Position of the first DUMMY item among the first `k` items, or -1.
pub open spec fn first_dummy(items: Seq<ValueView>, k: nat) -> int
    decreases k,
{
    if k == 0 || k > items.len() {
        -1
    } else if first_dummy(items, (k - 1) as nat) >= 0 {
        first_dummy(items, (k - 1) as nat)
    } else if is_dummy(items[k - 1]) {
        k - 1
    } else {
        -1
    }
}

/// The master list for `games` on the stock list `tree`, or why there is none.
pub open spec fn mode_top_result(tree: ValueView, games: Seq<Game>, kind: LineupKind) -> Result<ValueView, Failure> {
    match tree {
        ValueView::Object(es) => {
            let k = find_key(es, "items"@);
            if k < 0 {
                Err(Failure::Template("title_mode_top: missing 'items'"@))
            } else {
                match es[k].1 {
                    ValueView::Array(items) => if items.len() != 200 {
                        Err(
                            Failure::Template(
                                "title_mode_top: expected 200 items in template, got "@ + decimal(items.len()),
                            ),
                        )
                    } else if first_dummy(items, 200) < 0 {
                        Err(Failure::Template("title_mode_top: no DUMMY item in template"@))
                    } else if games.len() > 50 {
                        Err(Failure::Library("folder has "@ + decimal(games.len()) + " games, max 50 per lineup"@))
                    } else {
                        let (jp, us) = lineup_counts(kind, games.len());
                        let item0 = items[0];
                        let dummy = items[first_dummy(items, 200)];
                        let new_items = Seq::new(200, |s: int| slot_item(item0, dummy, games, jp, us, s));
                        Ok(
                            ValueView::Object(
                                insert_entry(
                                    insert_entry(
                                        insert_entry(es, "items"@, ValueView::Array(new_items)),
                                        "titleNum"@,
                                        ValueView::Int(jp as i64),
                                    ),
                                    "titleNumTG"@,
                                    ValueView::Int(us as i64),
                                ),
                            ),
                        )
                    },
                    _ => Err(Failure::Template("title_mode_top: 'items' not an array"@)),
                }
            }
        },
        _ => Err(Failure::Template("title_mode_top: root not an object"@)),
    }
}

/// Inserts each pair into `es`, one after the other.
fn insert_all(es: &mut Vec<(String, Value)>, pairs: &Vec<(String, Value)>)
    ensures
        view_entries(final(es)@) == insert_pairs(view_entries(old(es)@), view_entries(pairs@), pairs@.len()),
{
    proof {
        lemma_view_entries_len(pairs@);
    }
    let ghost p = view_entries(pairs@);
    let mut k: usize = 0;
    while k < pairs.len()
        invariant
            k <= pairs@.len(),
            p == view_entries(pairs@),
            p.len() == pairs@.len(),
            forall|j: int| 0 <= j < pairs@.len() ==> #[trigger] p[j] == (pairs@[j].0@, pairs@[j].1@),
            view_entries(es@) == insert_pairs(view_entries(old(es)@), p, k as nat),
        decreases pairs@.len() - k,
    {
        object_insert(es, pairs[k].0.clone(), pairs[k].1.duplicate());
        k = k + 1;
    }
}

fn entries_copy(v: &Value) -> (es: Vec<(String, Value)>)
    ensures
        view_entries(es@) == entries_of(v@),
{
    match v {
        Value::Object(o) => {
            let c = v.duplicate();
            match c {
                Value::Object(es) => es,
                _ => {
                    assert(false);
                    Vec::new()
                },
            }
        },
        _ => {
            let es: Vec<(String, Value)> = Vec::new();
            assert(view_entries(es@) =~= Seq::<(Seq<char>, ValueView)>::empty());
            es
        },
    }
}

fn text_value(s: &String) -> (v: Value)
    ensures
        v@ == ValueView::Str(s@),
{
    Value::String(s.clone())
}

fn tag_or_no_text(o: &Option<String>) -> (s: String)
    ensures
        s@ == tag_or_no(*o),
{
    match o {
        Some(t) => t.clone(),
        None => String::from_str("NO"),
    }
}

#[verifier::rlimit(60)]
fn game_fields_value(g: &Game, slot: usize, english: bool) -> (ps: Vec<(String, Value)>)
    ensures
        view_entries(ps@) == game_fields(*g, slot as nat, english),
{
    let d = &g.data.display;
    let name = if d.name.as_str().unicode_len() == 0 {
        d.tname.clone()
    } else {
        d.name.clone()
    };
    let tname = if english && d.name_eng.as_str().unicode_len() > 0 {
        d.name_eng.clone()
    } else if d.tname.as_str().unicode_len() > 0 {
        d.tname.clone()
    } else {
        name.clone()
    };
    let mut ps: Vec<(String, Value)> = Vec::new();
    assert(view_entries(ps@) =~= Seq::<(Seq<char>, ValueView)>::empty());
    push_entry(&mut ps, "name", Value::String(name));
    push_entry(&mut ps, "tname", Value::String(tname));
    push_entry(&mut ps, "regionTag", text_value(&g.region_tag));
    push_entry(&mut ps, "regionTagE", Value::String(tag_or_no_text(&g.data.rom_alt.region_tag_e)));
    push_entry(&mut ps, "regionTagS1", Value::String(tag_or_no_text(&g.data.rom_alt.region_tag_s1)));
    push_entry(&mut ps, "regionTagS2", Value::String(tag_or_no_text(&g.data.rom_alt.region_tag_s2)));
    push_entry(&mut ps, "image", Value::Int(slot as i64));
    push_entry(&mut ps, "players", Value::Int(d.players as i64));
    push_entry(&mut ps, "titlebar", Value::Int(d.titlebar as i64));
    push_entry(&mut ps, "ccolor", Value::Int(d.ccolor as i64));
    push_entry(&mut ps, "csize", Value::Int(d.csize as i64));
    push_entry(&mut ps, "demo_time", Value::Int(d.demo_time as i64));
    push_entry(&mut ps, "EmuOfsX", Value::Int(g.data.emulator.emu_ofs_x as i64));
    push_entry(&mut ps, "EmuOfsY", Value::Int(g.data.emulator.emu_ofs_y as i64));
    push_entry(&mut ps, "ScreenMode", Value::Int(g.data.emulator.screen_mode as i64));
    push_entry(&mut ps, "sor_date", Value::Int(g.sort.sor_date as i64));
    push_entry(&mut ps, "sor_demo", Value::Int(g.sort.sor_demo as i64));
    push_entry(&mut ps, "sor_genr", Value::Int(g.sort.sor_genr as i64));
    push_entry(&mut ps, "sor_name", Value::Int(g.sort.sor_name as i64));
    push_entry(&mut ps, "sor_pnum", Value::Int(g.sort.sor_pnum as i64));
    assert(view_entries(ps@) =~= game_fields(*g, slot as nat, english));
    ps
}

fn make_real_item(template: &Value, g: &Game, slot: usize, english: bool) -> (v: Value)
    ensures
        v@ == real_item(template@, *g, slot as nat, english),
{
    let mut es = entries_copy(template);
    let ps = game_fields_value(g, slot, english);
    proof {
        lemma_view_entries_len(ps@);
    }
    insert_all(&mut es, &ps);
    Value::Object(es)
}

fn make_dummy(template: &Value, slot: usize) -> (v: Value)
    ensures
        v@ == dummy_item(template@, slot as nat),
{
    let mut es = entries_copy(template);
    object_insert(&mut es, String::from_str("image"), Value::Int(slot as i64));
    Value::Object(es)
}

fn is_dummy_value(v: &Value) -> (b: bool)
    ensures
        b == is_dummy(v@),
{
    match v {
        Value::Object(es) => {
            let key = String::from_str("regionTag");
            match find_entry(es, &key) {
                Some(i) => {
                    proof {
                        lemma_view_entries_len(es@);
                    }
                    match &es[i].1 {
                        Value::String(s) => *s == String::from_str("DUMMY"),
                        _ => false,
                    }
                },
                None => false,
            }
        },
        _ => false,
    }
}

fn first_dummy_index(items: &Vec<Value>) -> (r: Option<usize>)
    requires
        items@.len() == 200,
    ensures
        r matches Some(d) ==> d as int == first_dummy(view_values(items@), 200) && d < 200,
        r is None ==> first_dummy(view_values(items@), 200) < 0,
{
    let ghost v = view_values(items@);
    proof {
        lemma_view_values_len(items@);
    }
    let mut k: usize = 0;
    while k < items.len()
        invariant
            k <= items@.len() == 200,
            v == view_values(items@),
            v.len() == 200,
            forall|j: int| 0 <= j < items@.len() ==> #[trigger] v[j] == items@[j]@,
            first_dummy(v, k as nat) < 0,
        decreases items@.len() - k,
    {
        if is_dummy_value(&items[k]) {
            proof {
                lemma_first_dummy_stays(v, (k + 1) as nat, 200);
            }
            return Some(k);
        }
        k = k + 1;
    }
    None
}

proof fn lemma_first_dummy_stays(items: Seq<ValueView>, k: nat, n: nat)
    requires
        k <= n <= items.len(),
        first_dummy(items, k) >= 0,
    ensures
        first_dummy(items, n) == first_dummy(items, k),
    decreases n,
{
    if n > k {
        lemma_first_dummy_stays(items, k, (n - 1) as nat);
    }
}

/// The items of the new list.
fn new_items_value(item0: &Value, dummy: &Value, games: &[Game], jp: usize, us: usize) -> (v: Vec<Value>)
    requires
        jp <= games@.len(),
        us <= games@.len(),
        games@.len() <= 50,
    ensures
        view_values(v@) == Seq::new(200, |s: int| slot_item(item0@, dummy@, games@, jp as nat, us as nat, s)),
{
    let ghost want = Seq::new(200, |s: int| slot_item(item0@, dummy@, games@, jp as nat, us as nat, s));
    let mut v: Vec<Value> = Vec::new();
    let mut s: usize = 0;
    assert(view_values(v@) =~= want.take(0));
    while s < 200
        invariant
            s <= 200,
            jp <= games@.len(),
            us <= games@.len(),
            games@.len() <= 50,
            want == Seq::new(200, |s: int| slot_item(item0@, dummy@, games@, jp as nat, us as nat, s)),
            view_values(v@) == want.take(s as int),
        decreases 200 - s,
    {
        let block = s / 50;
        let i = s % 50;
        let count = if block == 0 || block == 2 {
            jp
        } else {
            us
        };
        let item = if i < count {
            make_real_item(item0, &games[i], i, block >= 2)
        } else {
            make_dummy(dummy, s)
        };
        proof {
            lemma_view_values_push(v@, item);
            assert(item@ == want[s as int]);
        }
        v.push(item);
        s = s + 1;
        assert(view_values(v@) =~= want.take(s as int));
    }
    assert(want.take(200) =~= want);
    v
}

/// The master list of a folder pack, from the stock list `template` (as
/// read), the lineup the pack belongs to and its games in slot order.
#[verifier::spinoff_prover]
pub fn list_from(template: Value, lineup: LineupKind, games: &[Game]) -> (r: Result<Vec<u8>, Error>)
    ensures
        mode_top_result(template@, games@, lineup) matches Err(f) ==> failed_as(r, f),
        mode_top_result(template@, games@, lineup) matches Ok(out) ==> written_or_refused(r, out),
{
    let ghost tv = template@;
    let mut root = match template {
        Value::Object(es) => es,
        _ => {
            return Err(Error::Template(String::from_str("title_mode_top: root not an object")));
        },
    };
    proof {
        lemma_view_entries_len(root@);
    }
    let key = String::from_str("items");
    let k = match find_entry(&root, &key) {
        Some(k) => k,
        None => {
            return Err(Error::Template(String::from_str("title_mode_top: missing 'items'")));
        },
    };
    let items = match &root[k].1 {
        Value::Array(a) => a,
        _ => {
            return Err(Error::Template(String::from_str("title_mode_top: 'items' not an array")));
        },
    };
    proof {
        lemma_view_values_len(items@);
    }
    if items.len() != ITEMS {
        let mut m = String::from_str("title_mode_top: expected 200 items in template, got ");
        let n = decimal_string(items.len() as u64);
        m.append(n.as_str());
        return Err(Error::Template(m));
    }
    let d = match first_dummy_index(items) {
        Some(d) => d,
        None => {
            return Err(Error::Template(String::from_str("title_mode_top: no DUMMY item in template")));
        },
    };
    let n = games.len();
    if n > LINEUP_MAX {
        let mut m = String::from_str("folder has ");
        let digits = decimal_string(n as u64);
        m.append(digits.as_str());
        m.append(" games, max 50 per lineup");
        return Err(Error::Library(m));
    }
    let (jp, us) = match lineup {
        LineupKind::Jp => (n, 0),
        LineupKind::Us => (0, n),
    };
    let item0 = items[0].duplicate();
    let dummy = items[d].duplicate();
    let new_items = new_items_value(&item0, &dummy, games, jp, us);
    object_insert(&mut root, String::from_str("items"), Value::Array(new_items));
    object_insert(&mut root, String::from_str("titleNum"), Value::Int(jp as i64));
    object_insert(&mut root, String::from_str("titleNumTG"), Value::Int(us as i64));
    let out = Value::Object(root);
    if !keys_fit(&out) {
        return Err(Error::Template(String::from_str("the key names of the generated file do not fit its key table")));
    }
    match crate::psb::writer::write(&out, 4) {
        Ok(b) => {
            let r: Result<Vec<u8>, Error> = Ok(b);
            proof {
                let t0 = choose|t: crate::psb::layout::TrieArrays| #[trigger] crate::psb::writer::written(
                    b@,
                    out@,
                    4,
                    t,
                );
                assert(r->Ok_0 == b);
                assert(crate::psb::writer::written(r->Ok_0@, out@, 4, t0));
                assert(mode_top_result(tv, games@, lineup) == Ok::<ValueView, Failure>(out@));
            }
            r
        },
        Err(e) => Err(Error::Psb(e)),
    }
}

/// What the mode-top generator works from.
pub struct GenInputs<'a> {
    /// Decoded bytes of the stock mode-top template.
    pub template_psb: &'a [u8],
    /// The lineup the menu is for.
    pub lineup: LineupKind,
    /// The pack's games, in menu order.
    pub games: &'a [Game],
}

/// The master list of a folder pack, from the stock list file `template_psb`
/// (see `list_from`).
pub fn generate(inputs: &GenInputs) -> (r: Result<Vec<u8>, Error>)
    requires
    ensures
        read_result(inputs.template_psb@) matches Err(e) ==> r == Err::<Vec<u8>, Error>(Error::Psb(e)),
        read_result(inputs.template_psb@) matches Ok(tree) ==> (mode_top_result(
            tree,
            inputs.games@,
            inputs.lineup,
        ) matches Err(f) ==> failed_as(r, f)),
        read_result(inputs.template_psb@) matches Ok(tree) ==> (mode_top_result(
            tree,
            inputs.games@,
            inputs.lineup,
        ) matches Ok(out) ==> written_or_refused(r, out)),
{
    match read(inputs.template_psb) {
        Ok(t) => list_from(t, inputs.lineup, inputs.games),
        Err(e) => Err(Error::Psb(e)),
    }
}

} // verus!
