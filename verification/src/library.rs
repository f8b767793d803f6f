//! The library model the publishing steps consume: games, folder cards and
//! lineups, where their files live, and how a pack's entries are composed.
use vstd::prelude::*;
use vstd::string::StrSliceExecFns;
use vstd::string::StringExecFns;
use vstd::string::StringSliceAdditionalSpecFns;
use crate::publish::{CoverEntry, CoverSize, Game, GameDisplay, GameEmulator, GameJson, GameRom, RomAlt, SortIndices};

verus! {

// ---- faithful copies ----

impl Clone for GameDisplay {
    fn clone(&self) -> (r: Self)
        ensures
            r == *self,
    {
        GameDisplay {
            name: self.name.clone(),
            tname: self.tname.clone(),
            name_eng: self.name_eng.clone(),
            titlebar: self.titlebar,
            ccolor: self.ccolor,
            csize: self.csize,
            players: self.players,
            demo_time: self.demo_time,
        }
    }
}

fn copy_text(s: &Option<String>) -> (r: Option<String>)
    ensures
        r == *s,
{
    match s {
        Some(t) => Some(t.clone()),
        None => None,
    }
}

impl Clone for RomAlt {
    fn clone(&self) -> (r: Self)
        ensures
            r == *self,
    {
        RomAlt {
            region_tag_e: copy_text(&self.region_tag_e),
            region_tag_s1: copy_text(&self.region_tag_s1),
            region_tag_s2: copy_text(&self.region_tag_s2),
        }
    }
}

impl Clone for GameRom {
    fn clone(&self) -> (r: Self)
        ensures
            r == *self,
    {
        GameRom {
            arch: self.arch.clone(),
            country: self.country.clone(),
            preamp: self.preamp,
            rom: self.rom.clone(),
            tg16cd_systemcard: copy_text(&self.tg16cd_systemcard),
            tg16_option: self.tg16_option,
            tg16pad_type: self.tg16pad_type,
            region_tag: copy_text(&self.region_tag),
        }
    }
}

impl Clone for GameJson {
    fn clone(&self) -> (r: Self)
        ensures
            r == *self,
    {
        GameJson {
            display: self.display.clone(),
            emulator: self.emulator,
            rom: self.rom.clone(),
            rom_alt: self.rom_alt.clone(),
            cover: copy_text(&self.cover),
            cover_size: self.cover_size,
        }
    }
}

impl Clone for Game {
    fn clone(&self) -> (r: Self)
        ensures
            r == *self,
    {
        Game {
            dir_name: self.dir_name.clone(),
            region_tag: self.region_tag.clone(),
            data: self.data.clone(),
            sort: self.sort,
            source_dir: self.source_dir.clone(),
        }
    }
}

// ---- paths ----

/// `base` joined with `name` by the Unix rules of `Path::join`: an absolute
/// `name` replaces `base`; otherwise a `/` separates them unless `base` is
/// empty or already ends with one.
pub open spec fn joined(base: Seq<char>, name: Seq<char>) -> Seq<char> {
    if name.len() > 0 && name[0] == '/' {
        name
    } else if base.len() == 0 || base.last() == '/' {
        base + name
    } else {
        base + seq!['/'] + name
    }
}

/// Joins two paths as [`joined`] says.
pub fn join_path(base: &str, name: &str) -> (r: String)
    ensures
        r@ == joined(base@, name@),
{
    proof {
        reveal_strlit("/");
    }
    let n = name.unicode_len();
    if n > 0 && name.get_char(0) == '/' {
        return String::from_str(name);
    }
    let b = base.unicode_len();
    let mut r = String::from_str(base);
    if !(b == 0 || base.get_char(b - 1) == '/') {
        r.append("/");
    }
    r.append(name);
    r
}

/// Whether `p` occurs in `s`.
pub open spec fn has_infix(s: Seq<char>, p: Seq<char>) -> bool {
    exists|i: int| 0 <= i && i + p.len() <= s.len() && #[trigger] s.subrange(i, i + p.len()) == p
}

fn contains_text(s: &str, p: &str) -> (b: bool)
    ensures
        b == has_infix(s@, p@),
{
    let n = s.unicode_len();
    let m = p.unicode_len();
    if m > n {
        assert forall|i: int| 0 <= i && i + m <= n implies #[trigger] s@.subrange(i, i + m) != p@ by {}
        return false;
    }
    let mut i: usize = 0;
    while i <= n - m
        invariant
            m <= n,
            n == s@.len(),
            m == p@.len(),
            i <= n - m + 1,
            forall|q: int| 0 <= q < i ==> #[trigger] s@.subrange(q, q + m) != p@,
        decreases n - m + 1 - i,
    {
        let mut j: usize = 0;
        let mut same = true;
        while j < m
            invariant
                m <= n,
                i <= n - m,
                n == s@.len(),
                m == p@.len(),
                j <= m,
                same == forall|k: int| 0 <= k < j ==> s@[i + k] == p@[k],
            decreases m - j,
        {
            if s.get_char(i + j) != p.get_char(j) {
                same = false;
            }
            j = j + 1;
        }
        if same {
            assert(s@.subrange(i as int, i + m) =~= p@);
            return true;
        }
        assert(!(forall|k: int| 0 <= k < m ==> s@[i + k] == p@[k]));
        assert(s@.subrange(i as int, i + m) != p@) by {
            let k = choose|k: int| !(0 <= k < m ==> s@[i + k] == p@[k]);
            assert(s@.subrange(i as int, i + m)[k] == s@[i + k]);
        }
        i = i + 1;
    }
    assert forall|q: int| 0 <= q && q + m <= n implies #[trigger] s@.subrange(q, q + m) != p@ by {
        assert(q < i);
    }
    false
}

/// A cover's width, height and origin: 240 by 240 centred unless the
/// metadata says otherwise, a zero meaning the default.
pub open spec fn cover_geometry(size: Option<CoverSize>) -> (u32, u32, u32, u32) {
    match size {
        None => (240u32, 240u32, 120u32, 120u32),
        Some(cs) => {
            let w: u32 = if cs.width == 0 { 240 } else { cs.width };
            let h: u32 = if cs.height == 0 { 240 } else { cs.height };
            (w, h, if cs.origin_x == 0 { (w / 2) as u32 } else { cs.origin_x }, if cs.origin_y == 0 {
                (h / 2) as u32
            } else {
                cs.origin_y
            })
        },
    }
}

/// The save-state segment type of a ROM architecture: none for a folder
/// card, 11 for CD games, 12 for everything else.
pub open spec fn state_type_of(arch: Seq<char>) -> Option<u16> {
    if arch == "folder"@ {
        None
    } else if has_infix(arch, "cd"@) {
        Some(11u16)
    } else {
        Some(12u16)
    }
}

/// The file a game's metadata names as its cover, `cover.png` by default.
pub open spec fn cover_file(g: Game) -> Seq<char> {
    match g.data.cover {
        Some(c) => c@,
        None => "cover.png"@,
    }
}

impl Game {
    /// The game's ROM file.
    pub fn rom_path(&self) -> (r: String)
        ensures
            r@ == joined(self.source_dir@, self.data.rom.rom@),
    {
        join_path(self.source_dir.as_str(), self.data.rom.rom.as_str())
    }

    /// The game's cover image.
    pub fn cover_path(&self) -> (r: String)
        ensures
            r@ == joined(self.source_dir@, cover_file(*self)),
    {
        match &self.data.cover {
            Some(c) => join_path(self.source_dir.as_str(), c.as_str()),
            None => join_path(self.source_dir.as_str(), "cover.png"),
        }
    }

    /// The game's SRAM block (`sram.bin` in its directory).
    pub fn sram_path(&self) -> (r: String)
        ensures
            r@ == joined(self.source_dir@, "sram.bin"@),
    {
        join_path(self.source_dir.as_str(), "sram.bin")
    }

    /// The game's save-state directory (`saves` in its directory).
    pub fn saves_dir(&self) -> (r: String)
        ensures
            r@ == joined(self.source_dir@, "saves"@),
    {
        join_path(self.source_dir.as_str(), "saves")
    }

    /// The save-state segment type for the game's architecture.
    pub fn save_state_type(&self) -> (r: Option<u16>)
        ensures
            r == state_type_of(self.data.rom.arch@),
    {
        let folder = String::from_str("folder");
        if self.data.rom.arch == folder {
            None
        } else if contains_text(self.data.rom.arch.as_str(), "cd") {
            Some(11)
        } else {
            Some(12)
        }
    }

    /// Width, height and origin of the game's cover.
    pub fn cover_dimensions(&self) -> (r: (u32, u32, u32, u32))
        ensures
            r == cover_geometry(self.data.cover_size),
    {
        match &self.data.cover_size {
            Some(cs) => {
                let w = if cs.width == 0 { 240 } else { cs.width };
                let h = if cs.height == 0 { 240 } else { cs.height };
                let ox = if cs.origin_x == 0 { w / 2 } else { cs.origin_x };
                let oy = if cs.origin_y == 0 { h / 2 } else { cs.origin_y };
                (w, h, ox, oy)
            },
            None => (240, 240, 120, 120),
        }
    }
}

/// A folder of the library, shown as a card in its lineup's root menu.
#[derive(Debug)]
pub struct Folder {
    /// Directory name on disk, such as `FOLDER01`.
    pub dir_name: String,
    /// Display name from the folder's metadata, else the directory name.
    pub display_name: String,
    /// The folder card's row in the parent lineup's sort orders.
    pub sort: SortIndices,
    pub source_dir: String,
    /// The folder's games, in order.
    pub games: Vec<Game>,
}

/// The region tag of a folder card: `FOLDER_<lineup>_<dir>`.
pub open spec fn folder_tag(lineup: Seq<char>, dir_name: Seq<char>) -> Seq<char> {
    "FOLDER_"@ + lineup + "_"@ + dir_name
}

impl Folder {
    /// The folder card's cover image.
    pub fn cover_path(&self) -> (r: String)
        ensures
            r@ == joined(self.source_dir@, "cover.png"@),
    {
        join_path(self.source_dir.as_str(), "cover.png")
    }

    /// The region tag the published files give this folder card.
    pub fn region_tag(&self, lineup: &str) -> (r: String)
        ensures
            r@ == folder_tag(lineup@, self.dir_name@),
    {
        let mut r = String::from_str("FOLDER_");
        r.append(lineup);
        r.append("_");
        r.append(self.dir_name.as_str());
        r
    }
}

/// An entry of a lineup's root menu: a game or a folder card, in the order
/// the library lists them.
#[derive(Debug)]
pub enum LineupEntry {
    Game(Game),
    Folder(Folder),
}

impl LineupEntry {
    pub open spec fn dir_name_of(self) -> Seq<char> {
        match self {
            LineupEntry::Game(g) => g.dir_name@,
            LineupEntry::Folder(f) => f.dir_name@,
        }
    }

    pub open spec fn sort_of(self) -> SortIndices {
        match self {
            LineupEntry::Game(g) => g.sort,
            LineupEntry::Folder(f) => f.sort,
        }
    }

    /// The entry's directory name.
    pub fn dir_name(&self) -> (r: &str)
        ensures
            r@ == self.dir_name_of(),
    {
        match self {
            LineupEntry::Game(g) => g.dir_name.as_str(),
            LineupEntry::Folder(f) => f.dir_name.as_str(),
        }
    }

    /// The entry's sort indices.
    pub fn sort(&self) -> (r: &SortIndices)
        ensures
            *r == self.sort_of(),
    {
        match self {
            LineupEntry::Game(g) => &g.sort,
            LineupEntry::Folder(f) => &f.sort,
        }
    }
}

/// The folders among a lineup's root entries, in order.
pub open spec fn folders_of(entries: Seq<LineupEntry>) -> Seq<Folder>
    decreases entries.len(),
{
    if entries.len() == 0 {
        Seq::empty()
    } else {
        let rest = folders_of(entries.drop_last());
        match entries.last() {
            LineupEntry::Folder(f) => rest.push(f),
            LineupEntry::Game(_) => rest,
        }
    }
}

/// The games among a lineup's root entries, in order.
pub open spec fn games_of(entries: Seq<LineupEntry>) -> Seq<Game>
    decreases entries.len(),
{
    if entries.len() == 0 {
        Seq::empty()
    } else {
        let rest = games_of(entries.drop_last());
        match entries.last() {
            LineupEntry::Game(g) => rest.push(g),
            LineupEntry::Folder(_) => rest,
        }
    }
}

/// What a sequence of borrowed folders holds.
pub open spec fn folder_values(s: Seq<&Folder>) -> Seq<Folder> {
    s.map_values(|f: &Folder| *f)
}

/// What a sequence of borrowed games holds.
pub open spec fn game_values(s: Seq<&Game>) -> Seq<Game> {
    s.map_values(|g: &Game| *g)
}

/// A lineup (`jp` or `us`) of the library.
#[derive(Debug)]
pub struct Lineup {
    /// Root entries (games and folder cards) in the library's order.
    pub root_entries: Vec<LineupEntry>,
    pub source_dir: String,
}

/// The library: its two lineups.
#[derive(Debug)]
pub struct Library {
    pub jp: Lineup,
    pub us: Lineup,
}

/// The packs a lineup publishes: the root pack `_root` with the root's
/// games, then one pack per folder, named by its directory, with its games.
pub open spec fn publish_folders_of(entries: Seq<LineupEntry>) -> Seq<(Seq<char>, Seq<Game>)> {
    seq![("_root"@, games_of(entries))] + folders_of(entries).map_values(
        |f: Folder| (f.dir_name@, f.games@),
    )
}

impl Lineup {
    /// The lineup's folders, in order.
    pub fn folders(&self) -> (r: Vec<&Folder>)
        ensures
            folder_values(r@) == folders_of(self.root_entries@),
    {
        let mut r: Vec<&Folder> = Vec::new();
        let mut i: usize = 0;
        while i < self.root_entries.len()
            invariant
                i <= self.root_entries@.len(),
                folder_values(r@) == folders_of(self.root_entries@.take(i as int)),
            decreases self.root_entries@.len() - i,
        {
            assert(self.root_entries@.take(i + 1).drop_last() =~= self.root_entries@.take(i as int));
            let ghost before = r@;
            match &self.root_entries[i] {
                LineupEntry::Folder(f) => {
                    r.push(f);
                    assert(folder_values(r@) =~= folder_values(before).push(*f));
                },
                LineupEntry::Game(_) => {},
            }
            i = i + 1;
        }
        assert(self.root_entries@.take(i as int) =~= self.root_entries@);
        r
    }

    /// The lineup's games at root level, in order (folder cards excluded).
    pub fn root_games(&self) -> (r: Vec<&Game>)
        ensures
            game_values(r@) == games_of(self.root_entries@),
    {
        let mut r: Vec<&Game> = Vec::new();
        let mut i: usize = 0;
        while i < self.root_entries.len()
            invariant
                i <= self.root_entries@.len(),
                game_values(r@) == games_of(self.root_entries@.take(i as int)),
            decreases self.root_entries@.len() - i,
        {
            assert(self.root_entries@.take(i + 1).drop_last() =~= self.root_entries@.take(i as int));
            let ghost before = r@;
            match &self.root_entries[i] {
                LineupEntry::Game(g) => {
                    r.push(g);
                    assert(game_values(r@) =~= game_values(before).push(*g));
                },
                LineupEntry::Folder(_) => {},
            }
            i = i + 1;
        }
        assert(self.root_entries@.take(i as int) =~= self.root_entries@);
        r
    }

    /// One entry per publishable pack: `_root` with the root-level games,
    /// then each folder with its games.
    pub fn iter_publish_folders(&self) -> (r: Vec<(String, Vec<&Game>)>)
        ensures
            r@.len() == publish_folders_of(self.root_entries@).len(),
            forall|i: int|
                0 <= i < r@.len() ==> (#[trigger] r@[i]).0@ == publish_folders_of(self.root_entries@)[i].0
                    && game_values(r@[i].1@) == publish_folders_of(self.root_entries@)[i].1,
    {
        let ghost want = publish_folders_of(self.root_entries@);
        let ghost fs = folders_of(self.root_entries@);
        let mut out: Vec<(String, Vec<&Game>)> = Vec::new();
        out.push((String::from_str("_root"), self.root_games()));
        let folders = self.folders();
        let mut k: usize = 0;
        while k < folders.len()
            invariant
                k <= folders@.len(),
                folder_values(folders@) == fs,
                fs == folders_of(self.root_entries@),
                want == publish_folders_of(self.root_entries@),
                want.len() == fs.len() + 1,
                out@.len() == k + 1,
                forall|i: int|
                    0 <= i < out@.len() ==> (#[trigger] out@[i]).0@ == want[i].0 && game_values(out@[i].1@)
                        == want[i].1,
            decreases folders@.len() - k,
        {
            let f = folders[k];
            let mut gs: Vec<&Game> = Vec::new();
            let mut j: usize = 0;
            while j < f.games.len()
                invariant
                    j <= f.games@.len(),
                    game_values(gs@) == f.games@.take(j as int),
                decreases f.games@.len() - j,
            {
                let ghost before = gs@;
                gs.push(&f.games[j]);
                assert(game_values(gs@) =~= game_values(before).push(f.games@[j as int]));
                j = j + 1;
                assert(game_values(gs@) =~= f.games@.take(j as int));
            }
            assert(f.games@.take(j as int) =~= f.games@);
            assert(*f == fs[k as int]);
            assert(want[k + 1] == (fs[k as int].dir_name@, fs[k as int].games@));
            out.push((f.dir_name.clone(), gs));
            k = k + 1;
        }
        out
    }
}

// ---- folder cards and the back card ----

/// Whether `g` is the game-shaped card of a menu entry that is no game: a
/// folder card (`csize` 10) or a folder's back card (`csize` 11), with the
/// given names, tag, lineup, cover, sort indices and directory. Its ROM is
/// the editor's `folder` marker, named after the tag.
pub open spec fn is_card(
    g: Game,
    dir_name: Seq<char>,
    display: Seq<char>,
    tag: Seq<char>,
    lineup: Seq<char>,
    cover: Seq<char>,
    csize: u32,
    sort: SortIndices,
    source_dir: Seq<char>,
) -> bool {
    &&& g.dir_name@ == dir_name
    &&& g.region_tag@ == tag
    &&& g.data.display.name@ == display
    &&& g.data.display.tname@ == display
    &&& g.data.display.name_eng@ == display
    &&& g.data.display.titlebar == 4
    &&& g.data.display.ccolor == 0
    &&& g.data.display.csize == csize
    &&& g.data.display.players == 0
    &&& g.data.display.demo_time == 0
    &&& g.data.emulator == GameEmulator { emu_ofs_x: 0, emu_ofs_y: 0, screen_mode: 0 }
    &&& g.data.rom.arch@ == "folder"@
    &&& g.data.rom.country@ == lineup
    &&& g.data.rom.preamp == 0
    &&& g.data.rom.rom@ == tag
    &&& g.data.rom.tg16cd_systemcard is None
    &&& g.data.rom.tg16_option is None
    &&& g.data.rom.tg16pad_type is None
    &&& g.data.rom.region_tag matches Some(t) && t@ == tag
    &&& g.data.rom_alt.region_tag_e is None
    &&& g.data.rom_alt.region_tag_s1 is None
    &&& g.data.rom_alt.region_tag_s2 is None
    &&& g.data.cover matches Some(c) && c@ == cover
    &&& g.data.cover_size is None
    &&& g.sort == sort
    &&& g.source_dir@ == source_dir
}

/// The card that stands for folder `f` in lineup `lineup`'s root menu.
pub open spec fn is_folder_card(g: Game, f: Folder, lineup: Seq<char>) -> bool {
    is_card(
        g,
        f.dir_name@,
        f.display_name@,
        folder_tag(lineup, f.dir_name@),
        lineup,
        "cover.png"@,
        10,
        f.sort,
        f.source_dir@,
    )
}

fn card(
    dir_name: String,
    display: &str,
    tag: String,
    lineup: &str,
    cover: String,
    csize: u32,
    sort: SortIndices,
    source_dir: String,
) -> (g: Game)
    ensures
        is_card(g, dir_name@, display@, tag@, lineup@, cover@, csize, sort, source_dir@),
{
    Game {
        dir_name,
        region_tag: tag.clone(),
        data: GameJson {
            display: GameDisplay {
                name: String::from_str(display),
                tname: String::from_str(display),
                name_eng: String::from_str(display),
                titlebar: 4,
                ccolor: 0,
                csize,
                players: 0,
                demo_time: 0,
            },
            emulator: GameEmulator { emu_ofs_x: 0, emu_ofs_y: 0, screen_mode: 0 },
            rom: GameRom {
                arch: String::from_str("folder"),
                country: String::from_str(lineup),
                preamp: 0,
                rom: tag.clone(),
                tg16cd_systemcard: None,
                tg16_option: None,
                tg16pad_type: None,
                region_tag: Some(tag),
            },
            rom_alt: RomAlt { region_tag_e: None, region_tag_s1: None, region_tag_s2: None },
            cover: Some(cover),
            cover_size: None,
        },
        sort,
        source_dir,
    }
}

/// The card that stands for a folder in its lineup's root menu.
pub fn folder_to_game(folder: &Folder, lineup_name: &str) -> (g: Game)
    ensures
        is_folder_card(g, *folder, lineup_name@),
{
    card(
        folder.dir_name.clone(),
        folder.display_name.as_str(),
        folder.region_tag(lineup_name),
        lineup_name,
        String::from_str("cover.png"),
        10,
        folder.sort,
        folder.source_dir.clone(),
    )
}

/// What `Path::file_name` gives for a path, as text.
pub uninterp spec fn path_file_name(p: Seq<char>) -> Option<Seq<char>>;

/// What `Path::parent` gives for a path, as text.
pub uninterp spec fn path_parent(p: Seq<char>) -> Option<Seq<char>>;

/// `std::path::Path::file_name`: the final component of a path, none when
/// the path ends in `..` or has no component. The result is named only.
#[verifier::external_body]
pub(crate) fn file_name_of(p: &str) -> (r: Option<String>)
    ensures
        r matches Some(s) ==> path_file_name(p@) == Some(s@),
        r is None ==> path_file_name(p@) is None,
{
    std::path::Path::new(p).file_name().map(|s| s.to_string_lossy().into_owned())
}

/// `std::path::Path::parent`: the path without its final component, none
/// for a root or empty path. The result is named only.
#[verifier::external_body]
fn parent_of(p: &str) -> (r: Option<String>)
    ensures
        r matches Some(s) ==> path_parent(p@) == Some(s@),
        r is None ==> path_parent(p@) is None,
{
    std::path::Path::new(p).parent().map(|s| s.to_string_lossy().into_owned())
}

/// The cover file name of the back card drawn at `back_png`.
pub open spec fn back_cover(back_png: Seq<char>) -> Seq<char> {
    match path_file_name(back_png) {
        Some(n) => n,
        None => "back_arrow.png"@,
    }
}

/// The directory of the back card drawn at `back_png`.
pub open spec fn back_dir(back_png: Seq<char>) -> Seq<char> {
    match path_parent(back_png) {
        Some(d) => d,
        None => Seq::empty(),
    }
}

pub open spec fn zero_sort() -> SortIndices {
    SortIndices { sor_date: 0, sor_demo: 0, sor_genr: 0, sor_name: 0, sor_pnum: 0 }
}

/// The back card of a folder pack: `BACK`, shown as "Back", tagged
/// `FOLDER_<lineup>_BACK`, with the image at `back_png` as its cover.
pub fn back_card_game(lineup_name: &str, back_png: &str) -> (g: Game)
    ensures
        is_card(
            g,
            "BACK"@,
            "Back"@,
            folder_tag(lineup_name@, "BACK"@),
            lineup_name@,
            back_cover(back_png@),
            11,
            zero_sort(),
            back_dir(back_png@),
        ),
{
    let mut tag = String::from_str("FOLDER_");
    tag.append(lineup_name);
    tag.append("_BACK");
    proof {
        reveal_strlit("FOLDER_");
        reveal_strlit("_");
        reveal_strlit("_BACK");
        reveal_strlit("BACK");
        assert(tag@ =~= folder_tag(lineup_name@, "BACK"@));
    }
    let cover = match file_name_of(back_png) {
        Some(n) => n,
        None => String::from_str("back_arrow.png"),
    };
    let dir = match parent_of(back_png) {
        Some(d) => d,
        None => String::new(),
    };
    card(String::from_str("BACK"), "Back", tag, lineup_name, cover, 11, zero_sort_value(), dir)
}

fn zero_sort_value() -> (s: SortIndices)
    ensures
        s == zero_sort(),
{
    SortIndices { sor_date: 0, sor_demo: 0, sor_genr: 0, sor_name: 0, sor_pnum: 0 }
}

/// Sort indices that put an entry at position `i` in every order.
pub open spec fn at_position(i: u32) -> SortIndices {
    SortIndices { sor_date: i, sor_demo: i, sor_genr: i, sor_name: i, sor_pnum: i }
}

/// `g` placed at position `i` of a pack.
pub open spec fn placed(g: Game, i: u32) -> Game {
    Game { sort: at_position(i), ..g }
}

/// The games a folder pack publishes: its back card, then the folder's
/// games, every one renumbered to its position in all sort orders.
pub fn folder_pack_games(folder: &Folder, lineup_name: &str, back_png: &str) -> (r: Vec<Game>)
    ensures
        r@.len() == folder.games@.len() + 1,
        is_card(
            r@[0],
            "BACK"@,
            "Back"@,
            folder_tag(lineup_name@, "BACK"@),
            lineup_name@,
            back_cover(back_png@),
            11,
            zero_sort(),
            back_dir(back_png@),
        ),
        forall|i: int|
            0 <= i < folder.games@.len() ==> #[trigger] r@[i + 1] == placed(folder.games@[i], (i + 1) as u32),
{
    let mut games: Vec<Game> = Vec::new();
    games.push(back_card_game(lineup_name, back_png));
    let mut i: usize = 0;
    while i < folder.games.len()
        invariant
            i <= folder.games@.len(),
            games@.len() == i + 1,
            is_card(
                games@[0],
                "BACK"@,
                "Back"@,
                folder_tag(lineup_name@, "BACK"@),
                lineup_name@,
                back_cover(back_png@),
                11,
                zero_sort(),
                back_dir(back_png@),
            ),
            forall|k: int| 0 <= k < i ==> #[trigger] games@[k + 1] == placed(folder.games@[k], (k + 1) as u32),
        decreases folder.games@.len() - i,
    {
        let mut g = folder.games[i].clone();
        let v = (i + 1) as u32;
        g.sort = SortIndices { sor_date: v, sor_demo: v, sor_genr: v, sor_name: v, sor_pnum: v };
        games.push(g);
        i = i + 1;
    }
    games
}

/// Whether `g` is what the root pack shows for root entry `e`: the game
/// itself, or the folder's card.
pub open spec fn root_card(g: Game, e: LineupEntry, lineup: Seq<char>) -> bool {
    match e {
        LineupEntry::Game(x) => g == x,
        LineupEntry::Folder(f) => is_folder_card(g, f, lineup),
    }
}

/// The games a lineup's root pack publishes: each root entry in order, a
/// folder by its card.
pub fn synthesize_root_games(entries: &[LineupEntry], lineup_name: &str) -> (r: Vec<Game>)
    ensures
        r@.len() == entries@.len(),
        forall|i: int| 0 <= i < entries@.len() ==> root_card(#[trigger] r@[i], entries@[i], lineup_name@),
{
    let mut out: Vec<Game> = Vec::new();
    let mut i: usize = 0;
    while i < entries.len()
        invariant
            i <= entries@.len(),
            out@.len() == i,
            forall|k: int| 0 <= k < i ==> root_card(#[trigger] out@[k], entries@[k], lineup_name@),
        decreases entries@.len() - i,
    {
        match &entries[i] {
            LineupEntry::Game(g) => out.push(g.clone()),
            LineupEntry::Folder(f) => out.push(folder_to_game(f, lineup_name)),
        }
        i = i + 1;
    }
    out
}

/// The title-select cover of a root entry: a game's own cover and geometry,
/// or a folder's `cover.png` at the default geometry; labelled by directory.
pub open spec fn entry_cover(c: CoverEntry, e: LineupEntry) -> bool {
    match e {
        LineupEntry::Game(g) => c.cover_path@ == joined(g.source_dir@, cover_file(g)) && c.cover_size
            == g.data.cover_size && c.label@ == g.dir_name@,
        LineupEntry::Folder(f) => c.cover_path@ == joined(f.source_dir@, "cover.png"@) && c.cover_size is None
            && c.label@ == f.dir_name@,
    }
}

/// The title-select covers of a lineup's root entries, in order.
pub fn build_title_select_inputs(entries: &[LineupEntry]) -> (r: Vec<CoverEntry>)
    ensures
        r@.len() == entries@.len(),
        forall|i: int| 0 <= i < entries@.len() ==> entry_cover(#[trigger] r@[i], entries@[i]),
{
    let mut out: Vec<CoverEntry> = Vec::new();
    let mut i: usize = 0;
    while i < entries.len()
        invariant
            i <= entries@.len(),
            out@.len() == i,
            forall|k: int| 0 <= k < i ==> entry_cover(#[trigger] out@[k], entries@[k]),
        decreases entries@.len() - i,
    {
        match &entries[i] {
            LineupEntry::Game(g) => out.push(
                CoverEntry {
                    cover_path: g.cover_path(),
                    cover_size: g.data.cover_size,
                    label: g.dir_name.clone(),
                },
            ),
            LineupEntry::Folder(f) => out.push(
                CoverEntry { cover_path: f.cover_path(), cover_size: None, label: f.dir_name.clone() },
            ),
        }
        i = i + 1;
    }
    out
}

/// Every game of a lineup: root-level games and the games of each folder, in
/// menu order.
pub open spec fn all_games_of(entries: Seq<LineupEntry>) -> Seq<Game>
    decreases entries.len(),
{
    if entries.len() == 0 {
        Seq::empty()
    } else {
        all_games_of(entries.drop_last()) + match entries.last() {
            LineupEntry::Game(g) => seq![g],
            LineupEntry::Folder(f) => f.games@,
        }
    }
}

/// Every game of a lineup, as [`all_games_of`] orders them.
pub fn iter_all_games(lineup: &Lineup) -> (r: Vec<&Game>)
    ensures
        game_values(r@) == all_games_of(lineup.root_entries@),
{
    let mut r: Vec<&Game> = Vec::new();
    let mut i: usize = 0;
    while i < lineup.root_entries.len()
        invariant
            i <= lineup.root_entries@.len(),
            game_values(r@) == all_games_of(lineup.root_entries@.take(i as int)),
        decreases lineup.root_entries@.len() - i,
    {
        let ghost prefix = lineup.root_entries@.take(i as int);
        assert(lineup.root_entries@.take(i + 1).drop_last() =~= prefix);
        match &lineup.root_entries[i] {
            LineupEntry::Game(g) => {
                let ghost before = r@;
                r.push(g);
                assert(game_values(r@) =~= game_values(before) + seq![*g]);
            },
            LineupEntry::Folder(f) => {
                let ghost start = game_values(r@);
                let mut j: usize = 0;
                while j < f.games.len()
                    invariant
                        j <= f.games@.len(),
                        game_values(r@) == start + f.games@.take(j as int),
                    decreases f.games@.len() - j,
                {
                    let ghost before = r@;
                    r.push(&f.games[j]);
                    assert(game_values(r@) =~= game_values(before).push(f.games@[j as int]));
                    j = j + 1;
                    assert(game_values(r@) =~= start + f.games@.take(j as int));
                }
                assert(f.games@.take(j as int) =~= f.games@);
            },
        }
        i = i + 1;
    }
    assert(lineup.root_entries@.take(i as int) =~= lineup.root_entries@);
    r
}

/// A game's directory in the library: `<root>/<lineup>/[<folder>/]<dir>`.
pub open spec fn game_dir_of(root: Seq<char>, lineup: Seq<char>, folder: Option<Folder>, game: Game) -> Seq<
    char,
> {
    let base = joined(root, lineup);
    let with_folder = match folder {
        Some(f) => joined(base, f.dir_name@),
        None => base,
    };
    joined(with_folder, game.dir_name@)
}

/// A game's directory in the library.
pub fn library_game_dir(library_root: &str, lineup_name: &str, folder: Option<&Folder>, game: &Game) -> (r:
    String)
    ensures
        r@ == game_dir_of(library_root@, lineup_name@, match folder {
            Some(f) => Some(*f),
            None => None,
        }, *game),
{
    let base = join_path(library_root, lineup_name);
    let with_folder = match folder {
        Some(f) => join_path(base.as_str(), f.dir_name.as_str()),
        None => base,
    };
    join_path(with_folder.as_str(), game.dir_name.as_str())
}

/// A game's SRAM block in the library.
pub fn library_game_sram_path(library_root: &str, lineup_name: &str, folder: Option<&Folder>, game: &Game) -> (r:
    String)
    ensures
        r@ == joined(game_dir_of(library_root@, lineup_name@, match folder {
            Some(f) => Some(*f),
            None => None,
        }, *game), "sram.bin"@),
{
    let d = library_game_dir(library_root, lineup_name, folder, game);
    join_path(d.as_str(), "sram.bin")
}

/// A game's save-state directory in the library.
pub fn library_game_saves_dir(library_root: &str, lineup_name: &str, folder: Option<&Folder>, game: &Game) -> (r:
    String)
    ensures
        r@ == joined(game_dir_of(library_root@, lineup_name@, match folder {
            Some(f) => Some(*f),
            None => None,
        }, *game), "saves"@),
{
    let d = library_game_dir(library_root, lineup_name, folder, game);
    join_path(d.as_str(), "saves")
}

// ---- text rules ----

/// Unicode `White_Space`, the characters `str::trim` removes.
pub open spec fn is_white_space(c: char) -> bool {
    ||| '\u{9}' <= c <= '\u{d}'
    ||| c == ' '
    ||| c == '\u{85}'
    ||| c == '\u{a0}'
    ||| c == '\u{1680}'
    ||| '\u{2000}' <= c <= '\u{200a}'
    ||| c == '\u{2028}'
    ||| c == '\u{2029}'
    ||| c == '\u{202f}'
    ||| c == '\u{205f}'
    ||| c == '\u{3000}'
}

fn white_space(c: char) -> (b: bool)
    ensures
        b == is_white_space(c),
{
    ('\u{9}' <= c && c <= '\u{d}') || c == ' ' || c == '\u{85}' || c == '\u{a0}' || c == '\u{1680}' || (
    '\u{2000}' <= c && c <= '\u{200a}') || c == '\u{2028}' || c == '\u{2029}' || c == '\u{202f}' || c
        == '\u{205f}' || c == '\u{3000}'
}

/// Whether `s[a..b]` is `s` without its leading and trailing white space.
pub open spec fn trim_bounds(s: Seq<char>, a: int, b: int) -> bool {
    &&& 0 <= a <= b <= s.len()
    &&& forall|i: int| 0 <= i < a ==> is_white_space(#[trigger] s[i])
    &&& forall|i: int| b <= i < s.len() ==> is_white_space(#[trigger] s[i])
    &&& a < b ==> !is_white_space(s[a]) && !is_white_space(s[b - 1])
}

fn trim_range(s: &str) -> (r: (usize, usize))
    ensures
        trim_bounds(s@, r.0 as int, r.1 as int),
{
    let n = s.unicode_len();
    let mut a: usize = 0;
    while a < n && white_space(s.get_char(a))
        invariant
            a <= n,
            n == s@.len(),
            forall|i: int| 0 <= i < a ==> is_white_space(#[trigger] s@[i]),
        decreases n - a,
    {
        a = a + 1;
    }
    let mut b: usize = n;
    while b > a && white_space(s.get_char(b - 1))
        invariant
            a <= b <= n,
            n == s@.len(),
            forall|i: int| 0 <= i < a ==> is_white_space(#[trigger] s@[i]),
            forall|i: int| b <= i < n ==> is_white_space(#[trigger] s@[i]),
            a < n ==> !is_white_space(s@[a as int]),
        decreases b - a,
    {
        b = b - 1;
    }
    (a, b)
}

/// Whether a ROM name is blank (white space only), so there is no ROM.
pub open spec fn is_blank(s: Seq<char>) -> bool {
    forall|i: int| 0 <= i < s.len() ==> is_white_space(#[trigger] s[i])
}

/// Whether a game names no ROM file (its ROM name is blank).
pub fn rom_is_blank(game: &Game) -> (b: bool)
    ensures
        b == is_blank(game.data.rom.rom@),
{
    let (a, e) = trim_range(game.data.rom.rom.as_str());
    if a < e {
        assert(!is_white_space(game.data.rom.rom@[a as int]));
    }
    a == e
}

/// The pack named by the text of `folders/.current`: the trimmed text split
/// at its first `/` into lineup and directory.
pub open spec fn current_pack_of(raw: Seq<char>, a: int, b: int) -> Option<(Seq<char>, Seq<char>)> {
    let t = raw.subrange(a, b);
    let k = crate::saves::first_index_of(t, '/');
    if k < 0 {
        None
    } else {
        Some((t.take(k), t.skip(k + 1)))
    }
}

/// Reads the text of `folders/.current` as `(lineup, directory)`.
pub fn current_pack(raw: &str) -> (r: Option<(String, String)>)
    ensures
        exists|a: int, b: int|
            trim_bounds(raw@, a, b) && match current_pack_of(raw@, a, b) {
                None => r is None,
                Some(p) => r matches Some(q) && q.0@ == p.0 && q.1@ == p.1,
            },
{
    let (a, b) = trim_range(raw);
    let ghost t = raw@.subrange(a as int, b as int);
    let mut k: usize = a;
    while k < b && raw.get_char(k) != '/'
        invariant
            a <= k <= b <= raw@.len(),
            t == raw@.subrange(a as int, b as int),
            forall|q: int| 0 <= q < k - a ==> #[trigger] t[q] != '/',
        decreases b - k,
    {
        k = k + 1;
    }
    proof {
        crate::saves::lemma_first_index_of(t, '/', (k - a) as int);
    }
    let r = if k == b {
        None
    } else {
        let l = String::from_str(raw.substring_char(a, k));
        let d = String::from_str(raw.substring_char(k + 1, b));
        assert(l@ =~= t.take(k - a));
        assert(d@ =~= t.skip(k - a + 1));
        Some((l, d))
    };
    assert(trim_bounds(raw@, a as int, b as int));
    r
}

/// ASCII lower case of a character.
pub open spec fn ascii_lower(c: char) -> char {
    if 'A' <= c <= 'Z' {
        ((c as u32) + 32) as char
    } else {
        c
    }
}

/// Whether `s`, in ASCII lower case, ends with `p` (itself lower case).
pub open spec fn ends_with_lower(s: Seq<char>, p: Seq<char>) -> bool {
    s.len() >= p.len() && forall|i: int|
        0 <= i < p.len() ==> ascii_lower(#[trigger] s[s.len() - p.len() + i]) == p[i]
}

pub(crate) fn ends_with_lower_text(s: &str, p: &str) -> (b: bool)
    ensures
        b == ends_with_lower(s@, p@),
{
    let n = s.unicode_len();
    let m = p.unicode_len();
    if n < m {
        return false;
    }
    let mut i: usize = 0;
    while i < m
        invariant
            m <= n,
            n == s@.len(),
            m == p@.len(),
            i <= m,
            forall|q: int| 0 <= q < i ==> ascii_lower(#[trigger] s@[n - m + q]) == p@[q],
        decreases m - i,
    {
        let c = s.get_char(n - m + i);
        let l = if 'A' <= c && c <= 'Z' {
            ((c as u32) + 32) as u8 as char
        } else {
            c
        };
        assert(l == ascii_lower(c)) by {
            if 'A' <= c && c <= 'Z' {
                assert((c as u32 + 32) < 256);
            }
        }
        if l != p.get_char(i) {
            return false;
        }
        i = i + 1;
    }
    true
}

/// Whether a ROM is published packed: a raw `.pce` or `.sgx` image.
pub open spec fn needs_packing(name: Seq<char>) -> bool {
    ends_with_lower(name, ".pce"@) || ends_with_lower(name, ".sgx"@)
}

/// The name a ROM file is published under: `<name>.m` for a raw image that
/// is packed; an already packed `.pce.m` / `.sgx.m` with its suffix in lower
/// case; anything else unchanged.
pub open spec fn published_rom_of(name: Seq<char>) -> Seq<char> {
    if needs_packing(name) {
        name + ".m"@
    } else if ends_with_lower(name, ".pce.m"@) || ends_with_lower(name, ".sgx.m"@) {
        name.take(name.len() - 2) + ".m"@
    } else {
        name
    }
}

/// The published name of a ROM file and whether it is packed on the way.
pub fn published_rom_name(rom_filename: &str) -> (r: (String, bool))
    ensures
        r.0@ == published_rom_of(rom_filename@),
        r.1 == needs_packing(rom_filename@),
{
    proof {
        reveal_strlit(".m");
        reveal_strlit(".pce.m");
        reveal_strlit(".sgx.m");
    }
    let packing = ends_with_lower_text(rom_filename, ".pce") || ends_with_lower_text(rom_filename, ".sgx");
    if packing {
        let mut out = String::from_str(rom_filename);
        out.append(".m");
        (out, true)
    } else if ends_with_lower_text(rom_filename, ".pce.m") || ends_with_lower_text(rom_filename, ".sgx.m") {
        let n = rom_filename.unicode_len();
        let mut out = String::from_str(rom_filename.substring_char(0, n - 2));
        out.append(".m");
        (out, false)
    } else {
        (String::from_str(rom_filename), false)
    }
}

// ---- original menu resources ----

/// Where an original menu resource may lie, in the order they are tried:
/// the stock templates, then the console's `game` folder and its
/// `BACKUP/game` copy, both beside the library folder.
pub open spec fn resource_candidates_of(library: Seq<char>, stock: Seq<char>, relative: Seq<char>) -> Seq<
    Seq<char>,
> {
    let parent = match path_parent(library) {
        Some(p) => p,
        None => library,
    };
    seq![
        joined(stock, relative),
        joined(joined(parent, "game"@), relative),
        joined(joined(parent, "BACKUP/game"@), relative),
    ]
}

/// The places an original menu resource is looked for.
pub fn resource_candidates(library: &str, stock: &str, relative: &str) -> (r: Vec<String>)
    ensures
        r@.len() == 3,
        forall|i: int| 0 <= i < 3 ==> #[trigger] r@[i]@ == resource_candidates_of(library@, stock@, relative@)[i],
{
    let parent = match parent_of(library) {
        Some(p) => p,
        None => String::from_str(library),
    };
    let mut r: Vec<String> = Vec::new();
    r.push(join_path(stock, relative));
    let game = join_path(parent.as_str(), "game");
    r.push(join_path(game.as_str(), relative));
    let backup = join_path(parent.as_str(), "BACKUP/game");
    r.push(join_path(backup.as_str(), relative));
    r
}

pub open spec fn resource_missing(relative: Seq<char>) -> Seq<char> {
    "Original menu resource missing: "@ + relative + ". Restore it in library/templates/ from your console dump."@
}

/// The first candidate of [`resource_candidates`] that is a file
/// (`is_file[i]` answers for candidate `i`), or the error naming the
/// missing resource.
pub fn resource_path(library: &str, stock: &str, relative: &str, is_file: &Vec<bool>) -> (r: Result<
    String,
    crate::publish::Error,
>)
    requires
        is_file@.len() == 3,
    ensures
        is_file@[0] ==> (r matches Ok(p) && p@ == resource_candidates_of(library@, stock@, relative@)[0]),
        !is_file@[0] && is_file@[1] ==> (r matches Ok(p) && p@ == resource_candidates_of(
            library@,
            stock@,
            relative@,
        )[1]),
        !is_file@[0] && !is_file@[1] && is_file@[2] ==> (r matches Ok(p) && p@ == resource_candidates_of(
            library@,
            stock@,
            relative@,
        )[2]),
        !is_file@[0] && !is_file@[1] && !is_file@[2] ==> (r matches Err(crate::publish::Error::Template(m))
            && m@ == resource_missing(relative@)),
{
    let mut c = resource_candidates(library, stock, relative);
    let mut i: usize = 0;
    while i < 3
        invariant
            i <= 3,
            is_file@.len() == 3,
            c@.len() == 3,
            forall|k: int| 0 <= k < 3 ==> #[trigger] c@[k]@ == resource_candidates_of(library@, stock@, relative@)[k],
            forall|k: int| 0 <= k < i ==> !is_file@[k],
        decreases 3 - i,
    {
        if is_file[i] {
            let p = c.remove(i);
            return Ok(p);
        }
        i = i + 1;
    }
    let mut m = String::from_str("Original menu resource missing: ");
    m.append(relative);
    m.append(". Restore it in library/templates/ from your console dump.");
    Err(crate::publish::Error::Template(m))
}

} // verus!
