//! Publishing a game library for the console: package identity, template
//! resources, cover geometry, and the records the publishing steps report.
use vstd::prelude::*;
use vstd::string::StrSliceExecFns;
use vstd::string::StringSliceAdditionalSpecFns;
use vstd::string::StringExecFns;
use vstd::utf8::encode_utf8;
use crate::mzs;
use crate::mzs::{DEFAULT_KEY, DEFAULT_KEY_LENGTH, keystream, unpack_default, unpack_result};
use crate::psb::layout::TrieArrays;
use crate::psb::trie::trie_fits;
use crate::psb::value::ValueView;
use crate::psb::writer::{key_bytes, written};
use crate::psb::format::{file_readable, read_file, read_result};
use crate::psb::reader::{read, readable};
use crate::psb::value::{Value, find_key, lemma_view_entries_len};
use crate::title_prof::{find_entry, text_opt};

verus! {

/// Why publishing failed.
#[derive(Debug)]
pub enum Error {
    Mzs(mzs::Error),
    Psb(crate::psb::Error),
    Template(String),
    Library(String),
}

/// Why generating a menu file fails.
pub enum Failure {
    Library(Seq<char>),
    Template(Seq<char>),
}

/// `r` is the error `f`.
pub open spec fn failed_as(r: Result<Vec<u8>, Error>, f: Failure) -> bool {
    match f {
        Failure::Library(m) => r matches Err(Error::Library(x)) && x@ == m,
        Failure::Template(m) => r matches Err(Error::Template(x)) && x@ == m,
    }
}

pub open spec fn keys_overflow_message() -> Seq<char> {
    "the key names of the generated file do not fit its key table"@
}

/// `r` is the file written for the tree `out` at format version 4, or the
/// refusal of a tree whose key names do not fit a key table.
pub open spec fn written_or_refused(r: Result<Vec<u8>, Error>, out: ValueView) -> bool {
    &&& trie_fits(key_bytes(out)) ==> r is Ok && (r matches Ok(bytes) ==> exists|t: TrieArrays|
        #[trigger] written(bytes@, out, 4, t))
    &&& !trie_fits(key_bytes(out)) ==> (r matches Err(Error::Template(x)) && x@ == keys_overflow_message())
}

/// Where the console's package profile lives.
pub const SYSTEM_PROFILE: &'static str = "system/config/system_prof.psb.m";

/// The two retail console packages (independent of the game lineup shown).
#[derive(Debug, Clone, Copy, PartialEq, Eq)]
pub enum ConsoleVariant {
    Japan,
    World,
}

impl ConsoleVariant {
    /// Package directory of the variant.
    pub fn id(self) -> (r: &'static str)
        ensures
            self == ConsoleVariant::Japan ==> r@ == "040"@,
            self == ConsoleVariant::World ==> r@ == "041"@,
    {
        match self {
            ConsoleVariant::Japan => "040",
            ConsoleVariant::World => "041",
        }
    }

    /// Profile, menu, JP-lineup covers, US-lineup covers (in that order).
    pub fn templates(self) -> (r: [&'static str; 4])
        ensures
            self == ConsoleVariant::Japan ==> r@[0]@ == "040/config/title_prof.psb.m"@ && r@[1]@
                == "040/config/title_mode_top.psb.m"@ && r@[2]@ == "040/motion/title_jp_titleselect_jp.psb.m"@
                && r@[3]@ == "040/motion/title_jp_titleselect_us.psb.m"@,
            self == ConsoleVariant::World ==> r@[0]@ == "041/config/title_prof.psb.m"@ && r@[1]@
                == "041/config/title_mode_top.psb.m"@ && r@[2]@ == "041/motion/title_us_titleselect_jp.psb.m"@
                && r@[3]@ == "041/motion/title_us_titleselect_us.psb.m"@,
    {
        match self {
            ConsoleVariant::Japan => [
                "040/config/title_prof.psb.m",
                "040/config/title_mode_top.psb.m",
                "040/motion/title_jp_titleselect_jp.psb.m",
                "040/motion/title_jp_titleselect_us.psb.m",
            ],
            ConsoleVariant::World => [
                "041/config/title_prof.psb.m",
                "041/config/title_mode_top.psb.m",
                "041/motion/title_us_titleselect_jp.psb.m",
                "041/motion/title_us_titleselect_us.psb.m",
            ],
        }
    }
}

/// Package directory of a variant.
pub open spec fn variant_id(v: ConsoleVariant) -> Seq<char> {
    match v {
        ConsoleVariant::Japan => "040"@,
        ConsoleVariant::World => "041"@,
    }
}

/// Profile, menu, JP-lineup covers, US-lineup covers of a variant.
pub open spec fn template_paths(v: ConsoleVariant) -> Seq<Seq<char>> {
    match v {
        ConsoleVariant::Japan => seq![
            "040/config/title_prof.psb.m"@,
            "040/config/title_mode_top.psb.m"@,
            "040/motion/title_jp_titleselect_jp.psb.m"@,
            "040/motion/title_jp_titleselect_us.psb.m"@,
        ],
        ConsoleVariant::World => seq![
            "041/config/title_prof.psb.m"@,
            "041/config/title_mode_top.psb.m"@,
            "041/motion/title_us_titleselect_jp.psb.m"@,
            "041/motion/title_us_titleselect_us.psb.m"@,
        ],
    }
}

/// Why the console variant could not be told.
pub enum DetectFailure {
    Psb(crate::psb::Error),
    Template(Seq<char>),
}

/// `r` is the error `f`.
pub open spec fn detect_failed_as(r: Result<ConsoleVariant, Error>, f: DetectFailure) -> bool {
    match f {
        DetectFailure::Psb(e) => r == Err::<ConsoleVariant, Error>(Error::Psb(e)),
        DetectFailure::Template(m) => r matches Err(Error::Template(x)) && x@ == m,
    }
}

pub open spec fn unsupported_package() -> Seq<char> {
    "Unsupported console package in system_prof.psb.m (expected 40 or 41)"@
}

pub open spec fn both_sets_present() -> Seq<char> {
    "Both console resource sets are present. Include the original system/config/system_prof.psb.m to identify the console."@
}

pub open spec fn no_complete_set() -> Seq<char> {
    "No complete console resource set found: expected 040 with title_jp_titleselect_{jp,us}.psb.m, or 041 with title_us_titleselect_{jp,us}.psb.m."@
}

/// The `dev_id` text under `root` of a profile tree.
pub open spec fn dev_id(v: ValueView) -> Option<Seq<char>> {
    match v {
        ValueView::Object(es) => {
            let i = find_key(es, "root"@);
            if i < 0 {
                None
            } else {
                match es[i].1 {
                    ValueView::Object(rs) => {
                        let j = find_key(rs, "dev_id"@);
                        if j < 0 {
                            None
                        } else {
                            match rs[j].1 {
                                ValueView::Str(t) => Some(t),
                                _ => None,
                            }
                        }
                    },
                    _ => None,
                }
            }
        },
        _ => None,
    }
}

/// Whether the four resources of a variant are present; `present` lists the
/// Japan resources, then the World ones, in `template_paths` order.
pub open spec fn set_complete(present: Seq<bool>, at: int) -> bool {
    present[at] && present[at + 1] && present[at + 2] && present[at + 3]
}

/// The first of the four resources from `at` that is missing, or -1.
pub open spec fn first_missing(present: Seq<bool>, at: int) -> int {
    if !present[at] {
        0
    } else if !present[at + 1] {
        1
    } else if !present[at + 2] {
        2
    } else if !present[at + 3] {
        3
    } else {
        -1
    }
}

/// The variant a profile (its PSB bytes) declares, or else the one whose
/// resources alone are complete.
pub open spec fn identified(profile_psb: Option<Seq<u8>>, present: Seq<bool>) -> Result<ConsoleVariant, DetectFailure> {
    match profile_psb {
        Some(b) => match read_result(b) {
            Err(e) => Err(DetectFailure::Psb(e)),
            Ok(tree) => match dev_id(tree) {
                Some(t) => if t == "40"@ {
                    Ok(ConsoleVariant::Japan)
                } else if t == "41"@ {
                    Ok(ConsoleVariant::World)
                } else {
                    Err(DetectFailure::Template(unsupported_package()))
                },
                None => Err(DetectFailure::Template(unsupported_package())),
            },
        },
        None => {
            let j = set_complete(present, 0);
            let w = set_complete(present, 4);
            if j && !w {
                Ok(ConsoleVariant::Japan)
            } else if !j && w {
                Ok(ConsoleVariant::World)
            } else if j && w {
                Err(DetectFailure::Template(both_sets_present()))
            } else {
                Err(DetectFailure::Template(no_complete_set()))
            }
        },
    }
}

/// The identified variant, provided all its resources are present.
pub open spec fn detected(profile_psb: Option<Seq<u8>>, present: Seq<bool>) -> Result<ConsoleVariant, DetectFailure> {
    match identified(profile_psb, present) {
        Err(f) => Err(f),
        Ok(v) => {
            let at = if v == ConsoleVariant::Japan {
                0int
            } else {
                4int
            };
            let k = first_missing(present, at);
            if k < 0 {
                Ok(v)
            } else {
                Err(
                    DetectFailure::Template(
                        "Console "@ + variant_id(v) + " resource missing: "@ + template_paths(v)[k],
                    ),
                )
            }
        },
    }
}

/// Whether a profile file is encrypted (`mzs` archive).
/// `x` is the outcome `res` of detection.
pub open spec fn detect_outcome(x: Result<ConsoleVariant, Error>, res: Result<ConsoleVariant, DetectFailure>) -> bool {
    match res {
        Ok(v) => x == Ok::<ConsoleVariant, Error>(v),
        Err(f) => detect_failed_as(x, f),
    }
}

/// The key stream of the encrypted package profile.
pub open spec fn profile_keystream() -> Seq<u8> {
    keystream(DEFAULT_KEY.spec_bytes(), "system_prof.psb.m".spec_bytes(), DEFAULT_KEY_LENGTH as nat)
}

pub open spec fn opt_bytes(p: Option<&[u8]>) -> Option<Seq<u8>> {
    match p {
        Some(b) => Some(b@),
        None => None,
    }
}

pub open spec fn is_mzs(p: Seq<u8>) -> bool {
    p.len() >= 4 && p[0] == 0x6d && p[1] == 0x7a && p[2] == 0x73 && p[3] == 0
}

fn dev_id_text(v: &Value) -> (r: Option<String>)
    ensures
        text_opt(r) == dev_id(v@),
{
    match v {
        Value::Object(es) => {
            proof {
                lemma_view_entries_len(es@);
            }
            match find_entry(es, &String::from_str("root")) {
                None => None,
                Some(i) => match &es[i].1 {
                    Value::Object(rs) => {
                        proof {
                            lemma_view_entries_len(rs@);
                        }
                        match find_entry(rs, &String::from_str("dev_id")) {
                            None => None,
                            Some(j) => match &rs[j].1 {
                                Value::String(t) => Some(t.clone()),
                                _ => None,
                            },
                        }
                    },
                    _ => None,
                },
            }
        },
        _ => None,
    }
}

fn all_four(present: &Vec<bool>, at: usize) -> (b: bool)
    requires
        at <= 4,
        present@.len() == 8,
    ensures
        b == set_complete(present@, at as int),
{
    present[at] && present[at + 1] && present[at + 2] && present[at + 3]
}

fn missing_from(present: &Vec<bool>, at: usize) -> (r: Option<usize>)
    requires
        at <= 4,
        present@.len() == 8,
    ensures
        r matches Some(k) ==> k < 4 && k as int == first_missing(present@, at as int),
        r is None ==> first_missing(present@, at as int) < 0,
{
    if !present[at] {
        Some(0)
    } else if !present[at + 1] {
        Some(1)
    } else if !present[at + 2] {
        Some(2)
    } else if !present[at + 3] {
        Some(3)
    } else {
        None
    }
}

impl ConsoleVariant {
    /// The console variant, from the PSB bytes of the package profile
    /// (`None` when the dump has none) and which of the eight resources are
    /// present (the Japan set, then the World set, in `templates` order).
    ///
    /// The profile's `dev_id` decides (both retail dumps say "japan" as their
    /// region, and both title lists name 40 and 41); without a profile exactly
    /// one resource set must be complete. Either way the variant's four
    /// resources must be present.
    pub fn detect_profile(profile_psb: Option<&[u8]>, present: &Vec<bool>) -> (r: Result<ConsoleVariant, Error>)
        requires
            present@.len() == 8,
        ensures
            detected(opt_bytes(profile_psb), present@) matches Ok(v) ==> r == Ok::<ConsoleVariant, Error>(v),
            detected(opt_bytes(profile_psb), present@) matches Err(f) ==> detect_failed_as(r, f),
    {
        let variant = match profile_psb {
            Some(bytes) => {
                let tree = match read(bytes) {
                    Ok(t) => t,
                    Err(e) => {
                        return Err(Error::Psb(e));
                    },
                };
                match dev_id_text(&tree) {
                    Some(t) => {
                        if t == String::from_str("40") {
                            ConsoleVariant::Japan
                        } else if t == String::from_str("41") {
                            ConsoleVariant::World
                        } else {
                            return Err(
                                Error::Template(
                                    String::from_str(
                                        "Unsupported console package in system_prof.psb.m (expected 40 or 41)",
                                    ),
                                ),
                            );
                        }
                    },
                    None => {
                        return Err(
                            Error::Template(
                                String::from_str("Unsupported console package in system_prof.psb.m (expected 40 or 41)"),
                            ),
                        );
                    },
                }
            },
            None => {
                let j = all_four(present, 0);
                let w = all_four(present, 4);
                if j && !w {
                    ConsoleVariant::Japan
                } else if !j && w {
                    ConsoleVariant::World
                } else if j && w {
                    return Err(
                        Error::Template(
                            String::from_str(
                                "Both console resource sets are present. Include the original system/config/system_prof.psb.m to identify the console.",
                            ),
                        ),
                    );
                } else {
                    return Err(
                        Error::Template(
                            String::from_str(
                                "No complete console resource set found: expected 040 with title_jp_titleselect_{jp,us}.psb.m, or 041 with title_us_titleselect_{jp,us}.psb.m.",
                            ),
                        ),
                    );
                }
            },
        };
        let at: usize = match variant {
            ConsoleVariant::Japan => 0,
            ConsoleVariant::World => 4,
        };
        let paths = variant.templates();
        match missing_from(present, at) {
            None => {},
            Some(k) => {
                let mut m = String::from_str("Console ");
                m.append(variant.id());
                m.append(" resource missing: ");
                m.append(paths[k]);
                return Err(Error::Template(m));
            },
        }
        Ok(variant)
    }

    /// The console variant, from the package profile file (`None` when the
    /// dump has none) and which of the eight resources are present (see
    /// `detect_profile`). An encrypted profile is decrypted first.
    pub fn detect(profile: Option<&[u8]>, present: &Vec<bool>) -> (r: Result<ConsoleVariant, Error>)
        requires
            present@.len() == 8,
        ensures
            profile is None ==> detect_outcome(r, detected(None, present@)),
            profile matches Some(p) ==> (!is_mzs(p@) ==> detect_outcome(r, detected(Some(p@), present@))),
            profile matches Some(p) ==> (is_mzs(p@) ==> (r matches Err(Error::Mzs(e)) ==> unpack_result(
                p@,
                profile_keystream(),
                Err(e),
            ))),
            profile matches Some(p) ==> (is_mzs(p@) ==> (r matches Err(Error::Mzs(_)) || exists|d: Vec<u8>|
                #[trigger] unpack_result(p@, profile_keystream(), Ok(d)) && detect_outcome(
                    r,
                    detected(Some(d@), present@),
                ))),
    {
        match profile {
            None => ConsoleVariant::detect_profile(None, present),
            Some(p) => {
                if p.len() >= 4 && p[0] == 0x6d && p[1] == 0x7a && p[2] == 0x73 && p[3] == 0 {
                    match decode_resource(p, "system_prof.psb.m") {
                        Err(e) => Err(e),
                        Ok(d) => ConsoleVariant::detect_profile(Some(d.as_slice()), present),
                    }
                } else {
                    ConsoleVariant::detect_profile(Some(p), present)
                }
            },
        }
    }
}

/// Decrypts and decompresses a console resource with the default key.
pub fn decode_resource(bytes: &[u8], name: &str) -> (res: Result<Vec<u8>, Error>)
    ensures
        res matches Ok(d) ==> unpack_result(
            bytes@,
            keystream(DEFAULT_KEY.spec_bytes(), name.spec_bytes(), DEFAULT_KEY_LENGTH as nat),
            Ok(d),
        ),
        res matches Err(Error::Mzs(e)) ==> unpack_result(
            bytes@,
            keystream(DEFAULT_KEY.spec_bytes(), name.spec_bytes(), DEFAULT_KEY_LENGTH as nat),
            Err(e),
        ),
        res is Ok || res matches Err(Error::Mzs(_)),
{
    match unpack_default(bytes, name) {
        Ok(d) => Ok(d),
        Err(e) => Err(Error::Mzs(e)),
    }
}

/// The last component of a `/`-separated path.
pub open spec fn last_component(p: Seq<char>) -> Seq<char>
    decreases p.len(),
{
    if p.len() == 0 {
        p
    } else if p.last() == '/' {
        Seq::empty()
    } else {
        last_component(p.drop_last()).push(p.last())
    }
}

/// The last component of a `/`-separated path.
pub fn file_name(p: &str) -> (r: String)
    ensures
        r@ == last_component(p@),
{
    let n = p.unicode_len();
    let mut start: usize = n;
    while start > 0 && p.get_char(start - 1) != '/'
        invariant
            start <= n,
            n == p@.len(),
            forall|i: int| start <= i < n ==> p@[i] != '/',
        decreases start,
    {
        start = start - 1;
    }
    let r = String::from_str(p.substring_char(start, n));
    proof {
        lemma_last_component(p@, start as int);
    }
    r
}

proof fn lemma_last_component(p: Seq<char>, start: int)
    requires
        0 <= start <= p.len(),
        forall|i: int| start <= i < p.len() ==> p[i] != '/',
        start == 0 || p[start - 1] == '/',
    ensures
        last_component(p) == p.subrange(start, p.len() as int),
    decreases p.len(),
{
    if p.len() > 0 {
        if p.last() == '/' {
            assert(start == p.len());
        } else {
            if start == p.len() {
                assert(false);
            }
            lemma_last_component(p.drop_last(), start);
            assert(p.drop_last().subrange(start, p.len() - 1).push(p.last()) =~= p.subrange(
                start,
                p.len() as int,
            ));
        }
    }
}

/// Stock PSB templates taken from a reference data directory.
pub struct Templates {
    pub stock_root: String,
}

impl Templates {
    pub fn new(stock_root: String) -> (t: Self)
        ensures
            t.stock_root@ == stock_root@,
    {
        Templates { stock_root }
    }

    /// The decoded PSB bytes of the stock file at `relative_path` under the
    /// stock root, given that file's contents (`None` when it does not exist).
    pub fn load_stock_psb(&self, relative_path: &str, contents: Option<&[u8]>) -> (res: Result<
        Vec<u8>,
        Error,
    >)
        ensures
            contents is None ==> (res matches Err(Error::Template(m)) && m@ == "stock PSB template not found: "@
                + self.stock_root@ + "/"@ + relative_path@ + " (stock_root='"@ + self.stock_root@
                + "', relative='"@ + relative_path@ + "')"@),
            contents matches Some(raw) ==> (res matches Ok(d) ==> unpack_result(
                raw@,
                keystream(DEFAULT_KEY.spec_bytes(), encode_utf8(last_component(relative_path@)), DEFAULT_KEY_LENGTH as nat),
                Ok(d),
            )),
            contents matches Some(raw) ==> (res matches Err(Error::Mzs(e)) ==> unpack_result(
                raw@,
                keystream(DEFAULT_KEY.spec_bytes(), encode_utf8(last_component(relative_path@)), DEFAULT_KEY_LENGTH as nat),
                Err(e),
            )),
            contents is Some ==> (res is Ok || res matches Err(Error::Mzs(_))),
    {
        match contents {
            None => {
                let mut m = String::from_str("stock PSB template not found: ");
                m.append(self.stock_root.as_str());
                m.append("/");
                m.append(relative_path);
                m.append(" (stock_root='");
                m.append(self.stock_root.as_str());
                m.append("', relative='");
                m.append(relative_path);
                m.append("')");
                Err(Error::Template(m))
            },
            Some(raw) => {
                let name = file_name(relative_path);
                decode_resource(raw, name.as_str())
            },
        }
    }
}

/// Files that accompany a published library on the console's USB stick.
#[derive(Debug, Clone)]
pub struct UsbPreparation {
    pub game_root: String,
    pub assets_updated: usize,
    /// A presence check, not a certification of the stock runtime.
    pub missing_original_files: Vec<String>,
}

/// The USB root of an output directory given by its path components: only the
/// console's canonical layout `<root>/library/published` has one.
pub fn usb_root(output: &Vec<String>) -> (r: Option<Vec<String>>)
    ensures
        r is Some <==> output@.len() >= 2 && output@[output@.len() - 1]@ == "published"@ && output@[output@.len()
            - 2]@ == "library"@,
        r matches Some(root) ==> root@ == output@.take(output@.len() - 2),
{
    let n = output.len();
    if n < 2 {
        return None;
    }
    let published = String::from_str("published");
    let library = String::from_str("library");
    if output[n - 1] != published || output[n - 2] != library {
        return None;
    }
    let mut root: Vec<String> = Vec::new();
    let mut i: usize = 0;
    while i < n - 2
        invariant
            i <= n - 2,
            n == output@.len(),
            root@ == output@.take(i as int),
        decreases n - 2 - i,
    {
        root.push(output[i].clone());
        i = i + 1;
        assert(root@ =~= output@.take(i as int));
    }
    Some(root)
}

/// Cover geometry from a game's metadata (zeros mean "use the default").
#[derive(Debug, Clone, Copy, PartialEq, Eq, Default)]
pub struct CoverSize {
    pub width: u32,
    pub height: u32,
    pub origin_x: u32,
    pub origin_y: u32,
}

/// One cover of the title-select screen.
#[derive(Debug, Clone)]
pub struct CoverEntry {
    pub cover_path: String,
    pub cover_size: Option<CoverSize>,
    /// Human-readable label, only used for error messages.
    pub label: String,
}

impl CoverEntry {
    /// Width, height and origin of the cover: 240 by 240 centred unless the
    /// metadata says otherwise, an origin of zero meaning the centre.
    pub fn dimensions(&self) -> (r: (u32, u32, u32, u32))
        ensures
            self.cover_size is None ==> r == (240u32, 240u32, 120u32, 120u32),
            self.cover_size matches Some(cs) ==> {
                let w = if cs.width == 0 { 240 } else { cs.width };
                let h = if cs.height == 0 { 240 } else { cs.height };
                r == (w, h, if cs.origin_x == 0 { w / 2 } else { cs.origin_x }, if cs.origin_y == 0 {
                    h / 2
                } else {
                    cs.origin_y
                })
            },
    {
        match &self.cover_size {
            Some(cs) => {
                let w = if cs.width == 0 { 240 } else { cs.width };
                let h = if cs.height == 0 { 240 } else { cs.height };
                let ox = if cs.origin_x == 0 { w / 2 } else { cs.origin_x };
                let oy = if cs.origin_y == 0 { h / 2 } else { cs.origin_y };
                (w, h, ox, oy)
            },
            None => (240, 240, 120, 120),
        }
    }
}

/// Which lineup a menu is generated for.
#[derive(Debug, Clone, Copy, PartialEq, Eq)]
pub enum LineupKind {
    Jp,
    Us,
}

/// Display metadata of a game.
#[derive(Debug, Default)]
pub struct GameDisplay {
    pub name: String,
    pub tname: String,
    pub name_eng: String,
    pub titlebar: u32,
    pub ccolor: u32,
    pub csize: u32,
    pub players: u32,
    pub demo_time: u32,
}

/// Emulator placement of a game.
#[derive(Debug, Clone, Copy, PartialEq, Eq, Default)]
pub struct GameEmulator {
    pub emu_ofs_x: i32,
    pub emu_ofs_y: i32,
    pub screen_mode: u32,
}

/// Region tags of a game's alternative ROMs.
#[derive(Debug, Default)]
pub struct RomAlt {
    pub region_tag_e: Option<String>,
    pub region_tag_s1: Option<String>,
    pub region_tag_s2: Option<String>,
}

/// Positions of a game in the menu's sort orders.
#[derive(Debug, Clone, Copy, PartialEq, Eq, Default)]
pub struct SortIndices {
    pub sor_date: u32,
    pub sor_demo: u32,
    pub sor_genr: u32,
    pub sor_name: u32,
    pub sor_pnum: u32,
}

/// The ROM a game plays. `preamp` is the bit pattern of an IEEE-754 double.
#[derive(Debug, Default)]
pub struct GameRom {
    pub arch: String,
    pub country: String,
    pub preamp: u64,
    pub rom: String,
    pub tg16cd_systemcard: Option<String>,
    pub tg16_option: Option<u32>,
    pub tg16pad_type: Option<u32>,
    pub region_tag: Option<String>,
}

/// A game's `game.json`.
#[derive(Debug, Default)]
pub struct GameJson {
    pub display: GameDisplay,
    pub emulator: GameEmulator,
    pub rom: GameRom,
    pub rom_alt: RomAlt,
    pub cover: Option<String>,
    pub cover_size: Option<CoverSize>,
}

/// A game of the library.
#[derive(Debug)]
pub struct Game {
    /// Directory name on disk (stable identifier across metadata edits).
    pub dir_name: String,
    /// Logical region tag: the ROM's own tag, else the directory name.
    pub region_tag: String,
    pub data: GameJson,
    pub sort: SortIndices,
    pub source_dir: String,
}

/// Metadata of a folder entry.
#[derive(Debug, Clone, Default)]
pub struct FolderJson {
    pub name: String,
}

/// Where to read the library and templates, and where to publish.
#[derive(Debug, Clone)]
pub struct PublishOptions {
    pub library_root: String,
    pub stock_data_root: String,
    pub output_root: String,
    pub incremental: bool,
}

/// What a publication produced.
#[derive(Debug, Clone, Default)]
pub struct PublishReport {
    pub roms_packed: usize,
    pub roms_copied: usize,
    pub psb_files_written: usize,
    pub folders_emitted: usize,
    /// Per-game save state files emitted into a pack, data and meta counted once.
    pub save_files_copied: usize,
    /// Per-game SRAM blocks embedded into a pack's `saves/sram.bin`.
    pub sram_blocks_embedded: usize,
    /// Per-game SRAM files of the wrong size, skipped.
    pub sram_blocks_skipped_wrong_size: usize,
    pub data_008_emitted: bool,
}

/// Where to sync a library from.
#[derive(Debug, Clone)]
pub struct SyncOptions {
    /// `library/` root (sibling of `published/` on the USB stick).
    pub library_root: String,
    /// `published/` root.
    pub published_root: String,
}

/// What a sync from the published tree produced.
#[derive(Debug, Clone, Copy, PartialEq, Eq, Default)]
pub struct SyncReport {
    pub backup_flags_updated: bool,
    pub sram_blocks_imported: usize,
    pub sram_blocks_unmapped: usize,
    pub state_files_imported: usize,
    pub state_files_unmapped: usize,
}

} // verus!
