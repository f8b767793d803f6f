//! Records the library editor keeps and shows: settings, list entries,
//! save-state previews, and the outcomes of its library commands.
use vstd::prelude::*;
use vstd::string::StringExecFns;
use crate::import::BiosConfig;
use crate::publish::UsbPreparation;

verus! {

/// An entry of a lineup's game list.
#[derive(Debug, Clone)]
pub struct GameListEntry {
    pub folder: String,
    pub sor_date: u32,
    pub sor_demo: u32,
    pub sor_genr: u32,
    pub sor_name: u32,
    pub sor_pnum: u32,
}

/// Editor preferences.
#[derive(Debug, Clone)]
pub struct EditorSettings {
    pub confirm_delete: bool,
    pub force_us_titlebar: bool,
    pub games_path: Option<String>,
    pub bios: Option<BiosConfig>,
}

/// The value a missing yes/no setting takes.
pub fn default_true() -> (b: bool)
    ensures
        b,
{
    true
}

impl Default for EditorSettings {
    fn default() -> (s: Self)
        ensures
            s.confirm_delete,
            s.force_us_titlebar,
            s.games_path is None,
            s.bios is None,
    {
        EditorSettings {
            confirm_delete: default_true(),
            force_us_titlebar: default_true(),
            games_path: None,
            bios: None,
        }
    }
}

/// Genre names and alphabet exclusions of the game editor.
#[derive(Debug, Clone)]
pub struct GamesSettings {
    pub genres: Vec<String>,
    pub alpha_exclusions: Vec<String>,
}

/// The genres a library starts with.
pub fn default_genres() -> (g: Vec<String>)
    ensures
        g@.len() == 10,
        g@[0]@ == "Shooter"@,
        g@[1]@ == "Action"@,
        g@[2]@ == "Fighter"@,
        g@[3]@ == "Sport"@,
        g@[4]@ == "Puzzle"@,
        g@[5]@ == "Racing"@,
        g@[6]@ == "RPG"@,
        g@[7]@ == "Simulation"@,
        g@[8]@ == "Adventure"@,
        g@[9]@ == "ETC."@,
{
    let mut g: Vec<String> = Vec::new();
    g.push(String::from_str("Shooter"));
    g.push(String::from_str("Action"));
    g.push(String::from_str("Fighter"));
    g.push(String::from_str("Sport"));
    g.push(String::from_str("Puzzle"));
    g.push(String::from_str("Racing"));
    g.push(String::from_str("RPG"));
    g.push(String::from_str("Simulation"));
    g.push(String::from_str("Adventure"));
    g.push(String::from_str("ETC."));
    g
}

/// What syncing the library from the published tree did.
#[derive(Debug, Clone, Copy, PartialEq, Eq)]
pub struct SyncResult {
    pub backup_flags_updated: bool,
    pub sram_blocks_imported: usize,
    pub sram_blocks_unmapped: usize,
    pub state_files_imported: usize,
    pub state_files_unmapped: usize,
}

/// Whether a USB stick holds a library and the templates it needs.
#[derive(Debug, Clone)]
pub struct LibraryStatus {
    /// Wrapper folder exists and contains a usable `library/` subdir.
    pub has_library: bool,
    /// `BACKUP/game/` with the PSB templates is present.
    pub has_backup: bool,
    /// Template files that would be copied but are missing.
    pub missing_templates: Vec<String>,
}

/// What creating an empty library did.
#[derive(Debug, Clone)]
pub struct InitResult {
    pub library_root: String,
    pub templates_copied: usize,
}

/// What publishing the library did.
#[derive(Debug, Clone)]
pub struct PublishResult {
    pub roms_packed: usize,
    pub roms_copied: usize,
    pub psb_files_written: usize,
    pub folders_emitted: usize,
    pub save_files_copied: usize,
    pub sram_blocks_embedded: usize,
    pub sram_blocks_skipped_wrong_size: usize,
    pub data_008_emitted: bool,
    pub output_root: String,
    pub usb: Option<UsbPreparation>,
}

/// One save-state slot of a game.
#[derive(Debug, Clone)]
pub struct SaveStateInfo {
    pub slot: u32,
    pub exists: bool,
    pub thumbnail: Option<String>,
    pub preview_error: Option<String>,
}

/// The save states of a game and whether it has SRAM.
#[derive(Debug, Clone)]
pub struct GameSaves {
    pub states: Vec<SaveStateInfo>,
    /// Presence of the imported SRAM file, not proof of in-game progression.
    pub sram_present: bool,
}

/// Largest thumbnail: 320 by 240 RGB.
pub const PIXEL_CAPACITY: usize = 230400;

/// Bytes of an RGB thumbnail of the given size, refusing sizes no console
/// thumbnail has.
pub fn pixel_count(width: u32, height: u32) -> (r: Result<usize, String>)
    ensures
        r is Ok <==> width != 0 && height != 0 && width * height * 3 <= PIXEL_CAPACITY,
        r matches Ok(n) ==> n == width * height * 3,
        r matches Err(m) ==> m@ == "Invalid thumbnail dimensions"@,
{
    let w = width as u64;
    let h = height as u64;
    proof {
        assert(w * h <= 0xFFFF_FFFF * 0xFFFF_FFFF) by (nonlinear_arith)
            requires
                w <= 0xFFFF_FFFF,
                h <= 0xFFFF_FFFF,
        ;
    }
    let wh = w * h;
    if wh > u64::MAX / 3 {
        return Err(String::from_str("Invalid thumbnail dimensions"));
    }
    let bytes = wh * 3;
    if width == 0 || height == 0 || bytes > PIXEL_CAPACITY as u64 {
        return Err(String::from_str("Invalid thumbnail dimensions"));
    }
    Ok(bytes as usize)
}

/// Where the thumbnail of a native save state starts, by the state file's size.
pub fn preview_offset(file_size: u64) -> (r: Result<u64, String>)
    ensures
        file_size == 895_848 ==> r == Ok::<u64, String>(0x40300),
        file_size == 2_206_568 ==> r == Ok::<u64, String>(0x180300),
        file_size != 895_848 && file_size != 2_206_568 ==> (r matches Err(m) && m@
            == "Unrecognized console save size; preview unavailable"@),
{
    if file_size == 895_848 {
        Ok(0x40300)
    } else if file_size == 2_206_568 {
        Ok(0x180300)
    } else {
        Err(String::from_str("Unrecognized console save size; preview unavailable"))
    }
}

/// The save states of a game from the preview of each of its four slots
/// (`None` where the slot has no state file) and whether it has SRAM.
pub fn read_game_saves(previews: Vec<Option<Result<String, String>>>, sram_present: bool) -> (g: GameSaves)
    requires
        previews@.len() == 4,
    ensures
        g.sram_present == sram_present,
        g.states@.len() == 4,
        forall|i: int|
            0 <= i < 4 ==> {
                let s = #[trigger] g.states@[i];
                &&& s.slot == i
                &&& s.exists == previews@[i] is Some
                &&& s.thumbnail == (match previews@[i] {
                    Some(Ok(p)) => Some(p),
                    _ => None,
                })
                &&& s.preview_error == (match previews@[i] {
                    Some(Err(e)) => Some(e),
                    _ => None,
                })
            },
{
    let mut states: Vec<SaveStateInfo> = Vec::new();
    let mut previews = previews;
    let ghost orig = previews@;
    let mut slot: u32 = 0;
    while slot < 4
        invariant
            slot <= 4,
            orig.len() == 4,
            previews@.len() == 4 - slot,
            forall|k: int| 0 <= k < 4 - slot ==> previews@[k] == orig[k + slot],
            states@.len() == slot,
            forall|i: int|
                0 <= i < slot ==> {
                    let s = #[trigger] states@[i];
                    &&& s.slot == i
                    &&& s.exists == orig[i] is Some
                    &&& s.thumbnail == (match orig[i] {
                        Some(Ok(p)) => Some(p),
                        _ => None,
                    })
                    &&& s.preview_error == (match orig[i] {
                        Some(Err(e)) => Some(e),
                        _ => None,
                    })
                },
        decreases 4 - slot,
    {
        let preview = previews.remove(0);
        let exists = preview.is_some();
        let (thumbnail, preview_error) = match preview {
            Some(Ok(png)) => (Some(png), None),
            Some(Err(error)) => (None, Some(error)),
            None => (None, None),
        };
        states.push(SaveStateInfo { slot, exists, thumbnail, preview_error });
        slot = slot + 1;
    }
    GameSaves { states, sram_present }
}

} // verus!
