//! Importing games and console BIOS files into a library.
use vstd::prelude::*;
use vstd::string::StringExecFns;
use crate::psb::format::decimal;
use crate::psb::reader::decimal_string;
use crate::source::{contains_text, loose_names, lower, split_name, stem_and_extension};
use vstd::relations::injective_on;
use vstd::set_lib::{lemma_int_range, lemma_len_subset, lemma_map_size, set_int_range};

verus! {

/// A step of a long import, with its counts where it has them.
#[derive(Debug, Clone)]
pub struct Progress {
    pub message: String,
    pub completed: Option<u64>,
    pub total: Option<u64>,
}

/// The progress record sent to the user for `message` and `(completed, total)`.
pub fn report(message: String, counts: Option<(u64, u64)>) -> (p: Progress)
    ensures
        p.message@ == message@,
        p.completed == (match counts {
            Some(c) => Some(c.0),
            None => None,
        }),
        p.total == (match counts {
            Some(c) => Some(c.1),
            None => None,
        }),
{
    Progress {
        message,
        completed: match counts {
            Some(c) => Some(c.0),
            None => None,
        },
        total: match counts {
            Some(c) => Some(c.1),
            None => None,
        },
    }
}

/// Where the two CD BIOS images of the library are kept.
#[derive(Debug, Clone)]
pub struct BiosConfig {
    pub super_path: String,
    pub system_path: String,
    pub source: String,
}

/// Whether CD games can be converted, and why not.
#[derive(Debug, Clone)]
pub struct BiosStatus {
    pub ready: bool,
    pub message: String,
}

/// What importing one ROM produced.
#[derive(Debug, Clone)]
pub struct ImportResult {
    pub filename: String,
    pub converted: bool,
    pub cd: bool,
}

/// What creating a library from a console dump produced.
#[derive(Debug, Clone)]
pub struct NewLibraryResult {
    pub root: String,
    pub games: usize,
    pub bios: Option<BiosConfig>,
    pub warnings: Vec<String>,
}

/// Size of a CD BIOS image.
pub const BIOS_SIZE: usize = 262144;

/// All bytes equal `b`.
pub open spec fn all_equal(s: Seq<u8>, b: u8) -> bool {
    forall|i: int| 0 <= i < s.len() ==> s[i] == b
}

/// Checks a BIOS image: 256 KiB, not all zeros, not all 0xFF.
pub fn validate(bytes: &[u8], label: &str) -> (r: Result<(), String>)
    ensures
        bytes@.len() != BIOS_SIZE ==> (r matches Err(m) && m@ == label@ + ": expected a 256 KiB BIOS, found "@
            + decimal(bytes@.len()) + " bytes"@),
        bytes@.len() == BIOS_SIZE && (all_equal(bytes@, 0) || all_equal(bytes@, 255)) ==> (r matches Err(m)
            && m@ == label@ + ": BIOS is empty"@),
        r is Ok <==> bytes@.len() == BIOS_SIZE && !all_equal(bytes@, 0) && !all_equal(bytes@, 255),
{
    if bytes.len() != BIOS_SIZE {
        let mut m = String::from_str(label);
        m.append(": expected a 256 KiB BIOS, found ");
        let n = decimal_string(bytes.len() as u64);
        m.append(n.as_str());
        m.append(" bytes");
        return Err(m);
    }
    let mut zeros = true;
    let mut ones = true;
    let mut i: usize = 0;
    while i < bytes.len()
        invariant
            i <= bytes@.len(),
            zeros <==> (forall|k: int| 0 <= k < i ==> #[trigger] bytes@[k] == 0),
            ones <==> (forall|k: int| 0 <= k < i ==> #[trigger] bytes@[k] == 255),
        decreases bytes@.len() - i,
    {
        if bytes[i] != 0 {
            zeros = false;
        }
        if bytes[i] != 255 {
            ones = false;
        }
        i = i + 1;
    }
    if zeros || ones {
        let mut m = String::from_str(label);
        m.append(": BIOS is empty");
        return Err(m);
    }
    Ok(())
}

/// The view of a file's contents, or of why it could not be read.
pub open spec fn file_view(f: Result<Vec<u8>, String>) -> Result<Seq<u8>, Seq<char>> {
    match f {
        Ok(b) => Ok(b@),
        Err(m) => Err(m@),
    }
}

/// What checking one configured BIOS file finds, given its contents or why
/// they could not be read.
pub open spec fn bios_file_check(label: Seq<char>, file: Result<Seq<u8>, Seq<char>>) -> Result<(), Seq<char>> {
    match file {
        Err(m) => Err(m),
        Ok(b) => if b.len() != BIOS_SIZE {
            Err(label + ": expected a 256 KiB BIOS"@)
        } else if all_equal(b, 0) || all_equal(b, 255) {
            Err(label + ": BIOS is empty"@)
        } else {
            Ok(())
        },
    }
}

pub open spec fn unit_view(r: Result<(), String>) -> Result<(), Seq<char>> {
    match r {
        Ok(()) => Ok(()),
        Err(m) => Err(m@),
    }
}

/// Checks one configured BIOS file, given its contents or why they could not
/// be read.
pub fn check_bios_file(label: &str, file: &Result<Vec<u8>, String>) -> (r: Result<(), String>)
    ensures
        unit_view(r) == bios_file_check(label@, file_view(*file)),
{
    match file {
        Err(m) => Err(m.clone()),
        Ok(b) => {
            if b.len() != BIOS_SIZE {
                let mut m = String::from_str(label);
                m.append(": expected a 256 KiB BIOS");
                return Err(m);
            }
            validate(b.as_slice(), label)
        },
    }
}

/// Whether both BIOS files can be used, given the configuration and what
/// reading the two files it names gave (their contents, or why they could not
/// be read); the Super System Card is checked first.
pub fn bios_status(
    config: Option<&BiosConfig>,
    super_file: &Result<Vec<u8>, String>,
    system_file: &Result<Vec<u8>, String>,
) -> (s: BiosStatus)
    ensures
        config is None ==> !s.ready && s.message@
            == "No BIOS configured. Extract them from an original PCD in Settings."@,
        config is Some ==> (s.ready <==> bios_file_check("Super System Card"@, file_view(*super_file)) is Ok
            && bios_file_check("System Card"@, file_view(*system_file)) is Ok),
        config is Some ==> (bios_file_check("Super System Card"@, file_view(*super_file)) matches Err(m)
            ==> s.message@ == m),
        config is Some && bios_file_check("Super System Card"@, file_view(*super_file)) is Ok ==> (
        bios_file_check("System Card"@, file_view(*system_file)) matches Err(m) ==> s.message@ == m),
        s.ready ==> s.message@ == "Both BIOS files are ready for CD conversion."@,
{
    match config {
        None => BiosStatus {
            ready: false,
            message: String::from_str("No BIOS configured. Extract them from an original PCD in Settings."),
        },
        Some(_) => match check_bios_file("Super System Card", super_file) {
            Err(m) => BiosStatus { ready: false, message: m },
            Ok(()) => match check_bios_file("System Card", system_file) {
                Err(m) => BiosStatus { ready: false, message: m },
                Ok(()) => BiosStatus {
                    ready: true,
                    message: String::from_str("Both BIOS files are ready for CD conversion."),
                },
            },
        },
    }
}

// ---- naming an imported ROM ----

/// Calls `str::to_ascii_lowercase`: ASCII upper-case letters lowered, every
/// other character kept.
#[verifier::external_body]
fn ascii_lowercase(s: &str) -> (r: String)
    ensures
        r@ == lower(s@),
{
    s.to_ascii_lowercase()
}

/// The extension of a ROM's file name, in lower case.
pub open spec fn rom_extension(name: Seq<char>) -> Seq<char> {
    lower(stem_and_extension(name).1)
}

pub open spec fn raw_bin_hint() -> Seq<char> {
    "For a CD game, select the .cue file describing all tracks, or an existing .pcd. Rename a raw HuCard ROM to .pce before importing it."@
}

/// How a ROM file is imported, by its extension: whether it is converted
/// (a CUE sheet becomes a PCD archive) and whether it is a CD game.
pub open spec fn rom_kind_of(name: Seq<char>) -> Result<(bool, bool), Seq<char>> {
    let e = rom_extension(name);
    if !(e == "cue"@ || e == "pcd"@ || e == "pce"@ || e == "sgx"@ || e == "bin"@) {
        Err("Unsupported ROM format: "@ + e)
    } else if e == "bin"@ {
        Err(raw_bin_hint())
    } else {
        Ok((e == "cue"@, e == "cue"@ || e == "pcd"@))
    }
}

pub open spec fn kind_view(r: Result<(bool, bool), String>) -> Result<(bool, bool), Seq<char>> {
    match r {
        Ok(x) => Ok(x),
        Err(m) => Err(m@),
    }
}

/// Whether a ROM named `file_name` can be imported, and how: `(converted, cd)`.
pub fn rom_kind(file_name: &str) -> (r: Result<(bool, bool), String>)
    ensures
        kind_view(r) == rom_kind_of(file_name@),
{
    let (_stem, ext) = split_name(file_name);
    let e = ascii_lowercase(ext.as_str());
    let cue = String::from_str("cue");
    let pcd = String::from_str("pcd");
    let pce = String::from_str("pce");
    let sgx = String::from_str("sgx");
    let bin = String::from_str("bin");
    if !(e == cue || e == pcd || e == pce || e == sgx || e == bin) {
        let mut m = String::from_str("Unsupported ROM format: ");
        m.append(e.as_str());
        return Err(m);
    }
    if e == bin {
        return Err(
            String::from_str(
                "For a CD game, select the .cue file describing all tracks, or an existing .pcd. Rename a raw HuCard ROM to .pce before importing it.",
            ),
        );
    }
    let converted = e == cue;
    Ok((converted, converted || e == pcd))
}

/// The name an imported ROM is saved under: a converted CUE sheet takes the
/// extension `pcd`.
pub fn imported_name(file_name: &str, converted: bool) -> (r: String)
    ensures
        converted ==> r@ == stem_and_extension(file_name@).0 + ".pcd"@,
        !converted ==> r@ == file_name@,
{
    if converted {
        let (mut stem, _ext) = split_name(file_name);
        stem.append(".pcd");
        stem
    } else {
        String::from_str(file_name)
    }
}

/// `stem (k).ext`, the name tried for the `k`-th copy.
pub open spec fn numbered(stem: Seq<char>, ext: Seq<char>, k: nat) -> Seq<char> {
    stem + " ("@ + decimal(k) + ")."@ + ext
}

proof fn lemma_numbered_injective(stem: Seq<char>, ext: Seq<char>, a: nat, b: nat)
    requires
        numbered(stem, ext, a) == numbered(stem, ext, b),
    ensures
        a == b,
{
    reveal_strlit(" (");
    reveal_strlit(").");
    let da = decimal(a);
    let db = decimal(b);
    let lo: int = stem.len() as int + 2;
    assert(numbered(stem, ext, a).len() == lo + da.len() + 2 + ext.len());
    assert(numbered(stem, ext, b).len() == lo + db.len() + 2 + ext.len());
    assert(numbered(stem, ext, a).subrange(lo, lo + da.len()) =~= da);
    assert(numbered(stem, ext, b).subrange(lo, lo + db.len()) =~= db);
    crate::saves::lemma_decimal_digits(a);
    crate::saves::lemma_decimal_digits(b);
}

/// At most `taken.len()` of the numbered names can be taken.
proof fn lemma_numbered_room(stem: Seq<char>, ext: Seq<char>, taken: Seq<Seq<char>>, k: int)
    requires
        k >= 2,
        forall|j: int| 2 <= j <= k ==> taken.contains(#[trigger] numbered(stem, ext, j as nat)),
    ensures
        k - 1 <= taken.len(),
{
    let x = set_int_range(2, k + 1);
    let f = |j: int| numbered(stem, ext, j as nat);
    let y = x.map(f);
    lemma_int_range(2, k + 1);
    assert(injective_on(f, x)) by {
        assert forall|a: int, b: int| x.contains(a) && x.contains(b) && #[trigger] f(a) == #[trigger] f(b) implies a == b by {
            lemma_numbered_injective(stem, ext, a as nat, b as nat);
        }
    }
    lemma_map_size(x, y, f);
    assert(y.subset_of(taken.to_set())) by {
        assert forall|n: Seq<char>| #[trigger] y.contains(n) implies taken.to_set().contains(n) by {
            let j = choose|j: int| x.contains(j) && f(j) == n;
            assert(taken.contains(numbered(stem, ext, j as nat)));
        }
    }
    taken.lemma_cardinality_of_set();
    lemma_len_subset(y, taken.to_set());
}

/// The `k`-th copy's name of a file called `name`.
pub open spec fn copy_name(name: Seq<char>, k: nat) -> Seq<char> {
    numbered(stem_and_extension(name).0, stem_and_extension(name).1, k)
}

fn numbered_text(stem: &String, ext: &String, k: u64) -> (r: String)
    ensures
        r@ == numbered(stem@, ext@, k as nat),
{
    let mut r = stem.clone();
    r.append(" (");
    let d = decimal_string(k);
    r.append(d.as_str());
    r.append(").");
    r.append(ext.as_str());
    r
}

/// The name under which a file called `name` is saved beside the files
/// `taken`: the name itself when it is free, else the first free
/// `stem (k).ext` for k = 2, 3, …
pub fn free_name(name: &str, taken: &Vec<String>) -> (r: String)
    requires
        stem_and_extension(name@).1.len() > 0,
        taken@.len() < u64::MAX - 2,
    ensures
        !loose_names(taken@).contains(name@) ==> r@ == name@,
        loose_names(taken@).contains(name@) ==> exists|k: nat|
            #![trigger copy_name(name@, k)]
            k >= 2 && r@ == copy_name(name@, k) && !loose_names(taken@).contains(copy_name(name@, k)) && forall|j: nat|
                2 <= j < k ==> loose_names(taken@).contains(#[trigger] copy_name(name@, j)),
{
    let whole = String::from_str(name);
    if !contains_text(taken, &whole) {
        return whole;
    }
    let (stem, ext) = split_name(name);
    let ghost tv = loose_names(taken@);
    let mut k: u64 = 2;
    loop
        invariant
            2 <= k <= taken@.len() + 2,
            tv == loose_names(taken@),
            tv.len() == taken@.len(),
            taken@.len() < u64::MAX - 2,
            (stem@, ext@) == stem_and_extension(name@),
            tv.contains(name@),
            forall|j: nat| 2 <= j < k ==> tv.contains(#[trigger] numbered(stem@, ext@, j)),
        decreases taken@.len() + 2 - k,
    {
        let candidate = numbered_text(&stem, &ext, k);
        if !contains_text(taken, &candidate) {
            proof {
                assert(copy_name(name@, k as nat) == candidate@);
                assert forall|j: nat| 2 <= j < k implies tv.contains(#[trigger] copy_name(name@, j)) by {
                    assert(tv.contains(numbered(stem@, ext@, j)));
                }
            }
            return candidate;
        }
        proof {
            assert forall|j: int| 2 <= j <= k implies tv.contains(#[trigger] numbered(stem@, ext@, j as nat)) by {
                if j < k {
                    assert(tv.contains(numbered(stem@, ext@, j as nat)));
                }
            }
            lemma_numbered_room(stem@, ext@, tv, k as int);
        }
        k = k + 1;
    }
}

} // verus!
