//! Finding the games partition (P9) of a full NAND dump: walk the MBR to its
//! extended partition, then the chain of EBRs to the ninth partition.
//!
//! The walk reads sectors one at a time; [`P9Walk`] decides, from each
//! sector it is given, which sector to read next, or where P9 is, or why
//! there is none.
use vstd::prelude::*;
use vstd::string::StringExecFns;
use crate::psb::format::decimal;
use crate::psb::reader::decimal_string;

verus! {

/// Bytes of a sector.
pub const SECTOR_SIZE: usize = 512;

/// A partition table sector: 512 bytes ending in the 0x55 0xAA signature.
pub open spec fn table_sector(b: Seq<u8>) -> bool {
    b.len() == 512 && b[510] == 0x55 && b[511] == 0xaa
}

/// Four little-endian bytes at `at`.
pub open spec fn le32(b: Seq<u8>, at: int) -> nat {
    (b[at] + b[at + 1] * 0x100 + b[at + 2] * 0x1_0000 + b[at + 3] * 0x100_0000) as nat
}

/// Type, start and size (in sectors) of partition entry `slot` of a table.
pub open spec fn table_entry(b: Seq<u8>, slot: int) -> (u8, nat, nat) {
    let o = 446 + slot * 16;
    (b[o + 4], le32(b, o + 8), le32(b, o + 12))
}

/// The partition types that hold an extended partition table.
pub open spec fn extended(kind: u8) -> bool {
    kind == 0x05 || kind == 0x0f || kind == 0x85
}

/// The first extended entry of the MBR, or -1.
pub open spec fn first_extended(mbr: Seq<u8>) -> int {
    if extended(table_entry(mbr, 0).0) {
        0
    } else if extended(table_entry(mbr, 1).0) {
        1
    } else if extended(table_entry(mbr, 2).0) {
        2
    } else if extended(table_entry(mbr, 3).0) {
        3
    } else {
        -1
    }
}

/// What to do after a sector.
#[derive(Debug, Clone, PartialEq, Eq)]
pub enum Step {
    /// Read the sector at this address next.
    Read(u64),
    /// P9 starts at this byte offset and has this many bytes.
    Found(u64, u64),
    /// There is no P9 to be found, for this reason.
    Fail(String),
}

pub open spec fn no_table_message(lba: nat) -> Seq<char> {
    "No valid MBR/EBR partition table at sector "@ + decimal(lba)
}

pub open spec fn no_extended_message() -> Seq<char> {
    "Full dump has no extended partition table; select the P9 image instead"@
}

pub open spec fn missing_partition_message(id: nat) -> Seq<char> {
    "Partition P"@ + decimal(id) + " is missing"@
}

pub open spec fn no_p9_message() -> Seq<char> {
    "P9 is missing from the full dump"@
}

pub open spec fn cyclic_message() -> Seq<char> {
    "Cyclic partition table"@
}

/// The walk so far: the extended partition's first sector, the sector being
/// read, the partition it describes (4 while the MBR is read) and the EBR
/// sectors read already.
pub struct P9Walk {
    base: u64,
    current: u64,
    id: u64,
    visited: Vec<u64>,
}

impl P9Walk {
    pub closed spec fn base(&self) -> nat {
        self.base as nat
    }

    pub closed spec fn current(&self) -> nat {
        self.current as nat
    }

    /// The partition the sector being read describes; 4 stands for the MBR,
    /// 10 for a finished walk.
    pub closed spec fn id(&self) -> nat {
        self.id as nat
    }

    pub closed spec fn visited(&self) -> Seq<u64> {
        self.visited@
    }

    /// Sector addresses stay below 2^33 (an EBR address is the base plus a
    /// 32-bit offset).
    pub closed spec fn well_formed(&self) -> bool {
        &&& self.base < 0x1_0000_0000
        &&& self.current < 0x2_0000_0000
        &&& 4 <= self.id <= 10
        &&& self.visited@.len() <= 5
        &&& self.id <= 9 ==> self.visited@.len() + 4 <= self.id
    }

    /// A walk that starts at the MBR, sector 0.
    pub fn new() -> (w: Self)
        ensures
            w.well_formed(),
            w.id() == 4,
            w.current() == 0,
            w.visited() == Seq::<u64>::empty(),
    {
        P9Walk { base: 0, current: 0, id: 4, visited: Vec::new() }
    }

    /// The sector to read first.
    pub fn first_sector(&self) -> (lba: u64)
        ensures
            lba == self.current(),
    {
        self.current
    }

    fn seen(&self, lba: u64) -> (b: bool)
        ensures
            b == self.visited().contains(lba),
    {
        let mut i: usize = 0;
        while i < self.visited.len()
            invariant
                i <= self.visited@.len(),
                forall|q: int| 0 <= q < i ==> self.visited@[q] != lba,
            decreases self.visited@.len() - i,
        {
            if self.visited[i] == lba {
                assert(self.visited@[i as int] == lba);
                return true;
            }
            i = i + 1;
        }
        false
    }

    /// Takes the sector at `current()` and says what to do next.
    ///
    /// The MBR must be a partition table with an extended entry; the walk
    /// then reads the EBR at its start. Each EBR's first entry is partition
    /// P5, P6, ... in turn; for P9 the walk ends with its byte offset (the
    /// EBR's address plus the entry's start, in sectors) and size. Before P9
    /// an EBR's second entry must link (by an offset from the extended
    /// partition's start) to the next EBR, which must not be one read before.
    pub fn step(&mut self, sector: &[u8]) -> (r: Step)
        requires
            old(self).well_formed(),
            old(self).id() < 10,
        ensures
            final(self).well_formed(),
            !table_sector(sector@) ==> (r matches Step::Fail(m) && m@ == no_table_message(old(self).current())),
            table_sector(sector@) && old(self).id() == 4 ==> ({
                let e = first_extended(sector@);
                &&& e < 0 ==> (r matches Step::Fail(m) && m@ == no_extended_message())
                &&& e >= 0 ==> r == Step::Read(table_entry(sector@, e).1 as u64) && final(self).base()
                    == table_entry(sector@, e).1 && final(self).current() == table_entry(sector@, e).1
                    && final(self).id() == 5 && final(self).visited() == seq![table_entry(sector@, e).1 as u64]
            }),
            table_sector(sector@) && 5 <= old(self).id() <= 9 ==> ({
                let (kind, start, size) = table_entry(sector@, 0);
                let (link, next, _s) = table_entry(sector@, 1);
                let following = old(self).base() + next;
                &&& (kind == 0 || size == 0) ==> (r matches Step::Fail(m) && m@ == missing_partition_message(
                    old(self).id(),
                ))
                &&& !(kind == 0 || size == 0) && old(self).id() == 9 ==> r == Step::Found(
                    ((old(self).current() + start) * 512) as u64,
                    (size * 512) as u64,
                ) && final(self).id() == 10
                &&& !(kind == 0 || size == 0) && old(self).id() < 9 && !(extended(link) && next > 0) ==> (r matches Step::Fail(
                    m,
                ) && m@ == no_p9_message())
                &&& !(kind == 0 || size == 0) && old(self).id() < 9 && extended(link) && next > 0
                    && old(self).visited().contains(following as u64) ==> (r matches Step::Fail(m) && m@
                    == cyclic_message())
                &&& !(kind == 0 || size == 0) && old(self).id() < 9 && extended(link) && next > 0
                    && !old(self).visited().contains(following as u64) ==> r == Step::Read(following as u64)
                    && final(self).current() == following && final(self).id() == old(self).id() + 1
                    && final(self).base() == old(self).base() && final(self).visited() == old(self).visited().push(
                    following as u64,
                )
            }),
    {
        if !(sector.len() == SECTOR_SIZE && sector[510] == 0x55 && sector[511] == 0xaa) {
            let mut m = String::from_str("No valid MBR/EBR partition table at sector ");
            let d = decimal_string(self.current);
            m.append(d.as_str());
            return Step::Fail(m);
        }
        if self.id == 4 {
            let mut i: usize = 0;
            while i < 4
                invariant
                    i <= 4,
                    table_sector(sector@),
                    *self == *old(self),
                    old(self).well_formed(),
                    old(self).id() == 4,
                    forall|q: int| 0 <= q < i ==> !extended(#[trigger] table_entry(sector@, q).0),
                decreases 4 - i,
            {
                let (kind, start, _size) = entry(sector, i);
                if kind == 0x05 || kind == 0x0f || kind == 0x85 {
                    self.base = start;
                    self.current = start;
                    self.id = 5;
                    self.visited = Vec::new();
                    self.visited.push(start);
                    proof {
                        assert(first_extended(sector@) == i);
                        assert(self.visited@ =~= seq![start]);
                    }
                    return Step::Read(start);
                }
                i = i + 1;
            }
            return Step::Fail(
                String::from_str("Full dump has no extended partition table; select the P9 image instead"),
            );
        }
        let (kind, start, size) = entry(sector, 0);
        if kind == 0 || size == 0 {
            let mut m = String::from_str("Partition P");
            let d = decimal_string(self.id);
            m.append(d.as_str());
            m.append(" is missing");
            return Step::Fail(m);
        }
        if self.id == 9 {
            self.id = 10;
            return Step::Found((self.current + start) * 512, size * 512);
        }
        let (link, next, _s) = entry(sector, 1);
        if !((link == 0x05 || link == 0x0f || link == 0x85) && next > 0) {
            return Step::Fail(String::from_str("P9 is missing from the full dump"));
        }
        let following = self.base + next;
        if self.seen(following) {
            return Step::Fail(String::from_str("Cyclic partition table"));
        }
        self.current = following;
        self.id = self.id + 1;
        self.visited.push(following);
        Step::Read(following)
    }
}

/// Type, start and size of partition entry `slot` of a table sector.
fn entry(b: &[u8], slot: usize) -> (r: (u8, u64, u64))
    requires
        b@.len() == 512,
        slot < 4,
    ensures
        r.0 == table_entry(b@, slot as int).0,
        r.1 == table_entry(b@, slot as int).1,
        r.2 == table_entry(b@, slot as int).2,
        r.1 < 0x1_0000_0000,
        r.2 < 0x1_0000_0000,
{
    let o = 446 + slot * 16;
    let start = b[o + 8] as u64 + b[o + 9] as u64 * 0x100 + b[o + 10] as u64 * 0x1_0000 + b[o + 11] as u64
        * 0x100_0000;
    let size = b[o + 12] as u64 + b[o + 13] as u64 * 0x100 + b[o + 14] as u64 * 0x1_0000 + b[o + 15] as u64
        * 0x100_0000;
    (b[o + 4], start, size)
}

} // verus!
