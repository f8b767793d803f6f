//! The key-name trie of PSB version 2 and later.
//!
//! Names are stored as a parent-pointer tree: a node's slot is the value
//! offset of its parent's slot plus the node's byte, so walking up from a
//! leaf and subtracting recovers the bytes. Slots are packed first-fit, each
//! parent's children in increasing byte order, parents taken breadth first.
use vstd::prelude::*;
use vstd::utf8::encode_utf8;
use vstd::set_lib::{lemma_int_range, lemma_len_subset, set_int_range};
use crate::psb::format::{chain_bytes, chain_fuel, chain_ok, get_or0, trie_name, utf8_lossy};
use crate::psb::layout::{TrieArrays, trie_words_fit, words_fit};

verus! {

/// The three arrays of a key-name trie.
pub struct KeyNamesTrie {
    pub value_offsets: Vec<u64>,
    pub tree: Vec<u64>,
    pub tails: Vec<u64>,
}

/// UTF-8 bytes of each name.
pub open spec fn name_bytes(names: Seq<String>) -> Seq<Seq<u8>> {
    names.map_values(|s: String| encode_utf8(s@))
}

/// Names that a trie can hold: pairwise different and without NUL bytes
/// (a NUL byte is how the trie marks where a name ends).
pub open spec fn trie_ready(b: Seq<Seq<u8>>) -> bool {
    &&& forall|i: int, j: int| 0 <= i < j < b.len() ==> b[i] != b[j]
    &&& forall|i: int, k: int| 0 <= i < b.len() && 0 <= k < b[i].len() ==> b[i][k] != 0
}

/// Bytes of all names, each counted with its end marker.
pub open spec fn total_len(b: Seq<Seq<u8>>) -> nat
    decreases b.len(),
{
    if b.len() == 0 {
        0
    } else {
        total_len(b.drop_last()) + b.last().len() + 1
    }
}

/// The names fit slots of 32 bits (the widest the file's arrays hold).
pub open spec fn trie_fits(b: Seq<Seq<u8>>) -> bool {
    total_len(b) < 0xFF_0000
}

/// Each name counts at least its end marker.
proof fn lemma_total_len_count(b: Seq<Seq<u8>>)
    ensures
        total_len(b) >= b.len(),
    decreases b.len(),
{
    if b.len() > 0 {
        lemma_total_len_count(b.drop_last());
    }
}

pub proof fn lemma_total_len_prefix(b: Seq<Seq<u8>>, i: int)
    requires
        0 <= i <= b.len(),
    ensures
        total_len(b.take(i)) <= total_len(b),
    decreases b.len() - i,
{
    if i < b.len() {
        lemma_total_len_prefix(b, i + 1);
        assert(b.take(i + 1).drop_last() =~= b.take(i));
    } else {
        assert(b.take(i) =~= b);
    }
}

/// Walking up from the parent of tail `j` reaches the root and spells `name`.
pub open spec fn spells_name(t: TrieArrays, j: int, name: Seq<u8>) -> bool {
    exists|k: nat|
        chain_ok(t.tree, get_or0(t.tree, t.tails[j]), k) && chain_bytes(
            t.tree,
            t.value_offsets,
            get_or0(t.tree, t.tails[j]),
            k,
        ) == name
}

/// Walking up from the parent of each tail spells the name, and reaches the root.
pub open spec fn spells(t: TrieArrays, b: Seq<Seq<u8>>) -> bool {
    &&& t.tails.len() == b.len()
    &&& forall|j: int| 0 <= j < b.len() ==> #[trigger] spells_name(t, j, b[j])
}

/// Bytes on the way from the root to node `c`.
pub open spec fn path(parent: Seq<usize>, label: Seq<u8>, c: int) -> Seq<u8>
    decreases c,
{
    if c <= 0 || c >= parent.len() || parent[c] >= c {
        Seq::empty()
    } else {
        path(parent, label, parent[c] as int).push(label[c])
    }
}

/// Number of links from node `c` up to the root.
pub open spec fn depth(parent: Seq<usize>, c: int) -> nat
    decreases c,
{
    if c <= 0 || c >= parent.len() || parent[c] >= c {
        0
    } else {
        depth(parent, parent[c] as int) + 1
    }
}

/// The trie before packing: per node its parent, byte, the name it ends (if
/// it is a leaf) and whether it is still linked from its parent.
struct Nodes {
    parent: Vec<usize>,
    label: Vec<u8>,
    terminal: Vec<Option<usize>>,
    alive: Vec<bool>,
}

impl Nodes {
    spec fn n(&self) -> nat {
        self.parent@.len()
    }

    /// Shape of the node arrays.
    spec fn shaped(&self) -> bool {
        &&& self.parent@.len() >= 1
        &&& self.label@.len() == self.parent@.len()
        &&& self.terminal@.len() == self.parent@.len()
        &&& self.alive@.len() == self.parent@.len()
        &&& self.parent@[0] == 0
        &&& self.alive@[0]
        &&& self.terminal@[0] is None
        &&& forall|c: int| 1 <= c < self.parent@.len() ==> #[trigger] self.parent@[c] < c
        &&& forall|c1: int, c2: int|
            1 <= c1 < self.parent@.len() && 1 <= c2 < self.parent@.len() && c1 != c2
                && self.alive@[c1] && self.alive@[c2] && #[trigger] self.parent@[c1]
                == #[trigger] self.parent@[c2] ==> self.label@[c1] != self.label@[c2]
    }

    spec fn path_of(&self, c: int) -> Seq<u8> {
        path(self.parent@, self.label@, c)
    }

    /// The alive child of `p` with byte `ch`, if any.
    fn find_child(&self, p: usize, ch: u8) -> (r: Option<usize>)
        requires
            self.shaped(),
        ensures
            r matches Some(c) ==> 1 <= c < self.n() && self.alive@[c as int] && self.parent@[c as int]
                == p && self.label@[c as int] == ch,
            r is None ==> forall|c: int|
                1 <= c < self.n() && self.alive@[c] && self.parent@[c] == p ==> self.label@[c] != ch,
    {
        let mut c: usize = 1;
        while c < self.parent.len()
            invariant
                1 <= c <= self.n(),
                self.shaped(),
                forall|d: int| 1 <= d < c && self.alive@[d] && self.parent@[d] == p ==> self.label@[d] != ch,
            decreases self.n() - c,
        {
            if self.alive[c] && self.parent[c] == p && self.label[c] == ch {
                return Some(c);
            }
            c = c + 1;
        }
        None
    }

    /// The alive children of `p` in increasing byte order.
    fn children_of(&self, p: usize) -> (kids: Vec<usize>)
        requires
            self.shaped(),
        ensures
            forall|q: int| 0 <= q < kids@.len() ==> 1 <= #[trigger] kids@[q] < self.n() && self.alive@[kids@[q] as int]
                && self.parent@[kids@[q] as int] == p,
            forall|c: int|
                #![trigger self.parent@[c]]
                1 <= c < self.n() && self.alive@[c] && self.parent@[c] == p ==> exists|q: int|
                    0 <= q < kids@.len() && #[trigger] kids@[q] == c,
            forall|q1: int, q2: int|
                0 <= q1 < q2 < kids@.len() ==> self.label@[kids@[q1] as int] < self.label@[kids@[q2] as int],
    {
        let mut kids: Vec<usize> = Vec::new();
        let mut c: usize = 1;
        while c < self.parent.len()
            invariant
                1 <= c <= self.n(),
                self.shaped(),
                forall|q: int| 0 <= q < kids@.len() ==> 1 <= #[trigger] kids@[q] < c && self.alive@[kids@[q] as int]
                    && self.parent@[kids@[q] as int] == p,
                forall|d: int|
                    1 <= d < c && self.alive@[d] && self.parent@[d] == p ==> exists|q: int|
                        0 <= q < kids@.len() && #[trigger] kids@[q] == d,
                forall|q1: int, q2: int|
                    0 <= q1 < q2 < kids@.len() ==> self.label@[kids@[q1] as int] < self.label@[kids@[q2] as int],
            decreases self.n() - c,
        {
            if self.alive[c] && self.parent[c] == p {
                let ch = self.label[c];
                let mut j: usize = 0;
                while j < kids.len() && self.label[kids[j]] < ch
                    invariant
                        j <= kids@.len(),
                        c < self.n(),
                        forall|q: int| 0 <= q < kids@.len() ==> 1 <= #[trigger] kids@[q] < c,
                        self.label@.len() == self.n(),
                        forall|q: int| 0 <= q < j ==> self.label@[#[trigger] kids@[q] as int] < ch,
                    decreases kids@.len() - j,
                {
                    j = j + 1;
                }
                proof {
                    if j < kids@.len() {
                        let kj = kids@[j as int];
                        assert(self.label@[kj as int] != ch);
                        assert(self.label@[kj as int] > ch);
                    }
                }
                let ghost before = kids@;
                kids.insert(j, c);
                proof {
                    assert forall|d: int|
                        1 <= d < c + 1 && self.alive@[d] && self.parent@[d] == p implies exists|q: int|
                            0 <= q < kids@.len() && #[trigger] kids@[q] == d by {
                        if d == c {
                            assert(kids@[j as int] == d);
                        } else {
                            let q0 = choose|q: int| 0 <= q < before.len() && before[q] == d;
                            if q0 < j {
                                assert(kids@[q0] == d);
                            } else {
                                assert(kids@[q0 + 1] == d);
                            }
                        }
                    }
                    assert forall|q1: int, q2: int|
                        0 <= q1 < q2 < kids@.len() implies self.label@[kids@[q1] as int] < self.label@[kids@[q2] as int] by {
                        if q2 < j {
                        } else if q2 == j {
                        } else if q1 < j {
                            assert(kids@[q2] == before[q2 - 1]);
                            if j < before.len() {
                                assert(self.label@[before[j as int] as int] > ch);
                                if q2 - 1 > j {
                                    assert(self.label@[before[j as int] as int] < self.label@[before[q2 - 1] as int]);
                                }
                            }
                        } else if q1 == j {
                            assert(kids@[q2] == before[q2 - 1]);
                            assert(self.label@[before[j as int] as int] > ch);
                            if q2 - 1 > j {
                                assert(self.label@[before[j as int] as int] < self.label@[before[q2 - 1] as int]);
                            }
                        } else {
                            assert(kids@[q1] == before[q1 - 1]);
                            assert(kids@[q2] == before[q2 - 1]);
                        }
                    }
                }
            }
            c = c + 1;
        }
        kids
    }
}

/// Paths and depths of nodes do not change when nodes are added after them.
proof fn lemma_path_extend(p1: Seq<usize>, l1: Seq<u8>, p2: Seq<usize>, l2: Seq<u8>, c: int)
    requires
        p1.len() <= p2.len(),
        l1.len() == p1.len(),
        l2.len() == p2.len(),
        forall|d: int| 0 <= d < p1.len() ==> p2[d] == p1[d] && l2[d] == l1[d],
        0 <= c < p1.len(),
    ensures
        path(p2, l2, c) == path(p1, l1, c),
        depth(p2, c) == depth(p1, c),
    decreases c,
{
    if c > 0 && p1[c] < c {
        lemma_path_extend(p1, l1, p2, l2, p1[c] as int);
    }
}

/// The nodes of all names, in the order the names come.
fn insert_names(names: &[String]) -> (r: (Nodes, Ghost<Seq<int>>))
    ensures
        r.0.shaped(),
        r.0.n() <= 1 + total_len(name_bytes(names@)),
        r.1@.len() == names@.len(),
        forall|j: int|
            0 <= j < names@.len() ==> 1 <= #[trigger] r.1@[j] < r.0.n() && r.0.terminal@[r.1@[j]]
                == Some(j as usize) && r.0.label@[r.1@[j]] == 0,
        forall|c: int|
            0 <= c < r.0.n() ==> (#[trigger] r.0.terminal@[c] matches Some(j) ==> j < names@.len()
                && r.1@[j as int] == c),
        trie_ready(name_bytes(names@)) ==> {
            &&& forall|c: int| 0 <= c < r.0.n() ==> #[trigger] r.0.alive@[c]
            &&& forall|j: int|
                0 <= j < names@.len() ==> r.0.path_of(r.0.parent@[#[trigger] r.1@[j]] as int)
                    == name_bytes(names@)[j]
            &&& forall|c: int| 1 <= c < r.0.n() ==> #[trigger] r.0.terminal@[r.0.parent@[c] as int] is None
        },
{
    let ghost b = name_bytes(names@);
    let ghost rdy = trie_ready(b);
    let mut nodes = Nodes { parent: vec![0usize], label: vec![0u8], terminal: vec![None], alive: vec![true] };
    let ghost mut tn: Seq<int> = Seq::empty();
    let mut i: usize = 0;
    while i < names.len()
        invariant
            nodes.shaped(),
            b == name_bytes(names@),
            rdy == trie_ready(b),
            i <= names@.len(),
            tn.len() == i,
            nodes.n() <= 1 + total_len(b.take(i as int)),
            forall|j: int|
                0 <= j < i ==> 1 <= #[trigger] tn[j] < nodes.n() && nodes.terminal@[tn[j]] == Some(j as usize)
                    && nodes.label@[tn[j]] == 0,
            forall|c: int|
                0 <= c < nodes.n() ==> (#[trigger] nodes.terminal@[c] matches Some(j) ==> j < i && tn[j as int]
                    == c),
            rdy ==> forall|c: int| 0 <= c < nodes.n() ==> #[trigger] nodes.alive@[c],
            rdy ==> forall|j: int|
                0 <= j < i ==> nodes.path_of(nodes.parent@[#[trigger] tn[j]] as int) == b[j],
            rdy ==> forall|c: int|
                1 <= c < nodes.n() ==> (#[trigger] nodes.terminal@[c] is None ==> nodes.label@[c] != 0),
            rdy ==> forall|c: int| 1 <= c < nodes.n() ==> #[trigger] nodes.terminal@[nodes.parent@[c] as int] is None,
        decreases names@.len() - i,
    {
        let bytes = names[i].as_str().as_bytes();
        assert(bytes@ == b[i as int]);
        let mut curr: usize = 0;
        let mut k: usize = 0;
        assert(b[i as int].take(0) =~= Seq::<u8>::empty());
        while k < bytes.len()
            invariant
                nodes.shaped(),
                b == name_bytes(names@),
                rdy == trie_ready(b),
                i < names@.len(),
                bytes@ == b[i as int],
                k <= bytes@.len(),
                curr < nodes.n(),
                tn.len() == i,
                nodes.n() <= 1 + total_len(b.take(i as int)) + k,
                forall|j: int|
                    0 <= j < i ==> 1 <= #[trigger] tn[j] < nodes.n() && nodes.terminal@[tn[j]] == Some(
                        j as usize,
                    ) && nodes.label@[tn[j]] == 0,
                forall|c: int|
                    0 <= c < nodes.n() ==> (#[trigger] nodes.terminal@[c] matches Some(j) ==> j < i
                        && tn[j as int] == c),
                rdy ==> forall|c: int| 0 <= c < nodes.n() ==> #[trigger] nodes.alive@[c],
                rdy ==> forall|j: int|
                    0 <= j < i ==> nodes.path_of(nodes.parent@[#[trigger] tn[j]] as int) == b[j],
                rdy ==> forall|c: int|
                    1 <= c < nodes.n() ==> (#[trigger] nodes.terminal@[c] is None ==> nodes.label@[c] != 0),
                rdy ==> forall|c: int|
                    1 <= c < nodes.n() ==> #[trigger] nodes.terminal@[nodes.parent@[c] as int] is None,
                rdy ==> nodes.terminal@[curr as int] is None,
                rdy ==> nodes.path_of(curr as int) == b[i as int].take(k as int),
            decreases bytes@.len() - k,
        {
            let ch = bytes[k];
            proof {
                if rdy {
                    assert(ch != 0);
                }
            }
            match nodes.find_child(curr, ch) {
                Some(c) => {
                    proof {
                        if rdy {
                            assert(nodes.path_of(c as int) == nodes.path_of(curr as int).push(ch));
                            assert(b[i as int].take(k + 1) =~= b[i as int].take(k as int).push(ch));
                            if nodes.terminal@[c as int] is Some {
                                let j = nodes.terminal@[c as int]->Some_0;
                                assert(nodes.label@[tn[j as int]] == 0);
                            }
                        }
                    }
                    curr = c;
                },
                None => {
                    let ghost p0 = nodes.parent@;
                    let ghost l0 = nodes.label@;
                    let new_idx = nodes.parent.len();
                    nodes.parent.push(curr);
                    nodes.label.push(ch);
                    nodes.terminal.push(None);
                    nodes.alive.push(true);
                    proof {
                        assert forall|d: int| 0 <= d < p0.len() implies nodes.path_of(d) == path(p0, l0, d) by {
                            lemma_path_extend(p0, l0, nodes.parent@, nodes.label@, d);
                        }
                        if rdy {
                            assert(nodes.path_of(curr as int) == path(p0, l0, curr as int));
                            assert(nodes.parent@[new_idx as int] == curr);
                            assert(nodes.label@[new_idx as int] == ch);
                            assert(nodes.path_of(new_idx as int) == path(p0, l0, curr as int).push(ch));
                            assert(b[i as int].take(k + 1) =~= b[i as int].take(k as int).push(ch));
                            assert forall|j: int| 0 <= j < i implies nodes.path_of(
                                nodes.parent@[#[trigger] tn[j]] as int,
                            ) == b[j] by {
                                assert(nodes.parent@[tn[j]] == p0[tn[j]]);
                            }
                        }
                    }
                    curr = new_idx;
                },
            }
            k = k + 1;
        }
        assert(b[i as int].take(bytes@.len() as int) =~= b[i as int]);
        assert(b.take(i + 1).drop_last() =~= b.take(i as int));
        match nodes.find_child(curr, 0) {
            Some(old_leaf) => {
                proof {
                    if rdy {
                        let j = nodes.terminal@[old_leaf as int]->Some_0;
                        assert(nodes.terminal@[old_leaf as int] is Some);
                        assert(tn[j as int] == old_leaf);
                        assert(nodes.path_of(nodes.parent@[tn[j as int]] as int) == b[j as int]);
                        assert(b[j as int] == b[i as int]);
                        assert(false);
                    }
                }
                nodes.alive.set(old_leaf, false);
            },
            None => {},
        }
        let ghost p0 = nodes.parent@;
        let ghost l0 = nodes.label@;
        let t = nodes.parent.len();
        nodes.parent.push(curr);
        nodes.label.push(0);
        nodes.terminal.push(Some(i));
        nodes.alive.push(true);
        proof {
            assert forall|d: int| 0 <= d < p0.len() implies nodes.path_of(d) == path(p0, l0, d) by {
                lemma_path_extend(p0, l0, nodes.parent@, nodes.label@, d);
            }
            tn = tn.push(t as int);
            if rdy {
                assert forall|j: int| 0 <= j < i + 1 implies nodes.path_of(
                    nodes.parent@[#[trigger] tn[j]] as int,
                ) == b[j] by {
                    if j < i {
                        assert(nodes.parent@[tn[j]] == p0[tn[j]]);
                    } else {
                        assert(nodes.parent@[t as int] == curr);
                    }
                }
            }
        }
        i = i + 1;
    }
    assert(b.take(names@.len() as int) =~= b);
    (nodes, Ghost(tn))
}

/// A list of distinct values below `n` holds at most `n` of them.
proof fn lemma_distinct_bounded(s: Seq<usize>, n: nat)
    requires
        s.no_duplicates(),
        forall|q: int| 0 <= q < s.len() ==> #[trigger] s[q] < n,
    ensures
        s.len() <= n,
{
    let t = s.map_values(|x: usize| x as int);
    assert(t.no_duplicates()) by {
        assert forall|i: int, j: int| 0 <= i < t.len() && 0 <= j < t.len() && i != j implies t[i] != t[j] by {
            assert(s[i] != s[j]);
        }
    }
    t.unique_seq_to_set();
    lemma_int_range(0, n as int);
    assert forall|x: int| t.to_set().contains(x) implies set_int_range(0, n as int).contains(x) by {
        let q = choose|q: int| 0 <= q < t.len() && t[q] == x;
        assert(s[q] < n);
    }
    lemma_len_subset(t.to_set(), set_int_range(0, n as int));
}

/// Every node is reached from the root when each node's parent is processed
/// and every processed node's children are placed.
proof fn lemma_reach(nodes: &Nodes, assigned: Seq<bool>, queue: Seq<usize>, c: int)
    requires
        nodes.shaped(),
        0 <= c < nodes.n(),
        assigned.len() == nodes.n(),
        assigned[0],
        forall|d: int| 0 <= d < nodes.n() ==> #[trigger] nodes.alive@[d],
        forall|d: int| 0 <= d < nodes.n() && #[trigger] assigned[d] ==> exists|q: int| 0 <= q < queue.len() && queue[q] == d,
        forall|q: int, d: int|
            0 <= q < queue.len() && 1 <= d < nodes.n() && nodes.alive@[d] && nodes.parent@[d] == #[trigger] queue[q]
                ==> #[trigger] assigned[d],
    ensures
        assigned[c],
    decreases c,
{
    if c > 0 {
        let pc = nodes.parent@[c] as int;
        lemma_reach(nodes, assigned, queue, pc);
        let q = choose|q: int| 0 <= q < queue.len() && queue[q] == pc;
        assert(nodes.alive@[c]);
    }
}

/// Slots of the nodes: each node's slot, each slot's value offset, and the number of slots.
struct Slots {
    index: Vec<usize>,
    value_offs: Vec<u64>,
    assigned: Vec<bool>,
}

/// Packs the children of each node, parents breadth first, each parent's
/// children at the lowest base where all of them fall on free slots.
#[verifier::rlimit(60)]
fn assign_slots(nodes: &Nodes) -> (r: Slots)
    requires
        nodes.shaped(),
        nodes.n() <= 0xFF_0000,
    ensures
        r.index@.len() == nodes.n(),
        r.assigned@.len() == nodes.n(),
        r.value_offs@.len() >= 1,
        r.value_offs@.len() <= 0xFF00_0200,
        forall|s: int| 0 <= s < r.value_offs@.len() ==> #[trigger] r.value_offs@[s] < 0xFF00_0200,
        r.assigned@[0],
        r.index@[0] == 0,
        forall|c: int| 0 <= c < nodes.n() ==> (#[trigger] r.assigned@[c] ==> r.index@[c] < r.value_offs@.len()),
        forall|c: int| 0 <= c < nodes.n() ==> (!#[trigger] r.assigned@[c] ==> r.index@[c] == 0),
        forall|c: int| 1 <= c < nodes.n() ==> (#[trigger] r.assigned@[c] ==> r.index@[c] >= 1),
        forall|c1: int, c2: int|
            0 <= c1 < nodes.n() && 0 <= c2 < nodes.n() && c1 != c2 && r.assigned@[c1] && r.assigned@[c2]
                ==> #[trigger] r.index@[c1] != #[trigger] r.index@[c2],
        forall|c: int|
            1 <= c < nodes.n() && #[trigger] r.assigned@[c] ==> r.assigned@[nodes.parent@[c] as int]
                && r.index@[c] == r.value_offs@[r.index@[nodes.parent@[c] as int] as int] + nodes.label@[c],
        (forall|c: int| 0 <= c < nodes.n() ==> #[trigger] nodes.alive@[c]) ==> forall|c: int|
            0 <= c < nodes.n() ==> #[trigger] r.assigned@[c],
{
    let n = nodes.parent.len();
    let mut index: Vec<usize> = Vec::new();
    let mut assigned: Vec<bool> = Vec::new();
    let mut f: usize = 0;
    while f < n
        invariant
            f <= n,
            n == nodes.n(),
            index@.len() == f,
            assigned@.len() == f,
            forall|c: int| 0 <= c < f ==> #[trigger] index@[c] == 0,
            forall|c: int| 0 <= c < f ==> !#[trigger] assigned@[c],
        decreases n - f,
    {
        index.push(0);
        assigned.push(false);
        f = f + 1;
    }
    assigned.set(0, true);
    let mut used: Vec<bool> = vec![true];
    let mut value_offs: Vec<u64> = vec![0u64];
    let mut queue: Vec<usize> = vec![0usize];
    let mut head: usize = 0;
    assert(assigned@[0]);
    proof {
        assert forall|c: int| 0 <= c < n && #[trigger] assigned@[c] implies exists|q: int| 0 <= q < queue@.len() && queue@[q] == c by {
            assert(c == 0);
            assert(queue@[0] == 0);
        }
    }
    while head < queue.len()
        invariant
            nodes.shaped(),
            n == nodes.n(),
            index@.len() == n,
            assigned@.len() == n,
            used@.len() == value_offs@.len(),
            used@.len() >= 1,
            used@[0],
            assigned@[0],
            index@[0] == 0,
            forall|c: int| 0 <= c < n ==> (#[trigger] assigned@[c] ==> index@[c] < used@.len() && used@[index@[c] as int]),
            forall|c: int| 0 <= c < n ==> (!#[trigger] assigned@[c] ==> index@[c] == 0),
            forall|c: int| 1 <= c < n ==> (#[trigger] assigned@[c] ==> index@[c] >= 1),
            forall|c1: int, c2: int|
                0 <= c1 < n && 0 <= c2 < n && c1 != c2 && assigned@[c1] && assigned@[c2] ==> #[trigger] index@[c1]
                    != #[trigger] index@[c2],
            head <= queue@.len(),
            queue@.len() <= n,
            n <= 0xFF_0000,
            used@.len() <= 256 * head + 512,
            forall|s: int| 0 <= s < value_offs@.len() ==> #[trigger] value_offs@[s] < 0xFF00_0200,
            queue@[0] == 0,
            queue@.no_duplicates(),
            forall|q: int| 0 <= q < queue@.len() ==> #[trigger] queue@[q] < n && assigned@[queue@[q] as int],
            forall|c: int| 0 <= c < n && #[trigger] assigned@[c] ==> exists|q: int| 0 <= q < queue@.len() && queue@[q] == c,
            forall|q: int, c: int|
                0 <= q < head && 1 <= c < n && nodes.alive@[c] && nodes.parent@[c] == #[trigger] queue@[q]
                    ==> #[trigger] assigned@[c],
            forall|c: int| 1 <= c < n && #[trigger] assigned@[c] ==> exists|q: int| 0 <= q < head && queue@[q] == nodes.parent@[c],
            forall|c: int|
                1 <= c < n && #[trigger] assigned@[c] ==> index@[c] == value_offs@[index@[nodes.parent@[c] as int] as int]
                    + nodes.label@[c],
        decreases 2 * n - head - queue@.len(),
    {
        let p = queue[head];
        let kids = nodes.children_of(p);
        proof {
            assert forall|q: int| 0 <= q < kids@.len() implies !assigned@[#[trigger] kids@[q] as int] by {
                let c = kids@[q] as int;
                if assigned@[c] {
                    let q0 = choose|q0: int| 0 <= q0 < head && queue@[q0] == nodes.parent@[c];
                    assert(queue@[q0] == queue@[head as int]);
                }
            }
        }
        if kids.len() > 0 {
            let min_char = nodes.label[kids[0]];
            let max_char = nodes.label[kids[kids.len() - 1]];
            proof {
                assert forall|q: int| 0 <= q < kids@.len() implies min_char <= nodes.label@[#[trigger] kids@[q] as int] <= max_char by {
                    if q > 0 {
                        assert(nodes.label@[kids@[0] as int] < nodes.label@[kids@[q] as int]);
                    }
                    if q < kids@.len() - 1 {
                        assert(nodes.label@[kids@[q] as int] < nodes.label@[kids@[kids@.len() - 1] as int]);
                    }
                }
            }
            let ghost top: int = if used@.len() > 256 { used@.len() as int } else { 256 };
            let mut min_slot: usize = min_char as usize + 1;
            loop
                invariant
                    1 <= min_slot <= top,
                    top == (if used@.len() > 256 { used@.len() as int } else { 256 }),
                    used@.len() <= 256 * head + 512,
                    head < n <= 0xFF_0000,
                    min_slot >= min_char as usize + 1,
                    nodes.shaped(),
                    forall|q: int| 0 <= q < kids@.len() ==> 1 <= #[trigger] kids@[q] < nodes.n()
                        && min_char <= nodes.label@[kids@[q] as int] <= max_char,
                ensures
                    1 <= min_slot <= top,
                    min_slot >= min_char as usize + 1,
                    forall|q: int| 0 <= q < kids@.len() ==> ({
                        let t = min_slot + (nodes.label@[#[trigger] kids@[q] as int] - min_char);
                        t >= used@.len() || !used@[t]
                    }),
                decreases top - min_slot,
            {
                let mut ok = true;
                let mut q: usize = 0;
                while q < kids.len()
                    invariant
                        q <= kids@.len(),
                        1 <= min_slot <= top,
                        top <= 256 * 0xFF_0000 + 512,
                        min_slot >= min_char as usize + 1,
                        nodes.shaped(),
                        forall|q2: int| 0 <= q2 < kids@.len() ==> 1 <= #[trigger] kids@[q2] < nodes.n()
                            && min_char <= nodes.label@[kids@[q2] as int] <= max_char,
                        ok ==> forall|q2: int| 0 <= q2 < q ==> ({
                            let t = min_slot + (nodes.label@[#[trigger] kids@[q2] as int] - min_char);
                            t >= used@.len() || !used@[t]
                        }),
                        !ok ==> min_slot < used@.len(),
                    decreases kids@.len() - q,
                {
                    let target = min_slot + (nodes.label[kids[q]] - min_char) as usize;
                    if target < used.len() && used[target] {
                        ok = false;
                    }
                    q = q + 1;
                }
                if ok {
                    break;
                }
                min_slot = min_slot + 1;
            }
            let max_needed = min_slot + (max_char - min_char) as usize;
            let ghost len0 = used@.len();
            let ghost used0 = used@;
            let ghost vpre = value_offs@;
            while used.len() <= max_needed
                invariant
                    used@.len() == value_offs@.len(),
                    used@.len() >= len0,
                    len0 == used0.len(),
                    forall|s: int| 0 <= s < len0 ==> #[trigger] used@[s] == used0[s],
                    forall|s: int| len0 <= s < used@.len() ==> !#[trigger] used@[s],
                    vpre.len() == len0,
                    forall|s: int| 0 <= s < len0 ==> #[trigger] value_offs@[s] == vpre[s],
                    forall|s: int| len0 <= s < value_offs@.len() ==> #[trigger] value_offs@[s] == 0,
                    used@.len() <= (if len0 > max_needed + 1 { len0 as int } else { max_needed + 1 }),
                decreases max_needed + 1 - used@.len(),
            {
                used.push(false);
                value_offs.push(0);
            }
            let base = min_slot - min_char as usize;
            let ghost ulen = used@.len();
            assert(ulen <= 256 * (head + 1) + 512);
            let ghost queue0 = queue@;
            let ghost vo0 = value_offs@;
            proof {
                assert forall|c: int| 1 <= c < n && #[trigger] assigned@[c] implies nodes.parent@[c] != p by {
                    if nodes.parent@[c] == p {
                        let q0 = choose|q0: int| 0 <= q0 < head && queue@[q0] == nodes.parent@[c];
                        assert(queue@[q0] == queue@[head as int]);
                    }
                }
                assert(queue@ =~= queue0 + kids@.take(0));
            }
            let mut q: usize = 0;
            while q < kids.len()
                invariant
                    nodes.shaped(),
                    n == nodes.n(),
                    index@.len() == n,
                    assigned@.len() == n,
                    used@.len() == value_offs@.len(),
                    used@.len() == ulen,
                    head < n,
                    n <= 0xFF_0000,
                    ulen <= 256 * (head + 1) + 512,
                    value_offs@ == vo0,
                    used@[0],
                    assigned@[0],
                    index@[0] == 0,
                    1 <= base,
                    base + max_char < used@.len(),
                    p == queue0[head as int],
                    head < queue0.len(),
                    p < n,
                    assigned@[p as int],
                    forall|q2: int| 0 <= q2 < kids@.len() ==> 1 <= #[trigger] kids@[q2] < n && nodes.alive@[kids@[q2] as int]
                        && nodes.parent@[kids@[q2] as int] == p && min_char <= nodes.label@[kids@[q2] as int] <= max_char,
                    forall|q1: int, q2: int|
                        0 <= q1 < q2 < kids@.len() ==> nodes.label@[kids@[q1] as int] < nodes.label@[kids@[q2] as int],
                    forall|q2: int| q <= q2 < kids@.len() ==> !assigned@[#[trigger] kids@[q2] as int]
                        && !used@[base + nodes.label@[kids@[q2] as int]],
                    forall|q2: int| 0 <= q2 < q ==> assigned@[#[trigger] kids@[q2] as int],
                    q <= kids@.len(),
                    forall|c: int| 0 <= c < n ==> (#[trigger] assigned@[c] ==> index@[c] < used@.len() && used@[index@[c] as int]),
                    forall|c: int| 0 <= c < n ==> (!#[trigger] assigned@[c] ==> index@[c] == 0),
                    forall|c: int| 1 <= c < n ==> (#[trigger] assigned@[c] ==> index@[c] >= 1),
                    forall|c1: int, c2: int|
                        0 <= c1 < n && 0 <= c2 < n && c1 != c2 && assigned@[c1] && assigned@[c2] ==> #[trigger] index@[c1]
                            != #[trigger] index@[c2],
                    queue@ == queue0 + kids@.take(q as int),
                    queue@.no_duplicates(),
                    forall|q2: int| 0 <= q2 < queue@.len() ==> #[trigger] queue@[q2] < n && assigned@[queue@[q2] as int],
                    forall|c: int| 0 <= c < n && #[trigger] assigned@[c] ==> exists|q2: int| 0 <= q2 < queue@.len() && queue@[q2] == c,
                    forall|q2: int, c: int|
                        0 <= q2 < head && 1 <= c < n && nodes.alive@[c] && nodes.parent@[c] == #[trigger] queue@[q2]
                            ==> #[trigger] assigned@[c],
                    forall|c: int| 1 <= c < n && #[trigger] assigned@[c] ==> exists|q2: int| 0 <= q2 <= head && queue@[q2] == nodes.parent@[c],
                    forall|c: int|
                        1 <= c < n && #[trigger] assigned@[c] && nodes.parent@[c] != p ==> index@[c] == value_offs@[index@[nodes.parent@[c] as int] as int]
                            + nodes.label@[c],
                    forall|c: int|
                        1 <= c < n && #[trigger] assigned@[c] && nodes.parent@[c] == p ==> index@[c] == base + nodes.label@[c],
                decreases kids@.len() - q,
            {
                let c = kids[q];
                assert(nodes.label@[c as int] <= max_char);
                let target = base + nodes.label[c] as usize;
                let ghost a0 = assigned@;
                let ghost i0 = index@;
                let ghost u0 = used@;
                let ghost qu0 = queue@;
                index.set(c, target);
                assigned.set(c, true);
                used.set(target, true);
                queue.push(c);
                proof {
                    assert forall|c1: int, c2: int|
                        0 <= c1 < n && 0 <= c2 < n && c1 != c2 && assigned@[c1] && assigned@[c2] implies #[trigger] index@[c1]
                            != #[trigger] index@[c2] by {
                        if c1 == c as int {
                            assert(u0[i0[c2] as int]);
                        } else if c2 == c as int {
                            assert(u0[i0[c1] as int]);
                        }
                    }
                    assert forall|q2: int| q + 1 <= q2 < kids@.len() implies !assigned@[#[trigger] kids@[q2] as int]
                        && !used@[base + nodes.label@[kids@[q2] as int]] by {
                        assert(nodes.label@[kids@[q as int] as int] < nodes.label@[kids@[q2] as int]);
                        assert(kids@[q2] != c);
                    }
                    assert(queue@ =~= queue0 + kids@.take(q + 1));
                    assert(queue@.no_duplicates()) by {
                        assert forall|x: int, y: int| 0 <= x < queue@.len() && 0 <= y < queue@.len() && x != y implies queue@[x] != queue@[y] by {
                            if x == queue@.len() - 1 {
                                assert(!a0[c as int]);
                                assert(a0[qu0[y] as int]);
                            } else if y == queue@.len() - 1 {
                                assert(!a0[c as int]);
                                assert(a0[qu0[x] as int]);
                            } else {
                                assert(qu0[x] != qu0[y]);
                            }
                        }
                    }
                    assert forall|c2: int| 0 <= c2 < n && #[trigger] assigned@[c2] implies exists|q2: int| 0 <= q2 < queue@.len() && queue@[q2] == c2 by {
                        if c2 == c as int {
                            assert(queue@[queue@.len() - 1] == c2);
                        } else {
                            let q3 = choose|q3: int| 0 <= q3 < qu0.len() && qu0[q3] == c2;
                            assert(queue@[q3] == c2);
                        }
                    }
                    assert forall|c2: int| 1 <= c2 < n && #[trigger] assigned@[c2] implies exists|q2: int| 0 <= q2 <= head && queue@[q2] == nodes.parent@[c2] by {
                        if c2 == c as int {
                            assert(queue@[head as int] == p);
                        } else {
                            let q3 = choose|q3: int| 0 <= q3 <= head && qu0[q3] == nodes.parent@[c2];
                            assert(queue@[q3] == qu0[q3]);
                        }
                    }
                    assert forall|q2: int, c2: int|
                        0 <= q2 < head && 1 <= c2 < n && nodes.alive@[c2] && nodes.parent@[c2] == #[trigger] queue@[q2]
                            implies #[trigger] assigned@[c2] by {
                        assert(queue@[q2] == qu0[q2]);
                    }
                }
                q = q + 1;
            }
            let ghost vo1 = value_offs@;
            let pslot = index[p];
            value_offs.set(pslot, base as u64);
            proof {
                assert forall|c: int|
                    1 <= c < n && #[trigger] assigned@[c] implies index@[c] == value_offs@[index@[nodes.parent@[c] as int] as int]
                        + nodes.label@[c] by {
                    let pc = nodes.parent@[c] as int;
                    let q3 = choose|q3: int| 0 <= q3 <= head && queue@[q3] == pc;
                    assert(assigned@[pc]);
                    if pc != p as int {
                        assert(index@[pc] != index@[p as int]);
                    }
                }
                assert forall|q2: int, c: int|
                    0 <= q2 < head + 1 && 1 <= c < n && nodes.alive@[c] && nodes.parent@[c] == #[trigger] queue@[q2]
                        implies #[trigger] assigned@[c] by {
                    if q2 == head {
                        assert(queue@[head as int] == p);
                        assert(nodes.parent@[c] == p);
                        assert(exists|q3: int| 0 <= q3 < kids@.len() && kids@[q3] == c);
                        let q3 = choose|q3: int| 0 <= q3 < kids@.len() && kids@[q3] == c;
                        assert(assigned@[kids@[q3] as int]);
                    } else {
                        assert(queue@[q2] == queue0[q2]);
                    }
                }
                lemma_distinct_bounded(queue@, n as nat);
            }
        } else {
            proof {
                assert forall|q2: int, c: int|
                    0 <= q2 < head + 1 && 1 <= c < n && nodes.alive@[c] && nodes.parent@[c] == #[trigger] queue@[q2]
                        implies #[trigger] assigned@[c] by {
                    if q2 == head {
                        assert(queue@[q2] == p);
                        assert(nodes.parent@[c] == p);
                        assert(exists|q3: int| 0 <= q3 < kids@.len() && kids@[q3] == c);
                        assert(false);
                    }
                }
            }
        }
        head = head + 1;
    }
    proof {
        if forall|c: int| 0 <= c < n ==> #[trigger] nodes.alive@[c] {
            assert forall|c: int| 0 <= c < n implies #[trigger] assigned@[c] by {
                lemma_reach(nodes, assigned@, queue@, c);
            }
        }
    }
    Slots { index, value_offs, assigned }
}

/// Walking up from a node's slot spells its path and reaches the root.
proof fn lemma_decode(
    nodes: &Nodes,
    index: Seq<usize>,
    base: Seq<u64>,
    tree: Seq<u64>,
    vo: Seq<u64>,
    c: int,
)
    requires
        nodes.shaped(),
        0 <= c < nodes.n(),
        index.len() == nodes.n(),
        index[0] == 0,
        tree.len() == vo.len(),
        base.len() == vo.len(),
        forall|d: int| 0 <= d < nodes.n() ==> #[trigger] index[d] < tree.len(),
        forall|d: int| 1 <= d < nodes.n() ==> #[trigger] index[d] >= 1,
        tree[0] == 0,
        forall|d: int| 1 <= d < nodes.n() ==> #[trigger] tree[index[d] as int] == index[nodes.parent@[d] as int],
        forall|d: int|
            1 <= d < nodes.n() ==> #[trigger] index[d] == base[index[nodes.parent@[d] as int] as int] + nodes.label@[d],
        forall|d: int| 0 <= d < nodes.n() && #[trigger] nodes.terminal@[d] is None ==> vo[index[d] as int] == base[index[d] as int],
        forall|d: int| 1 <= d < nodes.n() ==> #[trigger] nodes.terminal@[nodes.parent@[d] as int] is None,
    ensures
        chain_ok(tree, index[c] as u64, depth(nodes.parent@, c)),
        chain_bytes(tree, vo, index[c] as u64, depth(nodes.parent@, c)) == nodes.path_of(c),
    decreases c,
{
    if c > 0 {
        let pc = nodes.parent@[c] as int;
        lemma_decode(nodes, index, base, tree, vo, pc);
        let cur = index[c] as u64;
        assert(get_or0(tree, cur) == index[pc] as u64);
        assert(nodes.terminal@[pc] is None);
        assert(get_or0(vo, index[pc] as u64) == base[index[pc] as int]);
        assert(cur.wrapping_sub(get_or0(vo, index[pc] as u64)) == nodes.label@[c] as u64);
    }
}

/// Any two fuel amounts after which the chain has reached the root spell the same bytes.
pub proof fn lemma_chain_fuel(tree: Seq<u64>, vo: Seq<u64>, cur: u64, k1: nat, k2: nat)
    requires
        chain_ok(tree, cur, k1),
        chain_ok(tree, cur, k2),
    ensures
        chain_bytes(tree, vo, cur, k1) == chain_bytes(tree, vo, cur, k2),
    decreases k1,
{
    if cur != 0 {
        lemma_chain_fuel(tree, vo, get_or0(tree, cur), (k1 - 1) as nat, (k2 - 1) as nat);
    }
}

/// A reader takes from a trie that spells `b` the text of each name's bytes
/// (as `String::from_utf8_lossy` reads them).
pub proof fn lemma_trie_names_read(t: TrieArrays, b: Seq<Seq<u8>>, j: int)
    requires
        spells(t, b),
        0 <= j < b.len(),
    ensures
        trie_name(t.value_offsets, t.tree, t.tails[j]) == utf8_lossy(b[j]),
{
    assert(spells_name(t, j, b[j]));
    let start = get_or0(t.tree, t.tails[j]);
    let k = choose|k: nat| chain_ok(t.tree, start, k) && chain_bytes(t.tree, t.value_offsets, start, k) == b[j];
    let f = chain_fuel(t.tree, start);
    assert(chain_ok(t.tree, start, f));
    lemma_chain_fuel(t.tree, t.value_offsets, start, k, f);
}

/// `n` zeros.
fn zero_words(n: usize) -> (v: Vec<u64>)
    ensures
        v@.len() == n,
        forall|i: int| 0 <= i < n ==> #[trigger] v@[i] == 0,
{
    let mut v: Vec<u64> = Vec::new();
    while v.len() < n
        invariant
            v@.len() <= n,
            forall|i: int| 0 <= i < v@.len() ==> #[trigger] v@[i] == 0,
        decreases n - v@.len(),
    {
        v.push(0);
    }
    v
}

impl KeyNamesTrie {
    pub open spec fn arrays(&self) -> TrieArrays {
        TrieArrays { value_offsets: self.value_offsets@, tree: self.tree@, tails: self.tails@ }
    }

    /// The trie of `sorted_names`; its tails follow the order of the names.
    pub fn build(sorted_names: &[String]) -> (t: Self)
        requires
            trie_fits(name_bytes(sorted_names@)),
        ensures
            t.tails@.len() == sorted_names@.len(),
            t.tree@.len() == t.value_offsets@.len(),
            t.tree@.len() >= 1,
            trie_words_fit(t.arrays()),
            trie_ready(name_bytes(sorted_names@)) ==> spells(t.arrays(), name_bytes(sorted_names@)),
            sorted_names@.len() == 0 ==> (t.value_offsets@ == seq![0u64] && t.tree@ == seq![0u64]),
            forall|s: int| 0 <= s < t.tree@.len() ==> #[trigger] t.tree@[s] < t.tree@.len(),
            forall|j: int| 0 <= j < t.tails@.len() ==> #[trigger] t.tails@[j] < t.tree@.len(),
            trie_ready(name_bytes(sorted_names@)) ==> t.tree@[0] == 0,
            trie_ready(name_bytes(sorted_names@)) ==> forall|j: int|
                0 <= j < t.tails@.len() ==> #[trigger] t.tails@[j] >= 1 && t.value_offsets@[t.tails@[j] as int] == j,
            trie_ready(name_bytes(sorted_names@)) ==> forall|i: int, j: int|
                0 <= i < j < t.tails@.len() ==> #[trigger] t.tails@[i] != #[trigger] t.tails@[j],
    {
        if sorted_names.len() == 0 {
            let t = KeyNamesTrie { value_offsets: vec![0u64], tree: vec![0u64], tails: Vec::new() };
            return t;
        }
        let ghost b = name_bytes(sorted_names@);
        let ghost rdy = trie_ready(b);
        let (nodes, Ghost(tn)) = insert_names(sorted_names);
        let slots = assign_slots(&nodes);
        let n = slots.value_offs.len();
        let mut tree = zero_words(n);
        let mut value_offsets = zero_words(n);
        let mut tails = zero_words(sorted_names.len());
        let ghost all = forall|c: int| 0 <= c < nodes.n() ==> #[trigger] slots.assigned@[c];
        assert(rdy ==> all);
        proof {
            lemma_total_len_count(b);
        }
        let mut i: usize = 0;
        while i < nodes.parent.len()
            invariant
                nodes.shaped(),
                i <= nodes.n(),
                b == name_bytes(sorted_names@),
                rdy == trie_ready(b),
                all == forall|c: int| 0 <= c < nodes.n() ==> #[trigger] slots.assigned@[c],
                rdy ==> all,
                n == slots.value_offs@.len(),
                n >= 1,
                forall|c: int| 1 <= c < nodes.n() ==> (#[trigger] slots.assigned@[c] ==> slots.index@[c] >= 1),
                forall|c: int|
                    1 <= c < nodes.n() && #[trigger] slots.assigned@[c] ==> slots.index@[c]
                        == slots.value_offs@[slots.index@[nodes.parent@[c] as int] as int] + nodes.label@[c],
                rdy ==> forall|j: int|
                    0 <= j < sorted_names@.len() ==> nodes.path_of(nodes.parent@[#[trigger] tn[j]] as int)
                        == b[j],
                rdy ==> forall|c: int| 1 <= c < nodes.n() ==> #[trigger] nodes.terminal@[nodes.parent@[c] as int] is None,
                tree@.len() == n,
                value_offsets@.len() == n,
                tails@.len() == sorted_names@.len(),
                sorted_names@.len() <= usize::MAX,
                sorted_names@.len() < 0xFF_0000,
                n <= 0xFF00_0200,
                forall|s: int| 0 <= s < n ==> #[trigger] slots.value_offs@[s] < 0xFF00_0200,
                forall|s: int| 0 <= s < n ==> #[trigger] tree@[s] < n,
                forall|s: int| 0 <= s < n ==> #[trigger] value_offsets@[s] < 0xFF00_0200,
                forall|j: int| 0 <= j < sorted_names@.len() ==> #[trigger] tails@[j] < n,
                slots.index@.len() == nodes.n(),
                slots.assigned@.len() == nodes.n(),
                slots.index@[0] == 0,
                slots.assigned@[0],
                tn.len() == sorted_names@.len(),
                forall|c: int| 0 <= c < nodes.n() ==> (#[trigger] slots.assigned@[c] ==> slots.index@[c] < n),
                forall|c: int| 0 <= c < nodes.n() ==> (!#[trigger] slots.assigned@[c] ==> slots.index@[c] == 0),
                forall|c1: int, c2: int|
                    0 <= c1 < nodes.n() && 0 <= c2 < nodes.n() && c1 != c2 && slots.assigned@[c1] && slots.assigned@[c2]
                        ==> #[trigger] slots.index@[c1] != #[trigger] slots.index@[c2],
                forall|j: int|
                    0 <= j < sorted_names@.len() ==> 1 <= #[trigger] tn[j] < nodes.n() && nodes.terminal@[tn[j]]
                        == Some(j as usize),
                forall|c: int|
                    0 <= c < nodes.n() ==> (#[trigger] nodes.terminal@[c] matches Some(j) ==> j < sorted_names@.len()
                        && tn[j as int] == c),
                all ==> tree@[0] == 0 || i == 0,
                all ==> forall|c: int|
                    1 <= c < i ==> #[trigger] tree@[slots.index@[c] as int] == slots.index@[nodes.parent@[c] as int],
                all ==> forall|c: int|
                    0 <= c < i && #[trigger] nodes.terminal@[c] is None ==> value_offsets@[slots.index@[c] as int]
                        == slots.value_offs@[slots.index@[c] as int],
                all ==> forall|j: int|
                    0 <= j < sorted_names@.len() && #[trigger] tn[j] < i ==> tails@[j] == slots.index@[tn[j]],
                all ==> forall|j: int|
                    0 <= j < sorted_names@.len() && #[trigger] tn[j] < i ==> value_offsets@[slots.index@[tn[j]] as int] == j,
            decreases nodes.n() - i,
        {
            let idx = slots.index[i];
            proof {
                if slots.assigned@[i as int] {
                } else {
                }
            }
            let parent_idx = if i == 0 {
                0
            } else {
                proof {
                    let pi = nodes.parent@[i as int] as int;
                    if slots.assigned@[pi] {
                    } else {
                    }
                }
                slots.index[nodes.parent[i]]
            };
            let ghost tails0 = tails@;
            let ghost tree0 = tree@;
            let ghost vo0 = value_offsets@;
            tree.set(idx, parent_idx as u64);
            assert(tree@ == tree0.update(idx as int, parent_idx as u64));
            match nodes.terminal[i] {
                Some(term) => {
                    tails.set(term, idx as u64);
                    value_offsets.set(idx, term as u64);
                    proof {
                        assert(nodes.terminal@[i as int] == Some(term));
                        assert(term < sorted_names@.len());
                        assert(tails@[term as int] == idx as u64);
                        assert(tn[term as int] == i as int);
                        assert forall|j: int| 0 <= j < sorted_names@.len() && j != term implies tails@[j] == tails0[j] by {}
                        assert forall|j: int| 0 <= j < sorted_names@.len() && tn[j] == i as int implies tails@[j] == idx as u64 by {
                            assert(nodes.terminal@[i as int] == Some(j as usize));
                            assert(j as usize == term);
                        }
                    }
                },
                None => {
                    value_offsets.set(idx, slots.value_offs[idx]);
                    proof {
                        assert forall|j: int| 0 <= j < sorted_names@.len() implies tn[j] != i as int by {
                            if tn[j] == i as int {
                                assert(nodes.terminal@[tn[j]] == Some(j as usize));
                            }
                        }
                    }
                },
            }
            proof {
                if all {
                    assert forall|c: int| 1 <= c < i + 1 implies #[trigger] tree@[slots.index@[c] as int]
                        == slots.index@[nodes.parent@[c] as int] by {
                        if c < i {
                            assert(slots.assigned@[c]);
                            assert(slots.index@[c] != slots.index@[i as int]);
                            assert(tree0[slots.index@[c] as int] == slots.index@[nodes.parent@[c] as int]);
                            assert(tree@[slots.index@[c] as int] == tree0[slots.index@[c] as int]);
                        } else {
                            assert(c == i);
                        }
                    }
                    assert forall|c: int|
                        0 <= c < i + 1 && #[trigger] nodes.terminal@[c] is None implies value_offsets@[slots.index@[c] as int]
                            == slots.value_offs@[slots.index@[c] as int] by {
                        if c < i {
                            assert(slots.assigned@[c]);
                            assert(slots.index@[c] != slots.index@[i as int]);
                            assert(vo0[slots.index@[c] as int] == slots.value_offs@[slots.index@[c] as int]);
                            assert(value_offsets@[slots.index@[c] as int] == vo0[slots.index@[c] as int]);
                        }
                    }
                    assert forall|j: int|
                        0 <= j < sorted_names@.len() && #[trigger] tn[j] < i + 1 implies tails@[j] == slots.index@[tn[j]] by {
                        if tn[j] == i as int {
                            assert(tails@[j] == slots.index@[i as int]);
                        } else {
                            if nodes.terminal@[i as int] is Some {
                                let t = nodes.terminal@[i as int]->Some_0;
                                assert(tn[t as int] == i as int);
                                assert(t != j);
                            }
                            assert(tails@[j] == tails0[j]);
                        }
                    }
                    if i > 0 {
                        assert(slots.index@[i as int] != slots.index@[0]);
                    }
                    assert forall|j: int|
                        0 <= j < sorted_names@.len() && #[trigger] tn[j] < i + 1 implies value_offsets@[slots.index@[tn[j]] as int] == j by {
                        if tn[j] == i as int {
                            assert(nodes.terminal@[i as int] == Some(j as usize));
                        } else {
                            assert(slots.assigned@[tn[j]]);
                            assert(slots.index@[tn[j]] != slots.index@[i as int]);
                            assert(value_offsets@[slots.index@[tn[j]] as int] == vo0[slots.index@[tn[j]] as int]);
                        }
                    }
                }
            }
            i = i + 1;
        }
        let t = KeyNamesTrie { value_offsets, tree, tails };
        proof {
            assert(words_fit(t.tree@));
            assert(words_fit(t.value_offsets@));
            assert(words_fit(t.tails@));
            if rdy {
                let ta = t.arrays();
                assert forall|j: int| 0 <= j < b.len() implies #[trigger] spells_name(ta, j, b[j]) by {
                    let e = nodes.parent@[tn[j]] as int;
                    assert forall|d: int| 1 <= d < nodes.n() implies #[trigger] slots.index@[d]
                        == slots.value_offs@[slots.index@[nodes.parent@[d] as int] as int] + nodes.label@[d] by {
                        assert(slots.assigned@[d]);
                    }
                    assert forall|d: int| 0 <= d < nodes.n() implies #[trigger] slots.index@[d] < t.tree@.len() by {
                        assert(slots.assigned@[d]);
                    }
                    assert(slots.assigned@[tn[j]]);
                    lemma_decode(&nodes, slots.index@, slots.value_offs@, t.tree@, t.value_offsets@, e);
                    assert(tn[j] < nodes.n());
                    assert(t.tails@[j] == slots.index@[tn[j]]);
                    assert(t.tree@[slots.index@[tn[j]] as int] == slots.index@[e]);
                    assert(get_or0(t.tree@, t.tails@[j]) == slots.index@[e] as u64);
                    assert(nodes.path_of(e) == b[j]);
                    let k = depth(nodes.parent@, e);
                    assert(chain_ok(ta.tree, get_or0(ta.tree, ta.tails[j]), k));
                    assert(chain_bytes(ta.tree, ta.value_offsets, get_or0(ta.tree, ta.tails[j]), k) == b[j]);
                }
                assert(t.arrays().tree == t.tree@);
                assert(t.arrays().tails == t.tails@);
                assert(t.arrays().value_offsets == t.value_offsets@);
                assert(t.tails@.len() == b.len());
                assert(ta.tails.len() == b.len());
                assert(spells(ta, b));
                assert forall|j: int| 0 <= j < t.tails@.len() implies #[trigger] t.tails@[j] >= 1
                    && t.value_offsets@[t.tails@[j] as int] == j by {
                    assert(slots.assigned@[tn[j]]);
                    assert(t.tails@[j] == slots.index@[tn[j]]);
                }
                assert forall|i1: int, j1: int| 0 <= i1 < j1 < t.tails@.len() implies #[trigger] t.tails@[i1]
                    != #[trigger] t.tails@[j1] by {
                    assert(slots.assigned@[tn[i1]]);
                    assert(slots.assigned@[tn[j1]]);
                    assert(nodes.terminal@[tn[i1]] == Some(i1 as usize));
                    assert(nodes.terminal@[tn[j1]] == Some(j1 as usize));
                    assert(tn[i1] != tn[j1]);
                }
            }
        }
        t
    }
}

} // verus!
