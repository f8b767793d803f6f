//! Mersenne Twister MT19937, seeded the way the M2 archive tooling seeds it
//! (`init_by_array`), with its output stream stated as spec functions.
use vstd::prelude::*;

verus! {

pub const N: usize = 624;

pub const M: usize = 397;

pub const MATRIX_A: u32 = 0x9908_b0df;

pub const UPPER_MASK: u32 = 0x8000_0000;

pub const LOWER_MASK: u32 = 0x7fff_ffff;

/// The recurrence that `init_genrand` uses to fill word `i` from word `i - 1`.
pub open spec fn genrand_next(prev: u32, i: int) -> u32 {
    1_812_433_253u32.wrapping_mul(prev ^ (prev >> 30u32)).wrapping_add(i as u32)
}

/// Word `i` of the state that `init_genrand(s)` produces.
pub open spec fn init_word(s: u32, i: nat) -> u32
    decreases i,
{
    if i == 0 {
        s
    } else {
        genrand_next(init_word(s, (i - 1) as nat), i as int)
    }
}

/// The whole state that `init_genrand(s)` produces.
pub open spec fn init_genrand_state(s: u32) -> Seq<u32> {
    Seq::new(N as nat, |i: int| init_word(s, i as nat))
}

/// State of the first mixing pass of `init_by_array`: words, `i`, `j`.
pub struct MixState {
    pub mt: Seq<u32>,
    pub i: int,
    pub j: int,
}

/// One step of the first mixing pass of `init_by_array`.
pub open spec fn mix_key_step(st: MixState, key: Seq<u32>) -> MixState {
    let prev = st.mt[st.i - 1];
    let w = (st.mt[st.i] ^ (prev ^ (prev >> 30u32)).wrapping_mul(1_664_525u32)).wrapping_add(
        key[st.j],
    ).wrapping_add(st.j as u32);
    let mt1 = st.mt.update(st.i, w);
    let i1 = st.i + 1;
    let j1 = st.j + 1;
    let (mt2, i2) = if i1 >= N {
        (mt1.update(0, mt1[N - 1]), 1int)
    } else {
        (mt1, i1)
    };
    let j2 = if j1 >= key.len() {
        0int
    } else {
        j1
    };
    MixState { mt: mt2, i: i2, j: j2 }
}

/// `k` steps of the first mixing pass.
pub open spec fn mix_key(st: MixState, key: Seq<u32>, k: nat) -> MixState
    decreases k,
{
    if k == 0 {
        st
    } else {
        mix_key_step(mix_key(st, key, (k - 1) as nat), key)
    }
}

/// One step of the second mixing pass of `init_by_array`: words and `i`.
pub open spec fn mix_fold_step(mt: Seq<u32>, i: int) -> (Seq<u32>, int) {
    let prev = mt[i - 1];
    let w = (mt[i] ^ (prev ^ (prev >> 30u32)).wrapping_mul(1_566_083_941u32)).wrapping_sub(
        i as u32,
    );
    let mt1 = mt.update(i, w);
    let i1 = i + 1;
    if i1 >= N {
        (mt1.update(0, mt1[N - 1]), 1int)
    } else {
        (mt1, i1)
    }
}

/// `k` steps of the second mixing pass.
pub open spec fn mix_fold(mt: Seq<u32>, i: int, k: nat) -> (Seq<u32>, int)
    decreases k,
{
    if k == 0 {
        (mt, i)
    } else {
        let (m, ii) = mix_fold(mt, i, (k - 1) as nat);
        mix_fold_step(m, ii)
    }
}

pub open spec fn max_nat(a: nat, b: nat) -> nat {
    if a >= b {
        a
    } else {
        b
    }
}

/// The state that `init_by_array(key)` produces.
pub open spec fn init_by_array_state(key: Seq<u32>) -> Seq<u32> {
    let first = mix_key(
        MixState { mt: init_genrand_state(19_650_218u32), i: 1, j: 0 },
        key,
        max_nat(N as nat, key.len()),
    );
    let second = mix_fold(first.mt, first.i, (N - 1) as nat);
    second.0.update(0, 0x8000_0000u32)
}

pub open spec fn mag01(y: u32) -> u32 {
    if y & 1u32 == 0 {
        0u32
    } else {
        MATRIX_A
    }
}

/// Regeneration of word `kk`, which reads the already regenerated words below it.
pub open spec fn twist_step(mt: Seq<u32>, kk: int) -> Seq<u32> {
    let y = (mt[kk] & UPPER_MASK) | (mt[(kk + 1) % (N as int)] & LOWER_MASK);
    mt.update(kk, mt[(kk + M) % (N as int)] ^ (y >> 1u32) ^ mag01(y))
}

/// Regeneration of the first `k` words.
pub open spec fn twist_prefix(mt: Seq<u32>, k: nat) -> Seq<u32>
    decreases k,
{
    if k == 0 {
        mt
    } else {
        twist_step(twist_prefix(mt, (k - 1) as nat), k - 1)
    }
}

/// Regeneration of the whole state, done when every word has been drawn.
pub open spec fn twist(mt: Seq<u32>) -> Seq<u32> {
    twist_prefix(mt, N as nat)
}

/// The tempering transform applied to each drawn word.
pub open spec fn temper(x: u32) -> u32 {
    let y1 = x ^ (x >> 11u32);
    let y2 = y1 ^ ((y1 << 7u32) & 0x9d2c_5680u32);
    let y3 = y2 ^ ((y2 << 15u32) & 0xefc6_0000u32);
    y3 ^ (y3 >> 18u32)
}

/// Words and position after a draw: an unseeded generator is first seeded
/// with 5489, as the reference implementation does; the state is then
/// regenerated when exhausted.
pub open spec fn refreshed(mt: Seq<u32>, mti: nat) -> (Seq<u32>, nat) {
    if mti == N + 1 {
        (twist(init_genrand_state(5489)), 0)
    } else if mti >= N {
        (twist(mt), 0)
    } else {
        (mt, mti)
    }
}

/// Generator state: `N` words and the index of the next word to draw.
pub struct MT19937 {
    mt: Vec<u32>,
    mti: usize,
}

impl View for MT19937 {
    type V = (Seq<u32>, nat);

    closed spec fn view(&self) -> (Seq<u32>, nat) {
        (self.mt@, self.mti as nat)
    }
}

impl MT19937 {
    #[verifier::type_invariant]
    spec fn well_formed(&self) -> bool {
        &&& self.mt@.len() == N
        &&& self.mti <= N + 1
    }

    /// An unseeded generator: all words zero, marked as not yet seeded.
    pub fn new() -> (g: Self)
        ensures
            g@.0 == Seq::new(N as nat, |i: int| 0u32),
            g@.1 == N + 1,
    {
        let mut mt: Vec<u32> = Vec::new();
        let mut k: usize = 0;
        while k < N
            invariant
                k <= N,
                mt@ == Seq::new(k as nat, |i: int| 0u32),
            decreases N - k,
        {
            mt.push(0);
            k = k + 1;
        }
        MT19937 { mt, mti: N + 1 }
    }

    /// Seeds the state from one word.
    pub fn init_genrand(&mut self, s: u32)
        ensures
            final(self)@.0 == init_genrand_state(s),
            final(self)@.1 == N,
    {
        proof {
            use_type_invariant(&*self);
        }
        let mut mt = Vec::new();
        mt.push(s);
        let mut i: usize = 1;
        while i < N
            invariant
                1 <= i <= N,
                mt@.len() == i,
                forall|k: int| 0 <= k < i ==> mt@[k] == init_word(s, k as nat),
            decreases N - i,
        {
            let prev = mt[i - 1];
            let w = 1_812_433_253u32.wrapping_mul(prev ^ (prev >> 30)).wrapping_add(i as u32);
            mt.push(w);
            i = i + 1;
        }
        assert(mt@ =~= init_genrand_state(s));
        self.mt = mt;
        self.mti = N;
    }

    /// Seeds the state from a key of one or more words.
    pub fn init_by_array(&mut self, init_key: &[u32])
        requires
            init_key@.len() > 0,
        ensures
            final(self)@.0 == init_by_array_state(init_key@),
            final(self)@.1 == N,
    {
        self.init_genrand(19_650_218);
        let mut mt: Vec<u32> = Vec::new();
        let mut z: usize = 0;
        while z < N
            invariant
                z <= N,
                self.mt@ == init_genrand_state(19_650_218u32),
                mt@ == self.mt@.subrange(0, z as int),
            decreases N - z,
        {
            mt.push(self.mt[z]);
            z = z + 1;
        }
        assert(mt@ =~= init_genrand_state(19_650_218u32));
        let ghost key = init_key@;
        let ghost start = MixState { mt: init_genrand_state(19_650_218u32), i: 1, j: 0 };
        let mut i: usize = 1;
        let mut j: usize = 0;
        let k = if N >= init_key.len() {
            N
        } else {
            init_key.len()
        };
        let mut c: usize = 0;
        while c < k
            invariant
                key == init_key@,
                key.len() > 0,
                k == max_nat(N as nat, key.len()),
                c <= k,
                1 <= i < N,
                j < key.len(),
                mt@.len() == N,
                mix_key(start, key, c as nat) == (MixState { mt: mt@, i: i as int, j: j as int }),
            decreases k - c,
        {
            let prev = mt[i - 1];
            let w = (mt[i] ^ (prev ^ (prev >> 30)).wrapping_mul(1_664_525)).wrapping_add(
                init_key[j],
            ).wrapping_add(j as u32);
            mt.set(i, w);
            i = i + 1;
            j = j + 1;
            if i >= N {
                let last = mt[N - 1];
                mt.set(0, last);
                i = 1;
            }
            if j >= init_key.len() {
                j = 0;
            }
            c = c + 1;
        }
        let ghost first = mix_key(start, key, k as nat);
        let mut c2: usize = 0;
        while c2 < N - 1
            invariant
                c2 <= N - 1,
                1 <= i < N,
                mt@.len() == N,
                mix_fold(first.mt, first.i, c2 as nat) == (mt@, i as int),
            decreases N - 1 - c2,
        {
            let prev = mt[i - 1];
            let w = (mt[i] ^ (prev ^ (prev >> 30)).wrapping_mul(1_566_083_941)).wrapping_sub(
                i as u32,
            );
            mt.set(i, w);
            i = i + 1;
            if i >= N {
                let last = mt[N - 1];
                mt.set(0, last);
                i = 1;
            }
            c2 = c2 + 1;
        }
        mt.set(0, 0x8000_0000);
        self.mt = mt;
        self.mti = N;
    }

    /// Draws the next tempered word, regenerating the state when it is exhausted.
    pub fn genrand_int32(&mut self) -> (y: u32)
        ensures
            ({
                let (mt, mti) = refreshed(old(self)@.0, old(self)@.1);
                &&& y == temper(mt[mti as int])
                &&& final(self)@ == (mt, mti + 1)
            }),
    {
        proof {
            use_type_invariant(&*self);
        }
        if self.mti == N + 1 {
            self.init_genrand(5489);
        }
        proof {
            use_type_invariant(&*self);
        }
        if self.mti >= N {
            let mut mt: Vec<u32> = self.mt.clone();
            let ghost orig = mt@;
            let mut kk: usize = 0;
            while kk < N
                invariant
                    kk <= N,
                    orig.len() == N,
                    mt@ == twist_prefix(orig, kk as nat),
                    mt@.len() == N,
                decreases N - kk,
            {
                let next = if kk + 1 < N {
                    kk + 1
                } else {
                    0
                };
                let far = if kk + M < N {
                    kk + M
                } else {
                    kk + M - N
                };
                let y = (mt[kk] & UPPER_MASK) | (mt[next] & LOWER_MASK);
                let mag = if y & 1 == 0 {
                    0u32
                } else {
                    MATRIX_A
                };
                let w = mt[far] ^ (y >> 1) ^ mag;
                mt.set(kk, w);
                kk = kk + 1;
            }
            self.mt = mt;
            self.mti = 0;
        }
        let mut y = self.mt[self.mti];
        self.mti = self.mti + 1;
        y = y ^ (y >> 11);
        y = y ^ ((y << 7) & 0x9d2c_5680);
        y = y ^ ((y << 15) & 0xefc6_0000);
        y = y ^ (y >> 18);
        y
    }
}

} // verus!
