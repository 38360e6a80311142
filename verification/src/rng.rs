//! The xorshift64 random source behind `rand`, `randint`, `choice` and `shuffle`.
use vstd::prelude::*;

verus! {

/// Seed used when the clock reading gives no usable bits.
pub const SEED_FALLBACK: u64 = 0x9e37_79b9_7f4a_7c15u64;

/// One xorshift64 step (shifts 13, 7, 17).
pub open spec fn xorshift(s: u64) -> u64 {
    let a = s ^ (s << 13u64);
    let b = a ^ (a >> 7u64);
    b ^ (b << 17u64)
}

/// The seed taken from the bit pattern of a clock reading.
pub open spec fn seed_of(now_bits: u64) -> u64 {
    if now_bits == 0 {
        SEED_FALLBACK
    } else {
        now_bits
    }
}

/// The state after one draw from `state`; an unseeded state (0) is first seeded
/// from `now_bits`.
pub open spec fn advance(state: u64, now_bits: u64) -> u64 {
    xorshift(if state == 0 { seed_of(now_bits) } else { state })
}

/// The integer in `[min(lo, hi), max(lo, hi)]` that the draw `r` selects.
pub open spec fn pick_in_range(lo: i64, hi: i64, r: u64) -> int {
    let mn: int = if lo <= hi { lo as int } else { hi as int };
    let mx: int = if lo <= hi { hi as int } else { lo as int };
    mn + (r as int) % (mx - mn + 1)
}

/// `s` with the elements at `i` and `j` exchanged.
pub open spec fn swapped<T>(s: Seq<T>, i: int, j: int) -> Seq<T> {
    s.update(i, s[j]).update(j, s[i])
}

/// Fisher–Yates from position `i` down to 1: each step draws from the state and
/// swaps position `i` with the drawn position in `0..=i`. Gives the final order and state.
pub open spec fn shuffle_steps<T>(s: Seq<T>, state: u64, now_bits: u64, i: int) -> (Seq<T>, u64)
    decreases i,
{
    if i <= 0 || i >= s.len() {
        (s, state)
    } else {
        let st = advance(state, now_bits);
        let j = (st as int) % (i + 1);
        shuffle_steps(swapped(s, i, j), st, now_bits, i - 1)
    }
}

/// Exchanges two elements of a vector (std `<[T]>::swap`).
#[verifier::external_body]
fn swap_items<T>(v: &mut Vec<T>, i: usize, j: usize)
    requires
        i < old(v)@.len(),
        j < old(v)@.len(),
    ensures
        final(v)@ == swapped(old(v)@, i as int, j as int),
{
    v.swap(i, j);
}

/// A xorshift64 generator; state 0 means "not yet seeded".
pub struct Rng {
    state: u64,
}

impl Rng {
    /// The generator's current state.
    pub closed spec fn state(&self) -> u64 {
        self.state
    }

    /// An unseeded generator.
    pub fn new() -> (r: Rng)
        ensures
            r.state() == 0,
    {
        Rng { state: 0 }
    }

    /// A generator that starts from `state`.
    pub fn from_state(state: u64) -> (r: Rng)
        ensures
            r.state() == state,
    {
        Rng { state }
    }

    /// Whether the generator still needs a clock reading to seed itself.
    pub fn is_unseeded(&self) -> (b: bool)
        ensures
            b == (self.state() == 0),
    {
        self.state == 0
    }

    /// Draws the next 64-bit value; an unseeded generator is first seeded from
    /// the bit pattern `now_bits` of the clock (or a fixed seed where it is 0).
    pub fn next_u64(&mut self, now_bits: u64) -> (r: u64)
        ensures
            r == advance(old(self).state(), now_bits),
            final(self).state() == r,
            r != 0,
    {
        if self.state == 0 {
            self.state = if now_bits == 0 { SEED_FALLBACK } else { now_bits };
        }
        let s = self.state;
        let a = s ^ (s << 13u64);
        let b = a ^ (a >> 7u64);
        let c = b ^ (b << 17u64);
        proof {
            lemma_xorshift_nonzero(s);
        }
        self.state = c;
        c
    }

    /// Draws the top 53 bits of the next value: the numerator of a uniform
    /// fraction in `[0, 1)` with denominator 2^53.
    pub fn next_unit_bits(&mut self, now_bits: u64) -> (r: u64)
        ensures
            r == advance(old(self).state(), now_bits) >> 11u64,
            r < 0x20_0000_0000_0000u64,
            final(self).state() == advance(old(self).state(), now_bits),
    {
        let x = self.next_u64(now_bits);
        assert(x >> 11u64 < 0x20_0000_0000_0000u64) by (bit_vector);
        x >> 11u64
    }

    /// Draws an integer between `lo` and `hi` inclusive (in either order).
    pub fn next_in_range(&mut self, lo: i64, hi: i64, now_bits: u64) -> (r: i64)
        ensures
            r == pick_in_range(lo, hi, advance(old(self).state(), now_bits)),
            lo <= hi ==> lo <= r <= hi,
            hi < lo ==> hi <= r <= lo,
            final(self).state() == advance(old(self).state(), now_bits),
    {
        let (mn, mx) = if lo <= hi { (lo, hi) } else { (hi, lo) };
        let x = self.next_u64(now_bits);
        let span: u128 = ((mx as i128) - (mn as i128)) as u128 + 1;
        let off: u128 = (x as u128) % span;
        let res: i128 = (mn as i128) + (off as i128);
        res as i64
    }

    /// Draws a position in `0..len`.
    pub fn next_index(&mut self, len: usize, now_bits: u64) -> (r: usize)
        requires
            len > 0,
        ensures
            r as int == (advance(old(self).state(), now_bits) as int) % (len as int),
            r < len,
            final(self).state() == advance(old(self).state(), now_bits),
    {
        let x = self.next_u64(now_bits);
        (x % (len as u64)) as usize
    }

    /// Shuffles `items` in place (Fisher–Yates, last position first).
    pub fn shuffle<T>(&mut self, items: &mut Vec<T>, now_bits: u64)
        ensures
            (final(items)@, final(self).state()) == shuffle_steps(
                old(items)@,
                old(self).state(),
                now_bits,
                old(items)@.len() - 1,
            ),
            final(items)@.to_multiset() == old(items)@.to_multiset(),
    {
        let n = items.len();
        if n < 2 {
            return;
        }
        let mut i: usize = n - 1;
        while i > 0
            invariant
                n == items@.len(),
                i < n,
                shuffle_steps(old(items)@, old(self).state(), now_bits, n - 1) == shuffle_steps(
                    items@,
                    self.state(),
                    now_bits,
                    i as int,
                ),
                items@.to_multiset() == old(items)@.to_multiset(),
            decreases i,
        {
            let x = self.next_u64(now_bits);
            let j = (x % ((i as u64) + 1)) as usize;
            let ghost before = items@;
            swap_items(items, i, j);
            proof {
                lemma_swapped_multiset(before, i as int, j as int);
            }
            i = i - 1;
        }
    }
}

/// A nonzero state never steps to zero: each xorshift step is invertible.
pub proof fn lemma_xorshift_nonzero(s: u64)
    requires
        s != 0,
    ensures
        xorshift(s) != 0,
{
    let a = s ^ (s << 13u64);
    let b = a ^ (a >> 7u64);
    let c = b ^ (b << 17u64);
    assert(s != 0 ==> s ^ (s << 13u64) != 0) by (bit_vector);
    assert(a != 0 ==> a ^ (a >> 7u64) != 0) by (bit_vector);
    assert(b != 0 ==> b ^ (b << 17u64) != 0) by (bit_vector);
}

/// Exchanging two elements keeps the multiset of elements.
pub proof fn lemma_swapped_multiset<T>(s: Seq<T>, i: int, j: int)
    requires
        0 <= i < s.len(),
        0 <= j < s.len(),
    ensures
        swapped(s, i, j).to_multiset() == s.to_multiset(),
{
    broadcast use vstd::seq_lib::to_multiset_update;
    broadcast use vstd::seq_lib::to_multiset_contains;
    broadcast use vstd::multiset::group_multiset_axioms;

    let s1 = s.update(i, s[j]);
    if i != j {
        assert(s1[j] == s[j]);
        assert(s1.to_multiset() == s.to_multiset().insert(s[j]).remove(s[i]));
        assert(s1.update(j, s[i]).to_multiset() == s1.to_multiset().insert(s[i]).remove(s[j]));
        let m = s.to_multiset();
        assert(s.contains(s[i]));
        assert(m.count(s[i]) > 0);
        assert(m.insert(s[j]).remove(s[i]).insert(s[i]).remove(s[j]) =~= m);
    } else {
        assert(swapped(s, i, j) =~= s);
    }
}

/// The state after `k` draws from `state`.
pub open spec fn advance_times(state: u64, now_bits: u64, k: nat) -> u64
    decreases k,
{
    if k == 0 {
        state
    } else {
        advance_times(advance(state, now_bits), now_bits, (k - 1) as nat)
    }
}

/// Shuffling from position `i` down takes exactly one draw per position `i`,
/// `i - 1`, ..., 1, and keeps the length.
pub proof fn lemma_shuffle_draws<T>(s: Seq<T>, state: u64, now_bits: u64, i: int)
    requires
        0 <= i < s.len(),
    ensures
        shuffle_steps(s, state, now_bits, i).1 == advance_times(state, now_bits, i as nat),
        shuffle_steps(s, state, now_bits, i).0.len() == s.len(),
    decreases i,
{
    if i > 0 {
        let st = advance(state, now_bits);
        let j = (st as int) % (i + 1);
        lemma_shuffle_draws(swapped(s, i, j), st, now_bits, i - 1);
    }
}

/// Shuffling two items exchanges them exactly when the draw is even, so both
/// orders can come out.
pub proof fn lemma_shuffle_two<T>(a: T, b: T, state: u64, now_bits: u64)
    ensures
        shuffle_steps(seq![a, b], state, now_bits, 1) == (
            if advance(state, now_bits) % 2 == 0 {
                seq![b, a]
            } else {
                seq![a, b]
            },
            advance(state, now_bits),
        ),
{
    let st = advance(state, now_bits);
    let j = (st as int) % 2;
    let s2 = swapped(seq![a, b], 1, j);
    assert(shuffle_steps(s2, st, now_bits, 0) == (s2, st));
    if j == 0 {
        assert(s2 =~= seq![b, a]);
    } else {
        assert(s2 =~= seq![a, b]);
    }
}

} // verus!
