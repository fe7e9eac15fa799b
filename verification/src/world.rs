//! Replay of historical price series in the simulated world.
//!
//! Each item's history is replayed as a stationary circular series: the replay
//! starts at a random point and moves forward by a fixed stride every day,
//! wrapping around at the end.
use vstd::prelude::*;

use rand::RngExt;
use rand::rngs::StdRng;

verus! {

#[verifier::external_type_specification]
#[verifier::external_body]
pub struct ExStdRng(StdRng);

/// Draws a uniformly random index below `len` with rand's
/// `RngExt::random_range` over `0..len`. The contract states only that the
/// index is in range; which index comes out depends on the generator's state.
#[verifier::external_body]
fn random_index(rng: &mut StdRng, len: usize) -> (index: usize)
    requires
        len > 0,
    ensures
        index < len,
{
    rng.random_range(0..len)
}

/// A position in a circular series of `len` points that advances by `stride`.
pub struct SeriesCursor {
    len: usize,
    cursor: usize,
    stride: usize,
}

/// The stride that replays `len` points over `days` days: one day moves
/// `len / days` points (with `days` at least 1), and at least one point.
pub open spec fn replay_stride(len: nat, days: nat) -> nat {
    let per_day = len / (if days == 0 { 1 } else { days });
    if per_day == 0 { 1 } else { per_day }
}

impl SeriesCursor {
    /// The number of points in the series.
    pub closed spec fn series_len(&self) -> nat {
        self.len as nat
    }

    /// The current position.
    pub closed spec fn at(&self) -> nat {
        self.cursor as nat
    }

    /// How far one step moves.
    pub closed spec fn step(&self) -> nat {
        self.stride as nat
    }

    /// The cursor points into a nonempty series and moves forward.
    pub closed spec fn wf(&self) -> bool {
        &&& self.len > 0
        &&& self.cursor < self.len
        &&& self.stride >= 1
    }

    /// A cursor at a random point of a series of `len` points replayed over
    /// `days` days.
    pub fn start(len: usize, days: u32, rng: &mut StdRng) -> (cursor: Self)
        requires
            len > 0,
        ensures
            cursor.wf(),
            cursor.series_len() == len,
            cursor.at() < len,
            cursor.step() == replay_stride(len as nat, days as nat),
    {
        let cursor = random_index(rng, len);
        let days = if days == 0 { 1 } else { days as usize };
        let per_day = len / days;
        let stride = if per_day == 0 { 1 } else { per_day };
        SeriesCursor { len, cursor, stride }
    }

    /// The index of the current point.
    pub fn position(&self) -> (position: usize)
        ensures
            position == self.at(),
    {
        self.cursor
    }

    /// Moves one day forward, wrapping around at the end of the series.
    pub fn advance(&mut self)
        requires
            old(self).wf(),
        ensures
            final(self).wf(),
            final(self).series_len() == old(self).series_len(),
            final(self).step() == old(self).step(),
            final(self).at() == (old(self).at() + old(self).step()) % old(self).series_len(),
    {
        let room = self.len - self.cursor;
        if self.stride % self.len < room {
            self.cursor = self.cursor + self.stride % self.len;
        } else {
            self.cursor = self.stride % self.len - room;
        }
        proof {
            let l = self.len as int;
            let c = old(self).cursor as int;
            let s = old(self).stride as int;
            vstd::arithmetic::div_mod::lemma_add_mod_noop(c, s, l);
            vstd::arithmetic::div_mod::lemma_small_mod(c as nat, l as nat);
            vstd::arithmetic::div_mod::lemma_mod_bound(s, l);
            if s % l < l - c {
                vstd::arithmetic::div_mod::lemma_small_mod((c + s % l) as nat, l as nat);
            } else {
                vstd::arithmetic::div_mod::lemma_mod_sub_multiples_vanish(c + s % l, l);
                vstd::arithmetic::div_mod::lemma_small_mod((c + s % l - l) as nat, l as nat);
            }
        }
    }
}

/// Where the replay stands after `days` steps from position `at`.
pub open spec fn position_after(at: nat, stride: nat, len: nat, days: nat) -> nat {
    (at + days * stride) % len
}

/// The replay is circular: after as many steps as the series has points it is
/// back where it started.
pub proof fn law_replay_is_circular(at: nat, stride: nat, len: nat)
    requires
        at < len,
    ensures
        position_after(at, stride, len, len) == at,
{
    vstd::arithmetic::div_mod::lemma_mod_multiples_vanish(stride as int, at as int, len as int);
    vstd::arithmetic::mul::lemma_mul_is_commutative(len as int, stride as int);
    vstd::arithmetic::div_mod::lemma_small_mod(at, len);
}

} // verus!
