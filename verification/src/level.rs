//! How high a node reaches.

use vstd::prelude::*;

verus! {

/// No node reaches higher.
pub const MAX_LEVEL: u8 = 16;

/// `f` turns any 53 random bits into a level, and the same bits into the same
/// level.
pub open spec fn samples<L: Fn(u64) -> usize>(f: L) -> bool {
    &&& forall|u: u64| u < 0x20_0000_0000_0000 ==> #[trigger] call_requires(f, (u,))
    &&& forall|u: u64, r1: usize, r2: usize|
        #[trigger] call_ensures(f, (u,), r1) && #[trigger] call_ensures(f, (u,), r2) ==> r1 == r2
}

/// The level that `f` makes of the bits `u`.
pub open spec fn level_at<L: Fn(u64) -> usize>(f: L, u: u64) -> nat {
    let r = choose|r: usize| call_ensures(f, (u,), r);
    if r > MAX_LEVEL {
        MAX_LEVEL as nat
    } else {
        r as nat
    }
}

/// `l` is what `f` makes of the bits `u`, or sixteen where that is lower.
pub open spec fn drawn<L: Fn(u64) -> usize>(f: L, u: u64, l: nat) -> bool {
    exists|r: usize| #[trigger]
        call_ensures(f, (u,), r) && l == if r < 16 {
            r as nat
        } else {
            16
        }
}

/// The level of a node that drew the bits `u`.
pub fn draw<L: Fn(u64) -> usize>(f: &L, u: u64) -> (l: u8)
    requires
        samples(*f),
        u < 0x20_0000_0000_0000,
    ensures
        l == level_at(*f, u),
        l <= MAX_LEVEL,
        drawn(*f, u, l as nat),
{
    let r = f(u);
    assert(call_ensures(*f, (u,), choose|r: usize| call_ensures(*f, (u,), r)));
    if r > MAX_LEVEL as usize {
        MAX_LEVEL
    } else {
        r as u8
    }
}

/// The level is the one that `f` makes of the bits, or sixteen where that is lower.
pub proof fn law_level<L: Fn(u64) -> usize>(f: L, u: u64, r: usize)
    requires
        samples(f),
        call_ensures(f, (u,), r),
    ensures
        level_at(f, u) == if r < 16 {
            r as nat
        } else {
            16
        },
{
    assert(call_ensures(f, (u,), choose|r: usize| call_ensures(f, (u,), r)));
}

} // verus!
