//! Most-valuable-victim / least-valuable-attacker ordering bonuses for captures.
use vstd::prelude::*;

verus! {

/// Indexed by victim type, then attacker type: the victim's worth plus ten, less the
/// attacker's hundreds.
pub const MVV_LVA_SCORES: [[i16; 8]; 8] = [
    [0, 0, 0, 0, 0, 0, 0, 0],
    [0, 109, 108, 107, 106, 105, 104, 103],
    [0, 209, 208, 207, 206, 205, 204, 203],
    [0, 309, 308, 307, 306, 305, 304, 303],
    [0, 409, 408, 407, 406, 405, 404, 403],
    [0, 509, 508, 507, 506, 505, 504, 503],
    [0, 609, 608, 607, 606, 605, 604, 603],
    [0, 789, 788, 787, 786, 785, 784, 783],
];

/// Every bonus lies between 0 and 789.
pub proof fn lemma_mvv_lva_range(v: int, a: int)
    requires
        0 <= v < 8,
        0 <= a < 8,
    ensures
        0 <= MVV_LVA_SCORES[v][a] <= 789,
{
    let row = MVV_LVA_SCORES[v];
    assert(forall|i: int| 0 <= i < 8 ==> 0 <= #[trigger] row[i] <= 789) by {
        if v == 0 {
        } else if v == 1 {
        } else if v == 2 {
        } else if v == 3 {
        } else if v == 4 {
        } else if v == 5 {
        } else if v == 6 {
        } else {
        }
    }
}

} // verus!
