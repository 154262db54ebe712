//! Which running session `oby probe` talks to.
use vstd::prelude::*;

verus! {

/// A session directory with a live control socket, and when it was last
/// modified.
#[derive(Debug, Clone)]
pub struct SessionCandidate {
    pub modified_secs: u64,
    pub modified_nanos: u32,
    pub path: String,
}

pub open spec fn newer(a: SessionCandidate, b: SessionCandidate) -> bool {
    a.modified_secs > b.modified_secs || (a.modified_secs == b.modified_secs && a.modified_nanos
        > b.modified_nanos)
}

/// The most recently modified candidate: no candidate is newer, and every
/// earlier one is older (the first of equally new ones wins).
pub fn newest_session(cands: &Vec<SessionCandidate>) -> (res: Option<usize>)
    ensures
        cands@.len() == 0 <==> res is None,
        res matches Some(i) ==> {
            &&& i < cands@.len()
            &&& forall|j: int| 0 <= j < cands@.len() ==> !newer(#[trigger] cands@[j], cands@[i as int])
            &&& forall|j: int| 0 <= j < i ==> newer(cands@[i as int], #[trigger] cands@[j])
        },
{
    if cands.len() == 0 {
        return None;
    }
    let mut best: usize = 0;
    let mut k: usize = 1;
    while k < cands.len()
        invariant
            0 < cands@.len(),
            best < k <= cands@.len(),
            forall|j: int| 0 <= j < k ==> !newer(#[trigger] cands@[j], cands@[best as int]),
            forall|j: int| 0 <= j < best ==> newer(cands@[best as int], #[trigger] cands@[j]),
        decreases cands.len() - k,
    {
        let c = &cands[k];
        let b = &cands[best];
        if c.modified_secs > b.modified_secs || (c.modified_secs == b.modified_secs && c.modified_nanos
            > b.modified_nanos) {
            best = k;
        }
        k += 1;
    }
    Some(best)
}

} // verus!
