//! Boot-time memory-map selection: this core consumes exactly the single
//! largest usable physical region the boot loader reports.

use vstd::prelude::*;

verus! {

/// One region of the boot-time memory map, as plain values.
#[derive(Clone, Copy, PartialEq, Eq, Structural)]
pub struct MemRegion {
    pub start: u64,
    pub end: u64,
    pub usable: bool,
}

pub open spec fn region_len(r: MemRegion) -> int {
    r.end - r.start
}

/// Pick the usable region spanning the most bytes; `None` exactly when no
/// region is usable.  Ties keep the earliest listed region, as a maximum
/// scan does.
pub fn largest_usable_region(regions: &Vec<MemRegion>) -> (r: Option<MemRegion>)
    requires
        forall|i: int| 0 <= i < regions@.len() ==> (#[trigger] regions@[i]).end >= regions@[i].start,
    ensures
        match r {
            Some(best) => {
                &&& best.usable
                &&& exists|i: int| 0 <= i < regions@.len() && regions@[i] == best
                &&& forall|i: int|
                    0 <= i < regions@.len() && (#[trigger] regions@[i]).usable ==> region_len(
                        regions@[i],
                    ) <= region_len(best)
            },
            None => forall|i: int| 0 <= i < regions@.len() ==> !(#[trigger] regions@[i]).usable,
        },
{
    let mut best: Option<MemRegion> = None;
    let mut i: usize = 0;
    while i < regions.len()
        invariant
            i <= regions@.len(),
            forall|j: int|
                0 <= j < regions@.len() ==> (#[trigger] regions@[j]).end >= regions@[j].start,
            match best {
                Some(b) => {
                    &&& b.usable
                    &&& b.end >= b.start
                    &&& exists|j: int| 0 <= j < i && regions@[j] == b
                    &&& forall|j: int|
                        0 <= j < i && (#[trigger] regions@[j]).usable ==> region_len(regions@[j])
                            <= region_len(b)
                },
                None => forall|j: int| 0 <= j < i ==> !(#[trigger] regions@[j]).usable,
            },
        decreases regions@.len() - i,
    {
        let cand = regions[i];
        if cand.usable {
            let take = match best {
                Some(b) => cand.end - cand.start > b.end - b.start,
                None => true,
            };
            if take {
                best = Some(cand);
            }
        }
        i = i + 1;
    }
    best
}

} // verus!
