//! The working set of regions, fixed at process start.
use vstd::prelude::*;

verus! {

/// The regions to ingest, each by name and id; no two share a name.
pub struct AppConfig {
    pub regions: Vec<(String, usize)>,
}

/// No two regions share a name.
pub open spec fn names_unique(regions: Seq<(String, usize)>) -> bool {
    forall|i: int, j: int|
        0 <= i < regions.len() && 0 <= j < regions.len() && i != j ==> (#[trigger] regions[i]).0@
            != (#[trigger] regions[j]).0@
}

impl AppConfig {
    /// Region names are unique.
    pub open spec fn wf(&self) -> bool {
        names_unique(self.regions@)
    }

    /// A configuration of the named regions, or `None` when two share a name.
    pub fn from_regions(regions: Vec<(String, usize)>) -> (r: Option<Self>)
        ensures
            names_unique(regions@) ==> (r matches Some(c) && c.regions@ == regions@ && c.wf()),
            !names_unique(regions@) ==> r is None,
    {
        let mut i: usize = 0;
        while i < regions.len()
            invariant
                i <= regions@.len(),
                forall|a: int, b: int|
                    0 <= a < i && 0 <= b < regions@.len() && a != b ==> (#[trigger] regions@[a]).0@
                        != (#[trigger] regions@[b]).0@,
            decreases regions@.len() - i,
        {
            let mut j: usize = 0;
            while j < regions.len()
                invariant
                    i < regions@.len(),
                    j <= regions@.len(),
                    forall|a: int, b: int|
                        0 <= a < i && 0 <= b < regions@.len() && a != b ==> (#[trigger] regions@[a]).0@
                            != (#[trigger] regions@[b]).0@,
                    forall|b: int|
                        0 <= b < j && b != i ==> regions@[i as int].0@ != (#[trigger] regions@[b]).0@,
                decreases regions@.len() - j,
            {
                if j != i && regions[i].0 == regions[j].0 {
                    return None;
                }
                j = j + 1;
            }
            i = i + 1;
        }
        Some(AppConfig { regions })
    }

    /// The region ids of the working set, in configuration order.
    pub fn region_ids(&self) -> (r: Vec<usize>)
        ensures
            r@.len() == self.regions@.len(),
            forall|i: int| 0 <= i < r@.len() ==> #[trigger] r@[i] == self.regions@[i].1,
    {
        let mut ids: Vec<usize> = Vec::new();
        let mut i: usize = 0;
        while i < self.regions.len()
            invariant
                i <= self.regions@.len(),
                ids@.len() == i,
                forall|k: int| 0 <= k < i ==> #[trigger] ids@[k] == self.regions@[k].1,
            decreases self.regions@.len() - i,
        {
            ids.push(self.regions[i].1);
            i = i + 1;
        }
        ids
    }
}

} // verus!
