//! The visited-directory set and the wave boundary of the convergence
//! loop.
//!
//! The frontier holds directories discovered but not yet scanned; the
//! visited set holds every canonical directory path ever scanned or
//! enqueued, and only grows. At each wave boundary the loop takes the
//! frontier, keeps each not-yet-visited directory exactly once, and marks
//! it visited — so a directory reached twice, through a symlink cycle or an
//! alias, is scanned once, and the loop converges on any finite tree.

use vstd::prelude::*;

use crate::index::bytes_eq;
use crate::index::paths_view;

verus! {

/// Canonical directory paths already scanned or enqueued. Grows
/// monotonically for the run's lifetime.
pub struct VisitedDirs {
    dirs: Vec<Vec<u8>>,
}

impl View for VisitedDirs {
    type V = Set<Seq<u8>>;

    /// The set of visited canonical paths.
    closed spec fn view(&self) -> Set<Seq<u8>> {
        Set::new(
            |p: Seq<u8>|
                exists|k: int| 0 <= k < self.dirs@.len() && (#[trigger] self.dirs@[k])@ == p,
        )
    }
}

impl VisitedDirs {
    /// Nothing visited yet.
    pub fn new() -> (r: VisitedDirs)
        ensures
            r@ == Set::<Seq<u8>>::empty(),
    {
        let r = VisitedDirs { dirs: Vec::new() };
        proof {
            assert(r@ =~= Set::<Seq<u8>>::empty());
        }
        r
    }

    /// Whether this path was already visited.
    pub fn contains(&self, path: &Vec<u8>) -> (r: bool)
        ensures
            r == self@.contains(path@),
    {
        let mut k: usize = 0;
        while k < self.dirs.len()
            invariant
                k <= self.dirs@.len(),
                forall|j: int| 0 <= j < k ==> (#[trigger] self.dirs@[j])@ != path@,
            decreases self.dirs@.len() - k,
        {
            if bytes_eq(&self.dirs[k], path) {
                return true;
            }
            k = k + 1;
        }
        false
    }

    /// Mark one path visited.
    pub fn insert(&mut self, path: Vec<u8>)
        ensures
            final(self)@ == old(self)@.insert(path@),
    {
        let ghost pv = path@;
        self.dirs.push(path);
        proof {
            assert forall|p: Seq<u8>| final(self)@.contains(p) <==> old(self)@.insert(
                pv,
            ).contains(p) by {
                if final(self)@.contains(p) {
                    let k = choose|k: int|
                        0 <= k < self.dirs@.len() && (#[trigger] self.dirs@[k])@ == p;
                    if k < self.dirs@.len() - 1 {
                        assert((old(self).dirs@[k])@ == p);
                    }
                }
                if old(self)@.contains(p) {
                    let k = choose|k: int|
                        0 <= k < old(self).dirs@.len() && (#[trigger] old(self).dirs@[k])@ == p;
                    assert((self.dirs@[k])@ == p);
                }
                if p == pv {
                    assert((self.dirs@[self.dirs@.len() - 1])@ == p);
                }
            }
            assert(final(self)@ =~= old(self)@.insert(pv));
        }
    }
}

/// One wave boundary: take the frontier just swapped out, keep each
/// directory not yet visited — exactly once, however often the frontier
/// repeats it — and mark the whole frontier visited.
pub fn plan_wave(visited: &mut VisitedDirs, frontier: &Vec<Vec<u8>>) -> (to_scan: Vec<Vec<u8>>)
    ensures
        forall|p: Seq<u8>|
            #[trigger] paths_view(to_scan@).contains(p) <==> paths_view(frontier@).contains(p)
                && !old(visited)@.contains(p),
        forall|k1: int, k2: int|
            0 <= k1 < k2 < to_scan@.len() ==> (to_scan@[k1])@ != (to_scan@[k2])@,
        forall|p: Seq<u8>|
            #[trigger] final(visited)@.contains(p) <==> old(visited)@.contains(p) || paths_view(
                frontier@,
            ).contains(p),
{
    let mut to_scan: Vec<Vec<u8>> = Vec::new();
    let mut i: usize = 0;
    while i < frontier.len()
        invariant
            i <= frontier@.len(),
            forall|p: Seq<u8>|
                #[trigger] paths_view(to_scan@).contains(p) <==> paths_view(
                    frontier@.take(i as int),
                ).contains(p) && !old(visited)@.contains(p),
            forall|k1: int, k2: int|
                0 <= k1 < k2 < to_scan@.len() ==> (to_scan@[k1])@ != (to_scan@[k2])@,
            forall|p: Seq<u8>|
                #[trigger] visited@.contains(p) <==> old(visited)@.contains(p) || paths_view(
                    frontier@.take(i as int),
                ).contains(p),
        decreases frontier@.len() - i,
    {
        let ghost fv = (frontier@[i as int])@;
        proof {
            assert(paths_view(frontier@.take(i + 1)) =~= paths_view(frontier@.take(i as int)).push(
                fv,
            ));
        }
        let fresh = !visited.contains(&frontier[i]);
        if fresh {
            visited.insert(frontier[i].clone());
            proof {
                assert(!paths_view(frontier@.take(i as int)).contains(fv));
                assert(!paths_view(to_scan@).contains(fv));
                assert forall|p: Seq<u8>| #[trigger] visited@.contains(p) <==> (old(
                    visited,
                )@.contains(p) || paths_view(frontier@.take(i + 1)).contains(p)) by {
                    vstd::seq_lib::lemma_seq_contains_after_push(
                        paths_view(frontier@.take(i as int)),
                        fv,
                        p,
                    );
                }
            }
            let ghost pre_scan = to_scan@;
            to_scan.push(frontier[i].clone());
            proof {
                assert((to_scan@.last())@ =~= fv);
                assert(paths_view(to_scan@) =~= paths_view(pre_scan).push(fv));
                assert forall|p: Seq<u8>| #[trigger] paths_view(to_scan@).contains(p) <==> (
                paths_view(frontier@.take(i + 1)).contains(p) && !old(visited)@.contains(p)) by {
                    vstd::seq_lib::lemma_seq_contains_after_push(paths_view(pre_scan), fv, p);
                    vstd::seq_lib::lemma_seq_contains_after_push(
                        paths_view(frontier@.take(i as int)),
                        fv,
                        p,
                    );
                }
                assert forall|k1: int, k2: int|
                    0 <= k1 < k2 < to_scan@.len() implies (to_scan@[k1])@ != (to_scan@[k2])@ by {
                    if k2 == to_scan@.len() - 1 {
                        assert((to_scan@[k2])@ == fv);
                        assert(pre_scan[k1] == to_scan@[k1]);
                        assert(paths_view(pre_scan)[k1] == (pre_scan[k1])@);
                        assert(paths_view(pre_scan).contains((to_scan@[k1])@));
                    } else {
                        assert(pre_scan[k1] == to_scan@[k1]);
                        assert(pre_scan[k2] == to_scan@[k2]);
                    }
                }
            }
        } else {
            proof {
                vstd::seq_lib::lemma_seq_contains_after_push(
                    paths_view(frontier@.take(i as int)),
                    fv,
                    fv,
                );
                assert(paths_view(frontier@.take(i + 1)).contains(fv));
                assert forall|p: Seq<u8>| #[trigger] paths_view(to_scan@).contains(p) <==> (
                paths_view(frontier@.take(i + 1)).contains(p) && !old(visited)@.contains(p)) by {
                    vstd::seq_lib::lemma_seq_contains_after_push(
                        paths_view(frontier@.take(i as int)),
                        fv,
                        p,
                    );
                    if p == fv && !old(visited)@.contains(fv) {
                        assert(paths_view(frontier@.take(i as int)).contains(fv));
                    }
                }
                assert forall|p: Seq<u8>| #[trigger] visited@.contains(p) <==> (old(
                    visited,
                )@.contains(p) || paths_view(frontier@.take(i + 1)).contains(p)) by {
                    vstd::seq_lib::lemma_seq_contains_after_push(
                        paths_view(frontier@.take(i as int)),
                        fv,
                        p,
                    );
                }
            }
        }
        i = i + 1;
    }
    proof {
        assert(frontier@.take(frontier@.len() as int) =~= frontier@);
    }
    to_scan
}

/// Law: across two consecutive waves, no directory is scanned twice. What
/// the first wave scanned it also marked visited, and the second wave scans
/// only what is not visited — so a symlink cycle that keeps re-feeding the
/// frontier adds no work, and the loop terminates on any finite tree.
pub proof fn lemma_waves_never_rescan(
    visited0: Set<Seq<u8>>,
    frontier1: Seq<Seq<u8>>,
    scan1: Set<Seq<u8>>,
    visited1: Set<Seq<u8>>,
    frontier2: Seq<Seq<u8>>,
    scan2: Set<Seq<u8>>,
)
    requires
        forall|p: Seq<u8>|
            #[trigger] scan1.contains(p) ==> frontier1.contains(p) && !visited0.contains(p),
        forall|p: Seq<u8>|
            #[trigger] visited1.contains(p) <==> visited0.contains(p) || frontier1.contains(p),
        forall|p: Seq<u8>| #[trigger] scan2.contains(p) ==> !visited1.contains(p),
    ensures
        forall|p: Seq<u8>| #[trigger] scan1.contains(p) ==> !scan2.contains(p),
{
    assert forall|p: Seq<u8>| #[trigger] scan1.contains(p) implies !scan2.contains(p) by {
        assert(visited1.contains(p));
    }
}

} // verus!
