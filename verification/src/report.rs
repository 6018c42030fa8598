//! What to do with each duplicate group once the scan has converged.
//!
//! Three mutually exclusive actions, chosen by the configuration: emit one
//! record per group (the default), keep the shortest-named path and delete
//! the rest, or hand the whole group to an external program. The choice and
//! the keep/delete split are decided here; printing, deleting and running
//! the program are the caller's I/O.
//!
//! "Shortest" orders paths by byte length, ties broken by lexicographic
//! comparison of the bytes, so the kept path is uniquely determined.

use vstd::prelude::*;

use crate::config::Opt;
use crate::index::paths_view;

verus! {

/// Byte-wise lexicographic order: the empty string first, then by the
/// first differing byte, a prefix before its extensions.
pub open spec fn lex_le(a: Seq<u8>, b: Seq<u8>) -> bool
    decreases a.len(),
{
    if a.len() == 0 {
        true
    } else if b.len() == 0 {
        false
    } else if a[0] < b[0] {
        true
    } else if a[0] > b[0] {
        false
    } else {
        lex_le(a.drop_first(), b.drop_first())
    }
}

/// The keep-shortest order: shorter name first, equal lengths broken
/// lexicographically.
pub open spec fn keep_le(a: Seq<u8>, b: Seq<u8>) -> bool {
    ||| a.len() < b.len()
    ||| (a.len() == b.len() && lex_le(a, b))
}

/// Law: the order is total — any two paths compare.
pub proof fn lemma_keep_le_total(a: Seq<u8>, b: Seq<u8>)
    ensures
        keep_le(a, b) || keep_le(b, a),
{
    lemma_lex_le_total(a, b);
}

proof fn lemma_lex_le_total(a: Seq<u8>, b: Seq<u8>)
    ensures
        lex_le(a, b) || lex_le(b, a),
    decreases a.len(),
{
    if a.len() > 0 && b.len() > 0 && a[0] == b[0] {
        lemma_lex_le_total(a.drop_first(), b.drop_first());
    }
}

/// Law: the order is antisymmetric — two paths each no later than the
/// other are the same path, so the kept path of a group of distinct paths
/// is unique.
pub proof fn lemma_keep_le_antisymmetric(a: Seq<u8>, b: Seq<u8>)
    requires
        keep_le(a, b),
        keep_le(b, a),
    ensures
        a == b,
{
    lemma_lex_le_antisymmetric(a, b);
}

proof fn lemma_lex_le_antisymmetric(a: Seq<u8>, b: Seq<u8>)
    requires
        lex_le(a, b),
        lex_le(b, a),
    ensures
        a == b,
    decreases a.len(),
{
    if a.len() == 0 {
        assert(b.len() == 0);
        assert(a =~= b);
    } else {
        assert(b.len() > 0);
        assert(a[0] == b[0]);
        lemma_lex_le_antisymmetric(a.drop_first(), b.drop_first());
        assert(a =~= seq![a[0]] + a.drop_first());
        assert(b =~= seq![b[0]] + b.drop_first());
    }
}

/// Law: the order is transitive.
pub proof fn lemma_keep_le_transitive(a: Seq<u8>, b: Seq<u8>, c: Seq<u8>)
    requires
        keep_le(a, b),
        keep_le(b, c),
    ensures
        keep_le(a, c),
{
    if a.len() == b.len() && b.len() == c.len() {
        lemma_lex_le_transitive(a, b, c);
    }
}

proof fn lemma_lex_le_transitive(a: Seq<u8>, b: Seq<u8>, c: Seq<u8>)
    requires
        lex_le(a, b),
        lex_le(b, c),
    ensures
        lex_le(a, c),
    decreases a.len(),
{
    if a.len() > 0 {
        assert(b.len() > 0);
        assert(c.len() > 0);
        if a[0] == b[0] && b[0] == c[0] {
            lemma_lex_le_transitive(a.drop_first(), b.drop_first(), c.drop_first());
        }
    }
}

/// Whether `a` comes no later than `b` in the keep-shortest order.
pub fn keep_le_exec(a: &Vec<u8>, b: &Vec<u8>) -> (r: bool)
    ensures
        r == keep_le(a@, b@),
{
    if a.len() < b.len() {
        true
    } else if a.len() > b.len() {
        false
    } else {
        lex_le_exec(a, b)
    }
}

fn lex_le_exec(a: &Vec<u8>, b: &Vec<u8>) -> (r: bool)
    ensures
        r == lex_le(a@, b@),
{
    let mut i: usize = 0;
    proof {
        assert(a@.skip(0) =~= a@);
        assert(b@.skip(0) =~= b@);
    }
    loop
        invariant
            i <= a@.len(),
            i <= b@.len(),
            lex_le(a@, b@) == lex_le(a@.skip(i as int), b@.skip(i as int)),
        decreases a@.len() - i,
    {
        if i == a.len() {
            proof {
                assert(a@.skip(i as int) =~= Seq::<u8>::empty());
            }
            return true;
        }
        if i == b.len() {
            proof {
                assert(b@.skip(i as int) =~= Seq::<u8>::empty());
                assert(a@.skip(i as int).len() > 0);
            }
            return false;
        }
        proof {
            assert(a@.skip(i as int)[0] == a@[i as int]);
            assert(b@.skip(i as int)[0] == b@[i as int]);
        }
        if a[i] < b[i] {
            return true;
        }
        if a[i] > b[i] {
            return false;
        }
        proof {
            assert(a@.skip(i as int).drop_first() =~= a@.skip(i as int + 1));
            assert(b@.skip(i as int).drop_first() =~= b@.skip(i as int + 1));
        }
        i = i + 1;
    }
}

/// The keep/delete split of one duplicate group.
pub struct KeepPlan {
    /// The path kept: the group's earliest in the keep-shortest order.
    pub keep: Vec<u8>,
    /// Every other path of the group: to be deleted, or reported as
    /// would-be-deleted on a dry run.
    pub delete: Vec<Vec<u8>>,
}

/// Split one group: keep the shortest-named path (ties lexicographic),
/// delete exactly the others.
pub fn plan_keep_shortest(paths: Vec<Vec<u8>>) -> (plan: KeepPlan)
    requires
        paths@.len() >= 1,
    ensures
        paths_view(paths@).contains(plan.keep@),
        forall|p: Seq<u8>| #[trigger] paths_view(paths@).contains(p) ==> keep_le(plan.keep@, p),
        paths_view(plan.delete@).to_multiset().insert(plan.keep@) == paths_view(
            paths@,
        ).to_multiset(),
{
    let mut paths = paths;
    let mut m: usize = 0;
    let mut i: usize = 1;
    proof {
        lemma_keep_le_total((paths@[0])@, (paths@[0])@);
    }
    while i < paths.len()
        invariant
            1 <= i <= paths@.len(),
            m < i,
            forall|j: int| 0 <= j < i ==> keep_le((paths@[m as int])@, (#[trigger] paths@[j])@),
        decreases paths@.len() - i,
    {
        if !keep_le_exec(&paths[m], &paths[i]) {
            proof {
                lemma_keep_le_total((paths@[m as int])@, (paths@[i as int])@);
                assert forall|j: int| 0 <= j < i + 1 implies keep_le(
                    (paths@[i as int])@,
                    (#[trigger] paths@[j])@,
                ) by {
                    if j < i {
                        lemma_keep_le_transitive(
                            (paths@[i as int])@,
                            (paths@[m as int])@,
                            (paths@[j])@,
                        );
                    } else {
                        lemma_keep_le_total((paths@[i as int])@, (paths@[i as int])@);
                    }
                }
            }
            m = i;
        }
        i = i + 1;
    }
    let ghost pre = paths@;
    let ghost pv = paths_view(paths@);
    let keep = paths.remove(m);
    proof {
        broadcast use vstd::seq_lib::group_to_multiset_ensures;

        assert(paths_view(paths@) =~= pv.remove(m as int));
        assert(pv.remove(m as int).to_multiset() =~= pv.to_multiset().remove(pv[m as int]));
        assert(pv[m as int] == keep@);
        assert(pv.to_multiset().contains(keep@)) by {
            assert(pv.contains(pv[m as int]));
        }
        assert(pv.to_multiset().remove(keep@).insert(keep@) =~= pv.to_multiset());
        assert(pv.contains(keep@));
        assert forall|p: Seq<u8>| #[trigger] pv.contains(p) implies keep_le(keep@, p) by {
            let j = choose|j: int| 0 <= j < pv.len() && pv[j] == p;
            assert(pv[j] == (pre[j])@);
            assert(keep_le((pre[m as int])@, (pre[j])@));
        }
    }
    KeepPlan { keep, delete: paths }
}

/// What to do with one duplicate group.
pub enum GroupAction {
    /// Emit one self-contained record: the digest and the group's paths.
    Report,
    /// Keep one path, delete the others (report them instead on a dry run).
    KeepShortest { keep: Vec<u8>, delete: Vec<Vec<u8>> },
    /// Invoke the program once, with the whole group as its arguments, and
    /// wait for it to exit before the next group.
    RunProgram { program: Vec<u8>, args: Vec<Vec<u8>> },
}

/// Decide one group's action from the configuration: the keep-shortest
/// split, one program invocation carrying every path of the group, or the
/// default record.
pub fn plan_group_action(cfg: &Opt, paths: Vec<Vec<u8>>) -> (a: GroupAction)
    requires
        paths@.len() >= 1,
    ensures
        cfg.keep_shortest ==> (a matches GroupAction::KeepShortest { keep, delete } && {
            &&& paths_view(paths@).contains(keep@)
            &&& forall|p: Seq<u8>| #[trigger] paths_view(paths@).contains(p) ==> keep_le(keep@, p)
            &&& paths_view(delete@).to_multiset().insert(keep@) == paths_view(paths@).to_multiset()
        }),
        !cfg.keep_shortest && cfg.exec_program is Some ==> (a matches GroupAction::RunProgram {
            program,
            args,
        } && program@ == cfg.exec_program->0@ && args == paths),
        !cfg.keep_shortest && cfg.exec_program is None ==> a == GroupAction::Report,
{
    if cfg.keep_shortest {
        let plan = plan_keep_shortest(paths);
        GroupAction::KeepShortest { keep: plan.keep, delete: plan.delete }
    } else {
        match &cfg.exec_program {
            Some(prog) => {
                let program = prog.clone();
                proof {
                    assert(program@ =~= cfg.exec_program->0@);
                }
                GroupAction::RunProgram { program, args: paths }
            },
            None => GroupAction::Report,
        }
    }
}

} // verus!
