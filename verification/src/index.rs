//! The digest-keyed result index: the accumulator every hashing task
//! reports into, and the source of the duplicate groups read out once the
//! scan has converged.
//!
//! The index maps each digest to the set of distinct paths whose content
//! produced it. Insertion is the only mutation; membership is all that
//! matters — neither the order of insertions nor the order of paths within
//! a group is observable in the grouping, which the laws at the end make
//! precise: the groups are a function of the set of (digest, path) facts
//! discovered, so scanning an unmodified tree twice yields identical
//! groupings, identical content always lands in one group, and distinct
//! digests never share one.

use vstd::prelude::*;

use crate::hashing::md5_of;

verus! {

/// The path views of a sequence of byte-string paths.
pub open spec fn paths_view(paths: Seq<Vec<u8>>) -> Seq<Seq<u8>> {
    paths.map_values(|p: Vec<u8>| p@)
}

/// One digest and the distinct paths whose content produced it.
pub struct Bucket {
    /// The content digest shared by every path below.
    pub digest: Vec<u8>,
    /// The paths, pairwise distinct.
    pub paths: Vec<Vec<u8>>,
}

/// The paths within one bucket are pairwise distinct.
pub open spec fn bucket_paths_distinct(b: Bucket) -> bool {
    forall|i: int, j: int| 0 <= i < j < b.paths@.len() ==> b.paths@[i]@ != b.paths@[j]@
}

/// Digest → set-of-paths accumulator.
pub struct ResultIndex {
    buckets: Vec<Bucket>,
}

impl ResultIndex {
    /// Representation invariant: one bucket per digest, distinct paths
    /// within each bucket.
    pub closed spec fn wf(self) -> bool {
        &&& forall|k1: int, k2: int|
            0 <= k1 < k2 < self.buckets@.len() ==> self.buckets@[k1].digest@
                != self.buckets@[k2].digest@
        &&& forall|k: int|
            0 <= k < self.buckets@.len() ==> bucket_paths_distinct(#[trigger] self.buckets@[k])
    }

    /// Whether some path was recorded under this digest.
    pub closed spec fn has_group(self, d: Seq<u8>) -> bool {
        exists|k: int| 0 <= k < self.buckets@.len() && self.buckets@[k].digest@ == d
    }

    /// The set of paths recorded under this digest (empty if none was).
    pub closed spec fn group(self, d: Seq<u8>) -> Set<Seq<u8>> {
        Set::new(
            |p: Seq<u8>|
                exists|k: int|
                    0 <= k < self.buckets@.len() && self.buckets@[k].digest@ == d && paths_view(
                        self.buckets@[k].paths@,
                    ).contains(p),
        )
    }

    /// An empty index: no digest has a group.
    pub fn new() -> (r: ResultIndex)
        ensures
            r.wf(),
            forall|d: Seq<u8>| !(#[trigger] r.has_group(d)),
            forall|d: Seq<u8>, p: Seq<u8>| !(#[trigger] r.group(d).contains(p)),
    {
        ResultIndex { buckets: Vec::new() }
    }

    /// Record one digest/path fact: afterwards the path is in the digest's
    /// group, and nothing else changed. Recording a fact twice is harmless.
    pub fn insert(&mut self, digest: Vec<u8>, path: Vec<u8>)
        requires
            old(self).wf(),
        ensures
            final(self).wf(),
            forall|d: Seq<u8>|
                #[trigger] final(self).has_group(d) <==> old(self).has_group(d) || d == digest@,
            forall|d: Seq<u8>, p: Seq<u8>|
                #[trigger] final(self).group(d).contains(p) <==> old(self).group(d).contains(p)
                    || (d == digest@ && p == path@),
    {
        let ghost pre = *self;
        let ghost dv = digest@;
        let ghost pv = path@;
        match find_bucket(&self.buckets, &digest) {
            Some(k) => {
                let b = bucket_mut(&mut self.buckets, k);
                let ghost old_bucket = *b;
                if !contains_path(&b.paths, &path) {
                    b.paths.push(path);
                    proof {
                        assert(paths_view(self.buckets@[k as int].paths@) =~= paths_view(
                            old_bucket.paths@,
                        ).push(pv));
                        lemma_insert_push_ok(pre, *self, k as int, old_bucket, dv, pv);
                    }
                } else {
                    proof {
                        assert(self.buckets@ =~= pre.buckets@);
                        assert forall|d: Seq<u8>, p: Seq<u8>|
                            #[trigger] self.group(d).contains(p) <==> pre.group(d).contains(p) || (
                            d == digest@ && p == path@) by {
                            if d == digest@ && p == path@ {
                                assert(pre.group(d).contains(p));
                            }
                        }
                    }
                }
            },
            None => {
                let bucket = Bucket { digest, paths: vec![path] };
                self.buckets.push(bucket);
                proof {
                    assert(paths_view(self.buckets@.last().paths@) =~= seq![pv]);
                    lemma_insert_fresh_ok(pre, *self, dv, pv);
                }
            },
        }
    }
}

impl ResultIndex {
    /// With a well-formed index, a digest's group is exactly the path set
    /// of the one bucket holding that digest.
    proof fn lemma_group_eq_bucket(self, k: int)
        requires
            self.wf(),
            0 <= k < self.buckets@.len(),
        ensures
            forall|p: Seq<u8>|
                #[trigger] self.group(self.buckets@[k].digest@).contains(p) <==> paths_view(
                    self.buckets@[k].paths@,
                ).contains(p),
    {
        let d = self.buckets@[k].digest@;
        assert forall|p: Seq<u8>| #[trigger] self.group(d).contains(p) <==> paths_view(
            self.buckets@[k].paths@,
        ).contains(p) by {
            if self.group(d).contains(p) {
                let kk = choose|kk: int|
                    0 <= kk < self.buckets@.len() && self.buckets@[kk].digest@ == d && paths_view(
                        self.buckets@[kk].paths@,
                    ).contains(p);
                if kk != k {
                    if kk < k {
                        assert(self.buckets@[kk].digest@ != self.buckets@[k].digest@);
                    } else {
                        assert(self.buckets@[k].digest@ != self.buckets@[kk].digest@);
                    }
                }
            }
        }
    }

    /// Read the converged index out once: every group of two or more
    /// distinct paths, each with its digest; groups of one are discarded.
    #[verifier::rlimit(50)]
    pub fn into_duplicate_groups(self) -> (groups: Vec<Bucket>)
        requires
            self.wf(),
        ensures
            forall|g: int|
                0 <= g < groups@.len() ==> {
                    let b = #[trigger] groups@[g];
                    &&& self.has_group(b.digest@)
                    &&& b.paths@.len() >= 2
                    &&& bucket_paths_distinct(b)
                    &&& forall|p: Seq<u8>|
                        #[trigger] paths_view(b.paths@).contains(p) <==> self.group(
                            b.digest@,
                        ).contains(p)
                },
            forall|g1: int, g2: int|
                0 <= g1 < g2 < groups@.len() ==> groups@[g1].digest@ != groups@[g2].digest@,
            forall|d: Seq<u8>, p1: Seq<u8>, p2: Seq<u8>|
                #[trigger] self.group(d).contains(p1) && #[trigger] self.group(d).contains(p2) && p1
                    != p2 ==> exists|g: int| 0 <= g < groups@.len() && groups@[g].digest@ == d,
    {
        let ghost orig = self;
        let ResultIndex { buckets: mut bs } = self;
        let mut groups: Vec<Bucket> = Vec::new();
        proof {
            assert(orig.buckets@.skip(bs@.len() as int) =~= Seq::<Bucket>::empty());
        }
        while bs.len() > 0
            invariant
                bs@.len() <= orig.buckets@.len(),
                bs@ == orig.buckets@.take(bs@.len() as int),
                orig.wf(),
                groups@ == dups_from_end(orig.buckets@.skip(bs@.len() as int)),
            decreases bs@.len(),
        {
            let ghost n = bs@.len() as int;
            let b = bs.pop().unwrap();
            proof {
                assert(b == orig.buckets@[n - 1]);
                assert(bs@ =~= orig.buckets@.take(n - 1));
                assert(orig.buckets@.skip(n - 1).drop_first() =~= orig.buckets@.skip(n));
                assert(orig.buckets@.skip(n - 1).first() == orig.buckets@[n - 1]);
            }
            if b.paths.len() >= 2 {
                groups.push(b);
            }
        }
        proof {
            assert(orig.buckets@.skip(0) =~= orig.buckets@);
            lemma_dups_sound(orig.buckets@);
            lemma_dups_complete(orig.buckets@);
            lemma_dups_digests_distinct(orig.buckets@);
            assert forall|g: int| 0 <= g < groups@.len() implies {
                let b = #[trigger] groups@[g];
                &&& orig.has_group(b.digest@)
                &&& b.paths@.len() >= 2
                &&& bucket_paths_distinct(b)
                &&& forall|p: Seq<u8>|
                    #[trigger] paths_view(b.paths@).contains(p) <==> orig.group(
                        b.digest@,
                    ).contains(p)
            } by {
                assert(dup_bucket_of(orig.buckets@, groups@[g]));
                let k0 = choose|k0: int|
                    0 <= k0 < orig.buckets@.len() && groups@[g] == orig.buckets@[k0]
                        && orig.buckets@[k0].paths@.len() >= 2;
                orig.lemma_group_eq_bucket(k0);
                assert(bucket_paths_distinct(orig.buckets@[k0]));
            }
            assert forall|d: Seq<u8>, p1: Seq<u8>, p2: Seq<u8>|
                #[trigger] orig.group(d).contains(p1) && #[trigger] orig.group(d).contains(p2) && p1
                != p2 implies exists|g: int|
                0 <= g < groups@.len() && groups@[g].digest@ == d by {
                let k1 = choose|kk: int|
                    0 <= kk < orig.buckets@.len() && orig.buckets@[kk].digest@ == d && paths_view(
                        orig.buckets@[kk].paths@,
                    ).contains(p1);
                let k2 = choose|kk: int|
                    0 <= kk < orig.buckets@.len() && orig.buckets@[kk].digest@ == d && paths_view(
                        orig.buckets@[kk].paths@,
                    ).contains(p2);
                assert(k1 == k2) by {
                    if k1 < k2 {
                        assert(orig.buckets@[k1].digest@ != orig.buckets@[k2].digest@);
                    } else if k2 < k1 {
                        assert(orig.buckets@[k2].digest@ != orig.buckets@[k1].digest@);
                    }
                }
                let i1 = choose|i: int|
                    0 <= i < paths_view(orig.buckets@[k1].paths@).len() && paths_view(
                        orig.buckets@[k1].paths@,
                    )[i] == p1;
                let i2 = choose|i: int|
                    0 <= i < paths_view(orig.buckets@[k1].paths@).len() && paths_view(
                        orig.buckets@[k1].paths@,
                    )[i] == p2;
                assert(i1 != i2);
                assert(orig.buckets@[k1].paths@.len() >= 2);
                assert(in_dups(orig.buckets@, orig.buckets@[k1]));
                let g = choose|g: int|
                    0 <= g < groups@.len() && groups@[g] == orig.buckets@[k1];
                assert(groups@[g].digest@ == d);
            }
        }
        groups
    }
}

/// The buckets of two or more paths, collected back to front.
spec fn dups_from_end(s: Seq<Bucket>) -> Seq<Bucket>
    decreases s.len(),
{
    if s.len() == 0 {
        Seq::empty()
    } else {
        let rest = dups_from_end(s.drop_first());
        if s.first().paths@.len() >= 2 {
            rest.push(s.first())
        } else {
            rest
        }
    }
}

/// `b` stands in `s` with two or more paths.
spec fn dup_bucket_of(s: Seq<Bucket>, b: Bucket) -> bool {
    exists|k: int| 0 <= k < s.len() && b == #[trigger] s[k] && s[k].paths@.len() >= 2
}

/// `b` is among the collected buckets of `s`.
spec fn in_dups(s: Seq<Bucket>, b: Bucket) -> bool {
    exists|g: int| 0 <= g < dups_from_end(s).len() && #[trigger] dups_from_end(s)[g] == b
}

proof fn lemma_dups_sound(s: Seq<Bucket>)
    ensures
        forall|g: int|
            0 <= g < dups_from_end(s).len() ==> #[trigger] dup_bucket_of(s, dups_from_end(s)[g]),
    decreases s.len(),
{
    if s.len() > 0 {
        lemma_dups_sound(s.drop_first());
        let ds = dups_from_end(s.drop_first());
        assert forall|g: int|
            0 <= g < dups_from_end(s).len() implies #[trigger] dup_bucket_of(
            s,
            dups_from_end(s)[g],
        ) by {
            if g < ds.len() {
                assert(dup_bucket_of(s.drop_first(), ds[g]));
                let k = choose|k: int|
                    0 <= k < s.drop_first().len() && ds[g] == s.drop_first()[k]
                        && s.drop_first()[k].paths@.len() >= 2;
                assert(s.drop_first()[k] == s[k + 1]);
                assert(dups_from_end(s)[g] == s[k + 1] && s[k + 1].paths@.len() >= 2);
            } else {
                assert(s.first().paths@.len() >= 2);
                assert(dups_from_end(s)[g] == s[0] && s[0].paths@.len() >= 2);
            }
        }
    }
}

proof fn lemma_dups_complete(s: Seq<Bucket>)
    ensures
        forall|k: int|
            0 <= k < s.len() && #[trigger] s[k].paths@.len() >= 2 ==> in_dups(s, s[k]),
    decreases s.len(),
{
    if s.len() > 0 {
        lemma_dups_complete(s.drop_first());
        let ds = dups_from_end(s.drop_first());
        assert forall|k: int|
            0 <= k < s.len() && #[trigger] s[k].paths@.len() >= 2 implies in_dups(s, s[k]) by {
            if k == 0 {
                assert(dups_from_end(s)[dups_from_end(s).len() - 1] == s[0]);
            } else {
                assert(s.drop_first()[k - 1] == s[k]);
                assert(in_dups(s.drop_first(), s[k]));
                let g = choose|g: int| 0 <= g < ds.len() && ds[g] == s[k];
                assert(dups_from_end(s)[g] == s[k]);
            }
        }
    }
}

proof fn lemma_dups_digests_distinct(s: Seq<Bucket>)
    requires
        forall|k1: int, k2: int| 0 <= k1 < k2 < s.len() ==> s[k1].digest@ != s[k2].digest@,
    ensures
        forall|g1: int, g2: int|
            0 <= g1 < g2 < dups_from_end(s).len() ==> dups_from_end(s)[g1].digest@
                != dups_from_end(s)[g2].digest@,
    decreases s.len(),
{
    if s.len() > 0 {
        assert forall|k1: int, k2: int|
            0 <= k1 < k2 < s.drop_first().len() implies s.drop_first()[k1].digest@
            != s.drop_first()[k2].digest@ by {
            assert(s[k1 + 1].digest@ != s[k2 + 1].digest@);
        }
        lemma_dups_digests_distinct(s.drop_first());
        lemma_dups_sound(s.drop_first());
        let ds = dups_from_end(s.drop_first());
        assert forall|g1: int, g2: int|
            0 <= g1 < g2 < dups_from_end(s).len() implies dups_from_end(s)[g1].digest@
            != dups_from_end(s)[g2].digest@ by {
            if g2 < ds.len() {
                assert(ds[g1].digest@ != ds[g2].digest@);
            } else {
                assert(dups_from_end(s)[g2] == s.first());
                assert(dup_bucket_of(s.drop_first(), ds[g1]));
                let k = choose|k: int|
                    0 <= k < s.drop_first().len() && ds[g1] == s.drop_first()[k]
                        && s.drop_first()[k].paths@.len() >= 2;
                assert(s.drop_first()[k] == s[k + 1]);
                assert(s[0].digest@ != s[k + 1].digest@);
            }
        }
    }
}

/// Whether two byte strings are equal.
pub(crate) fn bytes_eq(a: &Vec<u8>, b: &Vec<u8>) -> (r: bool)
    ensures
        r <==> a@ == b@,
{
    if a.len() != b.len() {
        return false;
    }
    let mut i: usize = 0;
    while i < a.len()
        invariant
            i <= a.len(),
            a@.len() == b@.len(),
            forall|j: int| 0 <= j < i ==> a@[j] == b@[j],
        decreases a.len() - i,
    {
        if a[i] != b[i] {
            return false;
        }
        i = i + 1;
    }
    assert(a@ =~= b@);
    true
}

/// The index of the bucket holding this digest, if any.
fn find_bucket(buckets: &Vec<Bucket>, digest: &Vec<u8>) -> (r: Option<usize>)
    ensures
        match r {
            Some(k) => k < buckets@.len() && buckets@[k as int].digest@ == digest@,
            None => forall|k: int| 0 <= k < buckets@.len() ==> buckets@[k].digest@ != digest@,
        },
{
    let mut k: usize = 0;
    while k < buckets.len()
        invariant
            k <= buckets.len(),
            forall|j: int| 0 <= j < k ==> buckets@[j].digest@ != digest@,
        decreases buckets.len() - k,
    {
        if bytes_eq(&buckets[k].digest, digest) {
            return Some(k);
        }
        k = k + 1;
    }
    None
}

/// Whether this path is already among `paths`.
fn contains_path(paths: &Vec<Vec<u8>>, path: &Vec<u8>) -> (r: bool)
    ensures
        r <==> paths_view(paths@).contains(path@),
{
    let mut i: usize = 0;
    while i < paths.len()
        invariant
            i <= paths.len(),
            forall|j: int| 0 <= j < i ==> paths@[j]@ != path@,
        decreases paths.len() - i,
    {
        if bytes_eq(&paths[i], path) {
            assert(paths_view(paths@)[i as int] == path@);
            return true;
        }
        i = i + 1;
    }
    assert forall|j: int| 0 <= j < paths_view(paths@).len() implies paths_view(paths@)[j]
        != path@ by {
        assert(paths@[j]@ != path@);
    }
    false
}

/// A mutable borrow of one bucket.
fn bucket_mut(buckets: &mut Vec<Bucket>, k: usize) -> (b: &mut Bucket)
    requires
        k < old(buckets).len(),
    ensures
        *b == old(buckets)@[k as int],
        final(buckets)@ == old(buckets)@.update(k as int, *final(b)),
{
    &mut buckets[k]
}

proof fn lemma_insert_push_ok(
    pre: ResultIndex,
    post: ResultIndex,
    k: int,
    old_bucket: Bucket,
    digest: Seq<u8>,
    path: Seq<u8>,
)
    requires
        pre.wf(),
        0 <= k < pre.buckets@.len(),
        pre.buckets@[k] == old_bucket,
        old_bucket.digest@ == digest,
        !paths_view(old_bucket.paths@).contains(path),
        post.buckets@.len() == pre.buckets@.len(),
        forall|kk: int|
            0 <= kk < pre.buckets@.len() && kk != k ==> post.buckets@[kk] == pre.buckets@[kk],
        post.buckets@[k].digest@ == digest,
        paths_view(post.buckets@[k].paths@) == paths_view(old_bucket.paths@).push(path),
    ensures
        post.wf(),
        forall|d: Seq<u8>| #[trigger] post.has_group(d) <==> pre.has_group(d) || d == digest,
        forall|d: Seq<u8>, p: Seq<u8>|
            #[trigger] post.group(d).contains(p) <==> pre.group(d).contains(p) || (d == digest && p
                == path),
{
    let old_pv = paths_view(old_bucket.paths@);
    let new_pv = paths_view(post.buckets@[k].paths@);
    assert(new_pv == old_pv.push(path));
    assert(post.wf()) by {
        assert forall|kk: int|
            0 <= kk < post.buckets@.len() implies bucket_paths_distinct(
            #[trigger] post.buckets@[kk],
        ) by {
            if kk == k {
                assert(bucket_paths_distinct(pre.buckets@[k]));
                assert forall|i: int, j: int|
                    0 <= i < j < post.buckets@[kk].paths@.len() implies post.buckets@[kk].paths@[i]@
                    != post.buckets@[kk].paths@[j]@ by {
                    assert(new_pv[i] == post.buckets@[kk].paths@[i]@);
                    assert(new_pv[j] == post.buckets@[kk].paths@[j]@);
                    if j < new_pv.len() - 1 {
                        assert(old_pv[i] == old_bucket.paths@[i]@);
                        assert(old_pv[j] == old_bucket.paths@[j]@);
                    } else {
                        assert(new_pv[j] == path);
                        assert(old_pv[i] == old_bucket.paths@[i]@);
                        assert(old_pv.contains(old_pv[i]));
                    }
                }
            } else {
                assert(bucket_paths_distinct(pre.buckets@[kk]));
            }
        }
    }
    assert forall|d: Seq<u8>| #[trigger] post.has_group(d) <==> pre.has_group(d) || d
        == digest by {
        if post.has_group(d) {
            let kk = choose|kk: int|
                0 <= kk < post.buckets@.len() && post.buckets@[kk].digest@ == d;
            assert(pre.buckets@[kk].digest@ == d);
        }
        if pre.has_group(d) {
            let kk = choose|kk: int| 0 <= kk < pre.buckets@.len() && pre.buckets@[kk].digest@ == d;
            assert(post.buckets@[kk].digest@ == d);
        }
        if d == digest {
            assert(post.buckets@[k].digest@ == d);
        }
    }
    assert forall|d: Seq<u8>, p: Seq<u8>|
        #[trigger] post.group(d).contains(p) <==> pre.group(d).contains(p) || (d == digest && p
            == path) by {
        if post.group(d).contains(p) {
            let kk = choose|kk: int|
                0 <= kk < post.buckets@.len() && post.buckets@[kk].digest@ == d && paths_view(
                    post.buckets@[kk].paths@,
                ).contains(p);
            if kk == k {
                if p == path {
                    assert(d == digest);
                } else {
                    let i = choose|i: int|
                        0 <= i < paths_view(post.buckets@[k].paths@).len() && paths_view(
                            post.buckets@[k].paths@,
                        )[i] == p;
                    assert(paths_view(old_bucket.paths@)[i] == p);
                    assert(pre.group(d).contains(p));
                }
            } else {
                assert(pre.group(d).contains(p));
            }
        }
        if pre.group(d).contains(p) {
            let kk = choose|kk: int|
                0 <= kk < pre.buckets@.len() && pre.buckets@[kk].digest@ == d && paths_view(
                    pre.buckets@[kk].paths@,
                ).contains(p);
            if kk == k {
                let i = choose|i: int|
                    0 <= i < paths_view(pre.buckets@[k].paths@).len() && paths_view(
                        pre.buckets@[k].paths@,
                    )[i] == p;
                assert(paths_view(post.buckets@[k].paths@)[i] == p);
                assert(post.group(d).contains(p));
            } else {
                assert(paths_view(post.buckets@[kk].paths@).contains(p));
                assert(post.group(d).contains(p));
            }
        }
        if d == digest && p == path {
            assert(paths_view(post.buckets@[k].paths@).last() == path);
            assert(post.group(d).contains(p));
        }
    }
}

proof fn lemma_insert_fresh_ok(pre: ResultIndex, post: ResultIndex, digest: Seq<u8>, path: Seq<u8>)
    requires
        pre.wf(),
        forall|kk: int| 0 <= kk < pre.buckets@.len() ==> pre.buckets@[kk].digest@ != digest,
        post.buckets@.len() == pre.buckets@.len() + 1,
        forall|kk: int| 0 <= kk < pre.buckets@.len() ==> post.buckets@[kk] == pre.buckets@[kk],
        post.buckets@.last().digest@ == digest,
        paths_view(post.buckets@.last().paths@) == seq![path],
    ensures
        post.wf(),
        forall|d: Seq<u8>| #[trigger] post.has_group(d) <==> pre.has_group(d) || d == digest,
        forall|d: Seq<u8>, p: Seq<u8>|
            #[trigger] post.group(d).contains(p) <==> pre.group(d).contains(p) || (d == digest && p
                == path),
{
    let n = pre.buckets@.len() as int;
    assert(post.wf()) by {
        assert forall|kk: int|
            0 <= kk < post.buckets@.len() implies bucket_paths_distinct(
            #[trigger] post.buckets@[kk],
        ) by {
            if kk < n {
                assert(bucket_paths_distinct(pre.buckets@[kk]));
            } else {
                assert forall|i: int, j: int|
                    0 <= i < j < post.buckets@[kk].paths@.len() implies post.buckets@[kk].paths@[i]@
                    != post.buckets@[kk].paths@[j]@ by {
                    assert(paths_view(post.buckets@[kk].paths@).len() == 1);
                }
            }
        }
    }
    assert forall|d: Seq<u8>| #[trigger] post.has_group(d) <==> pre.has_group(d) || d
        == digest by {
        if post.has_group(d) {
            let kk = choose|kk: int|
                0 <= kk < post.buckets@.len() && post.buckets@[kk].digest@ == d;
            if kk < n {
                assert(pre.buckets@[kk].digest@ == d);
            }
        }
        if pre.has_group(d) {
            let kk = choose|kk: int| 0 <= kk < pre.buckets@.len() && pre.buckets@[kk].digest@ == d;
            assert(post.buckets@[kk].digest@ == d);
        }
        if d == digest {
            assert(post.buckets@[n].digest@ == d);
        }
    }
    assert forall|d: Seq<u8>, p: Seq<u8>|
        #[trigger] post.group(d).contains(p) <==> pre.group(d).contains(p) || (d == digest && p
            == path) by {
        if post.group(d).contains(p) {
            let kk = choose|kk: int|
                0 <= kk < post.buckets@.len() && post.buckets@[kk].digest@ == d && paths_view(
                    post.buckets@[kk].paths@,
                ).contains(p);
            if kk < n {
                assert(pre.group(d).contains(p));
            } else {
                assert(paths_view(post.buckets@[kk].paths@)[0] == path);
                assert(p == path && d == digest);
            }
        }
        if pre.group(d).contains(p) {
            let kk = choose|kk: int|
                0 <= kk < pre.buckets@.len() && pre.buckets@[kk].digest@ == d && paths_view(
                    pre.buckets@[kk].paths@,
                ).contains(p);
            assert(paths_view(post.buckets@[kk].paths@).contains(p));
            assert(post.group(d).contains(p));
        }
        if d == digest && p == path {
            assert(paths_view(post.buckets@[n].paths@)[0] == path);
            assert(post.group(d).contains(p));
        }
    }
}

/// The views of a sequence of (digest, path) facts.
pub open spec fn pair_views(pairs: Seq<(Vec<u8>, Vec<u8>)>) -> Seq<(Seq<u8>, Seq<u8>)> {
    pairs.map_values(|pr: (Vec<u8>, Vec<u8>)| (pr.0@, pr.1@))
}

/// Whether some fact carries this digest.
pub open spec fn has_digest(pairs: Seq<(Seq<u8>, Seq<u8>)>, d: Seq<u8>) -> bool {
    exists|i: int| 0 <= i < pairs.len() && (#[trigger] pairs[i]).0 == d
}

/// The set of paths recorded with this digest among the facts.
pub open spec fn group_of(pairs: Seq<(Seq<u8>, Seq<u8>)>, d: Seq<u8>) -> Set<Seq<u8>> {
    Set::new(|p: Seq<u8>| pairs.contains((d, p)))
}

/// Build an index from a batch of (digest, path) facts: the index's groups
/// are exactly the facts' groups, whatever order the facts arrived in.
pub fn build_index(pairs: &Vec<(Vec<u8>, Vec<u8>)>) -> (r: ResultIndex)
    ensures
        r.wf(),
        forall|d: Seq<u8>| #[trigger] r.has_group(d) <==> has_digest(pair_views(pairs@), d),
        forall|d: Seq<u8>, p: Seq<u8>|
            #[trigger] r.group(d).contains(p) <==> group_of(pair_views(pairs@), d).contains(p),
{
    let ghost pv = pair_views(pairs@);
    let mut r = ResultIndex::new();
    let mut i: usize = 0;
    while i < pairs.len()
        invariant
            i <= pairs.len(),
            r.wf(),
            pv == pair_views(pairs@),
            forall|d: Seq<u8>| #[trigger] r.has_group(d) <==> has_digest(pv.take(i as int), d),
            forall|d: Seq<u8>, p: Seq<u8>|
                #[trigger] r.group(d).contains(p) <==> pv.take(i as int).contains((d, p)),
        decreases pairs.len() - i,
    {
        let digest = pairs[i].0.clone();
        let path = pairs[i].1.clone();
        proof {
            assert(pv[i as int] == (pairs@[i as int].0@, pairs@[i as int].1@));
            assert(digest@ =~= pairs@[i as int].0@);
            assert(path@ =~= pairs@[i as int].1@);
        }
        let ghost pre = r;
        r.insert(digest, path);
        proof {
            assert(pv.take(i + 1).drop_last() =~= pv.take(i as int));
            assert(pv.take(i + 1).last() == pv[i as int]);
            assert forall|d: Seq<u8>| #[trigger] r.has_group(d) <==> has_digest(
                pv.take(i + 1),
                d,
            ) by {
                if r.has_group(d) {
                    if pre.has_group(d) {
                        let k = choose|k: int|
                            0 <= k < pv.take(i as int).len() && (#[trigger] pv.take(
                                i as int,
                            )[k]).0 == d;
                        assert((pv.take(i + 1)[k]).0 == d);
                    } else {
                        assert((pv.take(i + 1)[i as int]).0 == d);
                    }
                }
                if has_digest(pv.take(i + 1), d) {
                    let k = choose|k: int|
                        0 <= k < pv.take(i + 1).len() && (#[trigger] pv.take(i + 1)[k]).0 == d;
                    if k < i {
                        assert((pv.take(i as int)[k]).0 == d);
                    }
                }
            }
            assert forall|d: Seq<u8>, p: Seq<u8>| #[trigger] r.group(d).contains(p) <==> pv.take(
                i + 1,
            ).contains((d, p)) by {
                if r.group(d).contains(p) {
                    if pre.group(d).contains(p) {
                        let k = choose|k: int|
                            0 <= k < pv.take(i as int).len() && #[trigger] pv.take(i as int)[k]
                                == (d, p);
                        assert(pv.take(i + 1)[k] == (d, p));
                    } else {
                        assert(pv.take(i + 1)[i as int] == (d, p));
                    }
                }
                if pv.take(i + 1).contains((d, p)) {
                    let k = choose|k: int|
                        0 <= k < pv.take(i + 1).len() && #[trigger] pv.take(i + 1)[k] == (d, p);
                    if k < i {
                        assert(pv.take(i as int)[k] == (d, p));
                        assert(pv.take(i as int).contains((d, p)));
                    }
                }
            }
        }
        i = i + 1;
    }
    proof {
        assert(pv.take(pairs@.len() as int) =~= pv);
        assert forall|d: Seq<u8>, p: Seq<u8>| #[trigger] r.group(d).contains(p) <==> group_of(
            pv,
            d,
        ).contains(p) by {}
    }
    r
}

/// Law: the grouping is a function of the set of (digest, path) facts
/// alone. Two runs over an unmodified tree discover the same facts, in
/// whatever order its scans and hashes complete, and so group identically.
pub proof fn lemma_grouping_order_irrelevant(
    a: Seq<(Seq<u8>, Seq<u8>)>,
    b: Seq<(Seq<u8>, Seq<u8>)>,
)
    requires
        a.to_multiset() == b.to_multiset(),
    ensures
        forall|d: Seq<u8>| #[trigger] has_digest(a, d) <==> has_digest(b, d),
        forall|d: Seq<u8>| #[trigger] group_of(a, d) == group_of(b, d),
{
    broadcast use vstd::seq_lib::group_to_multiset_ensures;

    assert forall|d: Seq<u8>| #[trigger] has_digest(a, d) <==> has_digest(b, d) by {
        if has_digest(a, d) {
            let i = choose|i: int| 0 <= i < a.len() && (#[trigger] a[i]).0 == d;
            assert(a.contains(a[i]));
            assert(a.to_multiset().count(a[i]) > 0);
            assert(b.to_multiset().count(a[i]) > 0);
            assert(b.contains(a[i]));
            let j = choose|j: int| 0 <= j < b.len() && #[trigger] b[j] == a[i];
            assert((b[j]).0 == d);
        }
        if has_digest(b, d) {
            let i = choose|i: int| 0 <= i < b.len() && (#[trigger] b[i]).0 == d;
            assert(b.contains(b[i]));
            assert(b.to_multiset().count(b[i]) > 0);
            assert(a.to_multiset().count(b[i]) > 0);
            assert(a.contains(b[i]));
            let j = choose|j: int| 0 <= j < a.len() && #[trigger] a[j] == b[i];
            assert((a[j]).0 == d);
        }
    }
    assert forall|d: Seq<u8>| #[trigger] group_of(a, d) == group_of(b, d) by {
        assert forall|p: Seq<u8>| a.contains((d, p)) <==> b.contains((d, p)) by {
            assert(a.contains((d, p)) <==> a.to_multiset().count((d, p)) > 0);
            assert(b.contains((d, p)) <==> b.to_multiset().count((d, p)) > 0);
        }
        assert(group_of(a, d) =~= group_of(b, d));
    }
}

/// Law: paths of byte-identical content always land in one group. Each
/// fact's digest is the digest of that file's content, so identical content
/// gives identical digests, and one digest is one group.
pub proof fn lemma_identical_content_same_group(
    pairs: Seq<(Seq<u8>, Seq<u8>)>,
    contents: Seq<Seq<u8>>,
    i: int,
    j: int,
)
    requires
        pairs.len() == contents.len(),
        forall|k: int| 0 <= k < pairs.len() ==> (#[trigger] pairs[k]).0 == md5_of(contents[k]),
        0 <= i < pairs.len(),
        0 <= j < pairs.len(),
        contents[i] == contents[j],
    ensures
        has_digest(pairs, pairs[i].0),
        group_of(pairs, pairs[i].0).contains(pairs[i].1),
        group_of(pairs, pairs[i].0).contains(pairs[j].1),
{
    assert(pairs[j].0 == pairs[i].0);
    assert(pairs.contains((pairs[i].0, pairs[i].1))) by {
        assert(pairs[i] == (pairs[i].0, pairs[i].1));
    }
    assert(pairs.contains((pairs[i].0, pairs[j].1))) by {
        assert(pairs[j] == (pairs[i].0, pairs[j].1));
    }
}

/// Law: paths of differing content land in different groups, absent a
/// digest collision — the hypothesis that the two contents digest apart is
/// exactly the "absent hash collision" proviso, md5 collisions being out of
/// scope. Each path is hashed once, so a path recorded under one digest is
/// recorded under no other.
pub proof fn lemma_differing_content_different_group(
    pairs: Seq<(Seq<u8>, Seq<u8>)>,
    contents: Seq<Seq<u8>>,
    i: int,
    j: int,
)
    requires
        pairs.len() == contents.len(),
        forall|k: int| 0 <= k < pairs.len() ==> (#[trigger] pairs[k]).0 == md5_of(contents[k]),
        0 <= i < pairs.len(),
        0 <= j < pairs.len(),
        md5_of(contents[i]) != md5_of(contents[j]),
        forall|k: int| 0 <= k < pairs.len() && (#[trigger] pairs[k]).1 == pairs[i].1 ==> k == i,
    ensures
        pairs[i].0 != pairs[j].0,
        group_of(pairs, pairs[i].0).contains(pairs[i].1),
        !group_of(pairs, pairs[j].0).contains(pairs[i].1),
{
    assert(pairs.contains((pairs[i].0, pairs[i].1))) by {
        assert(pairs[i] == (pairs[i].0, pairs[i].1));
    }
    if group_of(pairs, pairs[j].0).contains(pairs[i].1) {
        let k = choose|k: int| 0 <= k < pairs.len() && #[trigger] pairs[k] == (pairs[j].0, pairs[i].1);
        assert((pairs[k]).1 == pairs[i].1);
        assert(k == i);
        assert(pairs[i].0 == pairs[j].0);
    }
}

} // verus!
