//! Per-entry classification: the decision core of the directory scanner.
//!
//! The caller lists a directory and fetches metadata; this module decides,
//! for each entry, what to do with it. A symlink is resolved step by step —
//! each step the caller reads the link target's metadata and reports the
//! [`Observation`] — under a depth guard of `max_links` follows, so a link
//! cycle can never make the resolution run on forever. A resolved directory
//! is enqueued, a non-empty regular file is dispatched for hashing, and
//! everything else is skipped with a diagnostic; a skip abandons that entry
//! only, never the rest of the directory.
//!
//! Zero-length files are skipped: all empty files trivially share one
//! digest, and reporting them as one universal duplicate group would be
//! meaningless. This policy is part of the observable output.

use vstd::prelude::*;

use crate::config::Opt;

verus! {

/// What the filesystem reports an entry, or a link target, to be.
#[derive(Clone, Copy, PartialEq, Eq, Structural, Debug)]
pub enum EntryKind {
    /// A symbolic link (the link itself, not its target).
    Symlink,
    /// A directory.
    Directory,
    /// A regular file and its size in bytes.
    RegularFile { size: u64 },
    /// Anything else: device, socket, fifo.
    Other,
}

/// One step of an entry's resolution, as the caller observed it.
#[derive(Clone, Copy, PartialEq, Eq, Structural, Debug)]
pub enum Observation {
    /// Metadata was fetched and showed this kind.
    Found(EntryKind),
    /// The link target could not be read or stat'ed: a broken link.
    Broken,
}

/// What to do next with one entry, given one observation.
#[derive(Clone, Copy, PartialEq, Eq, Structural, Debug)]
pub enum StepAction {
    /// Read the link target and observe its metadata, then classify again.
    FollowLink,
    /// Symlink following is disabled: skip the entry outright.
    SkipSymlinkIgnored,
    /// The depth guard tripped: skip the entry, report a diagnostic.
    SkipLinkDepth,
    /// Canonicalize the path and enqueue it for scanning.
    EnqueueDirectory,
    /// Acquire a file permit and dispatch a hashing task.
    HashFile,
    /// Zero-length regular file: skip it, report a diagnostic.
    SkipEmptyFile,
    /// Device, socket, fifo: skip it, report a diagnostic.
    SkipOtherKind,
}

/// How an entry's resolution ended.
#[derive(Clone, Copy, PartialEq, Eq, Structural, Debug)]
pub enum Resolution {
    /// The entry is a directory: enqueue it.
    Directory,
    /// The entry is a regular file of this many bytes: hash it.
    File { size: u64 },
    /// Skipped: zero-length regular file.
    SkippedEmpty,
    /// Skipped: symlink while following is disabled.
    SkippedSymlink,
    /// Skipped: more than `max_links` links followed.
    SkippedDepth,
    /// Skipped: broken link target.
    SkippedBroken,
    /// Skipped: neither file, directory nor symlink.
    SkippedOther,
    /// The observation chain ended while a link was still being followed.
    NeedsObservation,
}

/// The decision for one observation, with `links` links followed so far.
pub open spec fn spec_classify(cfg: Opt, links: nat, kind: EntryKind) -> StepAction {
    match kind {
        EntryKind::Symlink => if cfg.ignore_symlinks {
            StepAction::SkipSymlinkIgnored
        } else if links > cfg.max_links {
            StepAction::SkipLinkDepth
        } else {
            StepAction::FollowLink
        },
        EntryKind::Directory => StepAction::EnqueueDirectory,
        EntryKind::RegularFile { size } => if size == 0 {
            StepAction::SkipEmptyFile
        } else {
            StepAction::HashFile
        },
        EntryKind::Other => StepAction::SkipOtherKind,
    }
}

/// Decide what to do with one entry after one metadata observation.
///
/// `links` is how many links this entry's resolution has already followed;
/// on [`StepAction::FollowLink`] the caller increments it and observes the
/// target's metadata.
pub fn classify_step(cfg: &Opt, links: usize, kind: &EntryKind) -> (a: StepAction)
    ensures
        a == spec_classify(*cfg, links as nat, *kind),
{
    match kind {
        EntryKind::Symlink => if cfg.ignore_symlinks {
            StepAction::SkipSymlinkIgnored
        } else if links > cfg.max_links {
            StepAction::SkipLinkDepth
        } else {
            StepAction::FollowLink
        },
        EntryKind::Directory => StepAction::EnqueueDirectory,
        EntryKind::RegularFile { size } => if *size == 0 {
            StepAction::SkipEmptyFile
        } else {
            StepAction::HashFile
        },
        EntryKind::Other => StepAction::SkipOtherKind,
    }
}

/// How an entry resolves against a chain of observations: `chain[0]` is the
/// entry's own metadata, each further element what the next link target
/// showed, with `links` links already followed.
pub open spec fn spec_resolve(cfg: Opt, links: nat, chain: Seq<Observation>) -> Resolution
    decreases chain.len(),
{
    if chain.len() == 0 {
        Resolution::NeedsObservation
    } else {
        match chain[0] {
            Observation::Broken => Resolution::SkippedBroken,
            Observation::Found(kind) => match kind {
                EntryKind::Symlink => if cfg.ignore_symlinks {
                    Resolution::SkippedSymlink
                } else if links > cfg.max_links {
                    Resolution::SkippedDepth
                } else {
                    spec_resolve(cfg, links + 1, chain.drop_first())
                },
                EntryKind::Directory => Resolution::Directory,
                EntryKind::RegularFile { size } => if size == 0 {
                    Resolution::SkippedEmpty
                } else {
                    Resolution::File { size }
                },
                EntryKind::Other => Resolution::SkippedOther,
            },
        }
    }
}

/// Resolve one entry against its full observation chain.
pub fn resolve_entry(cfg: &Opt, chain: &Vec<Observation>) -> (r: Resolution)
    ensures
        r == spec_resolve(*cfg, 0, chain@),
{
    let mut i: usize = 0;
    let mut links: usize = 0;
    proof {
        assert(chain@.skip(0) =~= chain@);
    }
    loop
        invariant
            i <= chain.len(),
            links <= i,
            spec_resolve(*cfg, 0, chain@) == spec_resolve(
                *cfg,
                links as nat,
                chain@.skip(i as int),
            ),
        decreases chain.len() - i,
    {
        if i == chain.len() {
            assert(chain@.skip(i as int) =~= Seq::<Observation>::empty());
            return Resolution::NeedsObservation;
        }
        assert(chain@.skip(i as int)[0] == chain@[i as int]);
        match &chain[i] {
            Observation::Broken => {
                return Resolution::SkippedBroken;
            },
            Observation::Found(kind) => match kind {
                EntryKind::Symlink => {
                    if cfg.ignore_symlinks {
                        return Resolution::SkippedSymlink;
                    } else if links > cfg.max_links {
                        return Resolution::SkippedDepth;
                    } else {
                        proof {
                            assert(chain@.skip(i as int).drop_first() =~= chain@.skip(
                                i as int + 1,
                            ));
                        }
                        links = links + 1;
                        i = i + 1;
                    }
                },
                EntryKind::Directory => {
                    return Resolution::Directory;
                },
                EntryKind::RegularFile { size } => {
                    if *size == 0 {
                        return Resolution::SkippedEmpty;
                    } else {
                        return Resolution::File { size: *size };
                    }
                },
                EntryKind::Other => {
                    return Resolution::SkippedOther;
                },
            },
        }
    }
}

proof fn lemma_resolve_prefix_rec(cfg: Opt, links: nat, chain: Seq<Observation>, n: int)
    requires
        1 <= n <= chain.len(),
        links + n >= cfg.max_links + 2,
    ensures
        spec_resolve(cfg, links, chain) == spec_resolve(cfg, links, chain.take(n)),
    decreases n,
{
    assert(chain.take(n)[0] == chain[0]);
    match chain[0] {
        Observation::Broken => {},
        Observation::Found(kind) => match kind {
            EntryKind::Symlink => {
                if !cfg.ignore_symlinks && links <= cfg.max_links {
                    lemma_resolve_prefix_rec(cfg, links + 1, chain.drop_first(), n - 1);
                    assert(chain.take(n).drop_first() =~= chain.drop_first().take(n - 1));
                }
            },
            _ => {},
        },
    }
}

/// Law: resolving one entry reads at most `max_links + 2` observations.
/// However long the chain behind a symlink cycle, the resolution's outcome
/// is already fixed by that bounded prefix, so the scan can never hang on
/// one entry.
pub proof fn lemma_resolve_reads_bounded_prefix(cfg: Opt, chain: Seq<Observation>, n: int)
    requires
        cfg.max_links + 2 <= n <= chain.len(),
    ensures
        spec_resolve(cfg, 0, chain) == spec_resolve(cfg, 0, chain.take(n)),
{
    lemma_resolve_prefix_rec(cfg, 0, chain, n);
}

proof fn lemma_deep_chain_rec(cfg: Opt, links: nat, chain: Seq<Observation>)
    requires
        !cfg.ignore_symlinks,
        chain.len() >= 1,
        links + chain.len() > cfg.max_links + 1,
        forall|j: int|
            0 <= j < chain.len() ==> chain[j] == Observation::Found(EntryKind::Symlink),
    ensures
        spec_resolve(cfg, links, chain) == Resolution::SkippedDepth,
    decreases chain.len(),
{
    assert(chain[0] == Observation::Found(EntryKind::Symlink));
    if links <= cfg.max_links {
        assert forall|j: int| 0 <= j < chain.drop_first().len() implies chain.drop_first()[j]
            == Observation::Found(EntryKind::Symlink) by {
            assert(chain.drop_first()[j] == chain[j + 1]);
        }
        lemma_deep_chain_rec(cfg, links + 1, chain.drop_first());
    }
}

/// Law: a symlink chain (or an unrolled cycle) longer than `max_links + 1`
/// resolves to the depth skip — the entry is abandoned with a diagnostic,
/// and nothing else of the scan is touched.
pub proof fn lemma_deep_symlink_chain_skipped(cfg: Opt, chain: Seq<Observation>)
    requires
        !cfg.ignore_symlinks,
        chain.len() > cfg.max_links + 1,
        forall|j: int|
            0 <= j < chain.len() ==> chain[j] == Observation::Found(EntryKind::Symlink),
    ensures
        spec_resolve(cfg, 0, chain) == Resolution::SkippedDepth,
{
    lemma_deep_chain_rec(cfg, 0, chain);
}

/// One directory entry as the caller hands it over: the path and the full
/// observation chain of its resolution.
pub struct RawEntry {
    /// The entry's path, uninterpreted bytes.
    pub path: Vec<u8>,
    /// The entry's own metadata, then each link target's in turn.
    pub chain: Vec<Observation>,
}

/// How one entry resolves.
pub open spec fn entry_resolution(cfg: Opt, e: RawEntry) -> Resolution {
    spec_resolve(cfg, 0, e.chain@)
}

/// The paths among `entries`, in order, that resolve to directories.
pub open spec fn planned_dirs(cfg: Opt, entries: Seq<RawEntry>) -> Seq<Seq<u8>>
    decreases entries.len(),
{
    if entries.len() == 0 {
        Seq::empty()
    } else {
        let rest = planned_dirs(cfg, entries.drop_last());
        if entry_resolution(cfg, entries.last()) is Directory {
            rest.push(entries.last().path@)
        } else {
            rest
        }
    }
}

/// The paths among `entries`, in order, that resolve to files to hash.
pub open spec fn planned_files(cfg: Opt, entries: Seq<RawEntry>) -> Seq<Seq<u8>>
    decreases entries.len(),
{
    if entries.len() == 0 {
        Seq::empty()
    } else {
        let rest = planned_files(cfg, entries.drop_last());
        if entry_resolution(cfg, entries.last()) is File {
            rest.push(entries.last().path@)
        } else {
            rest
        }
    }
}

/// How many of `entries` resolve to neither a directory nor a file and are
/// skipped with a diagnostic.
pub open spec fn planned_skips(cfg: Opt, entries: Seq<RawEntry>) -> nat
    decreases entries.len(),
{
    if entries.len() == 0 {
        0
    } else {
        let rest = planned_skips(cfg, entries.drop_last());
        let r = entry_resolution(cfg, entries.last());
        if r is Directory || r is File {
            rest
        } else {
            rest + 1
        }
    }
}

/// The dispatch plan for one listed directory.
pub struct ScanPlan {
    /// Paths to canonicalize and enqueue into the frontier.
    pub directories: Vec<Vec<u8>>,
    /// Paths of non-empty regular files to hash.
    pub files: Vec<Vec<u8>>,
    /// How many entries were skipped with a diagnostic.
    pub skipped: usize,
}

/// Classify every entry of one directory listing. A skipped entry — broken
/// link, depth guard, empty file, odd kind — costs only itself: every other
/// entry is still dispatched.
pub fn plan_directory(cfg: &Opt, entries: &Vec<RawEntry>) -> (p: ScanPlan)
    ensures
        p.directories@.map_values(|v: Vec<u8>| v@) == planned_dirs(*cfg, entries@),
        p.files@.map_values(|v: Vec<u8>| v@) == planned_files(*cfg, entries@),
        p.skipped == planned_skips(*cfg, entries@),
{
    let mut directories: Vec<Vec<u8>> = Vec::new();
    let mut files: Vec<Vec<u8>> = Vec::new();
    let mut skipped: usize = 0;
    let mut i: usize = 0;
    while i < entries.len()
        invariant
            i <= entries.len(),
            skipped <= i,
            directories@.map_values(|v: Vec<u8>| v@) == planned_dirs(*cfg, entries@.take(i as int)),
            files@.map_values(|v: Vec<u8>| v@) == planned_files(*cfg, entries@.take(i as int)),
            skipped == planned_skips(*cfg, entries@.take(i as int)),
        decreases entries.len() - i,
    {
        proof {
            assert(entries@.take(i + 1).drop_last() =~= entries@.take(i as int));
            assert(entries@.take(i + 1).last() == entries@[i as int]);
        }
        let r = resolve_entry(cfg, &entries[i].chain);
        match r {
            Resolution::Directory => {
                directories.push(entries[i].path.clone());
                proof {
                    assert(directories@.map_values(|v: Vec<u8>| v@) =~= planned_dirs(
                        *cfg,
                        entries@.take(i + 1),
                    ));
                }
            },
            Resolution::File { size: _ } => {
                files.push(entries[i].path.clone());
                proof {
                    assert(files@.map_values(|v: Vec<u8>| v@) =~= planned_files(
                        *cfg,
                        entries@.take(i + 1),
                    ));
                }
            },
            _ => {
                skipped = skipped + 1;
            },
        }
        i = i + 1;
    }
    proof {
        assert(entries@.take(entries@.len() as int) =~= entries@);
    }
    ScanPlan { directories, files, skipped }
}

/// Law: a directory of entries that all resolve to skips — for one, a tree
/// of only empty files — dispatches nothing: no directory is enqueued and
/// no hashing task is spawned, so no fact ever reaches the result index and
/// no duplicate group can arise.
pub proof fn lemma_all_skipped_nothing_dispatched(cfg: Opt, entries: Seq<RawEntry>)
    requires
        forall|k: int|
            0 <= k < entries.len() ==> !((#[trigger] entry_resolution(cfg, entries[k]))
                is Directory) && !(entry_resolution(cfg, entries[k]) is File),
    ensures
        planned_dirs(cfg, entries) == Seq::<Seq<u8>>::empty(),
        planned_files(cfg, entries) == Seq::<Seq<u8>>::empty(),
        planned_skips(cfg, entries) == entries.len(),
    decreases entries.len(),
{
    if entries.len() > 0 {
        assert(entry_resolution(cfg, entries.last()) == entry_resolution(
            cfg,
            entries[entries.len() - 1],
        ));
        assert forall|k: int|
            0 <= k < entries.drop_last().len() implies !((#[trigger] entry_resolution(
            cfg,
            entries.drop_last()[k],
        )) is Directory) && !(entry_resolution(cfg, entries.drop_last()[k]) is File) by {
            assert(entries.drop_last()[k] == entries[k]);
        }
        lemma_all_skipped_nothing_dispatched(cfg, entries.drop_last());
    }
}

} // verus!
