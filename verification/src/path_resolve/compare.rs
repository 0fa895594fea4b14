//! Comparison of two resolutions of the same file names on a sample of entries.
use crate::fast_entry::FileNameCollection;
use crate::path_resolve::ancestry;
use crate::path_resolve::collections;
use crate::path_resolve::collections::ResolvedPaths;
use crate::path_resolve::error::ResolveError;
use crate::path_resolve::multipass;
use crate::path_resolve::multipass::resolve_paths_simple_multipass;
use crate::path_resolve::path_text;
use crate::path_resolve::path_text::paths_equal;
use crate::path_resolve::select;
use crate::path_resolve::simple;
use crate::path_resolve::simple::resolve_paths_simple;
use std::path::PathBuf;
use vstd::prelude::*;

verus! {

/// The state that a generator seeded with 0 starts from.
pub const DEFAULT_SEED: u64 = 0xDEAD_BEEF_CAFE_BABE;

/// What the state of the generator is multiplied by for its output.
pub const MULTIPLIER: u64 = 0x2545_F491_4F6C_DD1D;

/// One step of the xorshift generator.
pub open spec fn xorshift(x: u64) -> u64 {
    let a = x ^ (x >> 12);
    let b = a ^ (a << 25);
    b ^ (b >> 27)
}

/// The state that a generator with this seed starts from. It must not be 0.
pub open spec fn initial_state(seed: u64) -> u64 {
    if seed == 0 {
        DEFAULT_SEED
    } else {
        seed
    }
}

/// The state of the generator after `i` steps.
pub open spec fn state_after(seed: u64, i: nat) -> u64
    decreases i,
{
    if i == 0 {
        initial_state(seed)
    } else {
        xorshift(state_after(seed, (i - 1) as nat))
    }
}

/// A state other than 0 is never followed by 0, at which the generator would stay.
pub proof fn lemma_state_never_zero(seed: u64, i: nat)
    ensures
        state_after(seed, i) != 0,
    decreases i,
{
    if i > 0 {
        lemma_state_never_zero(seed, (i - 1) as nat);
        lemma_xorshift_keeps_nonzero(state_after(seed, (i - 1) as nat));
    }
}

proof fn lemma_xorshift_keeps_nonzero(x: u64)
    requires
        x != 0,
    ensures
        xorshift(x) != 0,
{
    let a = x ^ (x >> 12);
    let b = a ^ (a << 25);
    assert(a != 0) by (bit_vector)
        requires
            x != 0,
            a == x ^ (x >> 12),
    ;
    assert(b != 0) by (bit_vector)
        requires
            a != 0,
            b == a ^ (a << 25),
    ;
    assert(b ^ (b >> 27) != 0) by (bit_vector)
        requires
            b != 0,
    ;
}

/// Advances an xorshift64* generator and returns its output.
pub fn next_rand(state: &mut u64) -> (r: u64)
    ensures
        *final(state) == xorshift(*old(state)),
        r == xorshift(*old(state)).wrapping_mul(MULTIPLIER),
        ({
            let a = *old(state) ^ (*old(state) >> 12);
            let b = a ^ (a << 25);
            *final(state) == b ^ (b >> 27)
        }),
        r == (*final(state)).wrapping_mul(0x2545_F491_4F6C_DD1D),
{
    let mut x: u64 = *state;
    x = x ^ (x >> 12);
    x = x ^ (x << 25);
    x = x ^ (x >> 27);
    *state = x;
    x.wrapping_mul(MULTIPLIER)
}

/// The entry, of `n`, that the sample takes at position `i`.
pub open spec fn sampled(seed: u64, n: nat, i: nat) -> int {
    ((state_after(seed, i + 1).wrapping_mul(MULTIPLIER) as usize) as int) % (n as int)
}

/// How many entries, of `n`, a sample takes.
pub open spec fn sample_len(sample_size: usize, n: nat) -> nat {
    if sample_size <= n {
        sample_size as nat
    } else {
        n
    }
}

/// Whether two resolutions agree on an entry: both leave it without a path, or both give it the
/// same one.
pub open spec fn agree(old_path: Option<Seq<u8>>, new_path: Option<Seq<u8>>) -> bool {
    match (old_path, new_path) {
        (None, None) => true,
        (Some(a), Some(b)) => path_text::same_path(a, b),
        _ => false,
    }
}

/// The resolutions agree on the entry at this position of the sample.
pub open spec fn sample_agrees(
    old_paths: Seq<Option<Seq<u8>>>,
    new_paths: Seq<Option<Seq<u8>>>,
    seed: u64,
    i: nat,
) -> bool {
    agree(
        old_paths[sampled(seed, old_paths.len(), i)],
        new_paths[sampled(seed, old_paths.len(), i)],
    )
}

/// The first position of the sample at which the resolutions disagree.
pub open spec fn first_discrepancy(
    old_paths: Seq<Option<Seq<u8>>>,
    new_paths: Seq<Option<Seq<u8>>>,
    sample_size: usize,
    seed: u64,
    i: nat,
) -> bool {
    &&& i < sample_len(sample_size, old_paths.len())
    &&& !sample_agrees(old_paths, new_paths, seed, i)
    &&& forall|j: nat| j < i ==> #[trigger] sample_agrees(old_paths, new_paths, seed, j)
}

/// What is reported of an entry that the resolutions disagree on.
pub open spec fn reports_entry(
    error: ResolveError,
    e: int,
    old_path: Option<Seq<u8>>,
    new_path: Option<Seq<u8>>,
) -> bool {
    match error {
        ResolveError::LostResolution { entry } => entry == e && old_path is Some
            && new_path is None,
        ResolveError::GainedResolution { entry } => entry == e && old_path is None
            && new_path is Some,
        ResolveError::PathMismatch { entry, old_path: a, new_path: b } => entry == e && old_path
            == Some(path_text::path_bytes(a)) && new_path == Some(path_text::path_bytes(b))
            && old_path != new_path,
        _ => false,
    }
}

/// What a comparison of new paths with old ones comes to.
///
/// There must be as many resolved entries as before, and as many entries. The entries of the
/// sample are then looked at in turn, and the first on which the resolutions disagree is
/// reported.
pub open spec fn compared(
    r: Result<(), ResolveError>,
    old_paths: Seq<Option<Seq<u8>>>,
    new_paths: Seq<Option<Seq<u8>>>,
    sample_size: usize,
    seed: u64,
) -> bool {
    let old_resolved = collections::count_resolved(old_paths);
    let new_resolved = collections::count_resolved(new_paths);
    if new_resolved < old_resolved {
        r matches Err(ResolveError::CountRegression { new_count, old_count }) && new_count
            == new_resolved && old_count == old_resolved
    } else if new_resolved > old_resolved {
        r matches Err(ResolveError::CountIncrease { new_count, old_count }) && new_count
            == new_resolved && old_count == old_resolved
    } else if old_paths.len() != new_paths.len() {
        r matches Err(ResolveError::LengthMismatch { old_len, new_len }) && old_len
            == old_paths.len() && new_len == new_paths.len()
    } else {
        &&& r is Ok <==> forall|i: nat|
            i < sample_len(sample_size, old_paths.len()) ==> #[trigger] sample_agrees(
                old_paths,
                new_paths,
                seed,
                i,
            )
        &&& forall|i: nat| #[trigger]
            first_discrepancy(old_paths, new_paths, sample_size, seed, i) ==> {
                let e = sampled(seed, old_paths.len(), i);
                r matches Err(error) && reports_entry(error, e, old_paths[e], new_paths[e])
            }
    }
}

/// Compares new paths with old ones on a sample of entries.
pub fn compare_paths(
    old_paths: &ResolvedPaths,
    new_paths: &ResolvedPaths,
    sample_size: usize,
    seed: u64,
) -> (r: Result<(), ResolveError>)
    ensures
        compared(r, old_paths@, new_paths@, sample_size, seed),
        old_paths@ == new_paths@ ==> r is Ok,
{
    let old_resolved: usize = old_paths.resolved_count();
    let new_resolved: usize = new_paths.resolved_count();
    if new_resolved < old_resolved {
        return Err(
            ResolveError::CountRegression { new_count: new_resolved, old_count: old_resolved },
        );
    }
    if new_resolved > old_resolved {
        return Err(
            ResolveError::CountIncrease { new_count: new_resolved, old_count: old_resolved },
        );
    }
    let n: usize = old_paths.0.len();
    if n != new_paths.0.len() {
        return Err(ResolveError::LengthMismatch { old_len: n, new_len: new_paths.0.len() });
    }
    let take: usize = if sample_size <= n {
        sample_size
    } else {
        n
    };
    let mut state: u64 = if seed == 0 {
        DEFAULT_SEED
    } else {
        seed
    };
    let mut i: usize = 0;
    while i < take
        invariant
            i <= take,
            take <= n,
            take == sample_len(sample_size, n as nat),
            n == old_paths@.len(),
            n == new_paths@.len(),
            new_resolved == old_resolved,
            new_resolved == collections::count_resolved(new_paths@),
            old_resolved == collections::count_resolved(old_paths@),
            state == state_after(seed, i as nat),
            forall|j: nat|
                j < i ==> #[trigger] sample_agrees(old_paths@, new_paths@, seed, j),
        decreases take - i,
    {
        let e: usize = (next_rand(&mut state) as usize) % n;
        assert(state == state_after(seed, (i + 1) as nat));
        assert(e as int == sampled(seed, n as nat, i as nat));
        assert(old_paths@[e as int] == collections::optional_bytes(old_paths.0@[e as int]));
        assert(new_paths@[e as int] == collections::optional_bytes(new_paths.0@[e as int]));
        match (&old_paths.0[e], &new_paths.0[e]) {
            (None, None) => {},
            (None, Some(_)) => {
                let error = ResolveError::GainedResolution { entry: e };
                proof {
                    lemma_first(old_paths@, new_paths@, sample_size, seed, i as nat, error);
                }
                return Err(error);
            },
            (Some(_), None) => {
                let error = ResolveError::LostResolution { entry: e };
                proof {
                    lemma_first(old_paths@, new_paths@, sample_size, seed, i as nat, error);
                }
                return Err(error);
            },
            (Some(a), Some(b)) => {
                if !paths_equal(a, b) {
                    let old_path: PathBuf = a.clone();
                    let new_path: PathBuf = b.clone();
                    let error = ResolveError::PathMismatch { entry: e, old_path, new_path };
                    proof {
                        lemma_first(old_paths@, new_paths@, sample_size, seed, i as nat, error);
                    }
                    return Err(error);
                }
            },
        }
        i = i + 1;
    }
    proof {
        assert forall|j: nat| #[trigger]
            first_discrepancy(old_paths@, new_paths@, sample_size, seed, j) implies false by {
            assert(sample_agrees(old_paths@, new_paths@, seed, j));
        }
    }
    Ok(())
}

/// A report of the first entry that the resolutions disagree on is the outcome.
proof fn lemma_first(
    old_paths: Seq<Option<Seq<u8>>>,
    new_paths: Seq<Option<Seq<u8>>>,
    sample_size: usize,
    seed: u64,
    i: nat,
    error: ResolveError,
)
    requires
        collections::count_resolved(old_paths) == collections::count_resolved(new_paths),
        old_paths.len() == new_paths.len(),
        first_discrepancy(old_paths, new_paths, sample_size, seed, i),
        reports_entry(
            error,
            sampled(seed, old_paths.len(), i),
            old_paths[sampled(seed, old_paths.len(), i)],
            new_paths[sampled(seed, old_paths.len(), i)],
        ),
    ensures
        compared(Err(error), old_paths, new_paths, sample_size, seed),
{
    assert forall|j: nat| #[trigger]
        first_discrepancy(old_paths, new_paths, sample_size, seed, j) implies j == i by {
        if j < i {
            assert(sample_agrees(old_paths, new_paths, seed, j));
        } else if i < j {
            assert(sample_agrees(old_paths, new_paths, seed, i));
        }
    }
}

/// A mismatch is reported of an entry with two different paths.
proof fn lemma_reported(
    error: ResolveError,
    old_paths: Seq<Option<Seq<u8>>>,
    new_paths: Seq<Option<Seq<u8>>>,
    sample_size: usize,
    seed: u64,
)
    requires
        compared(Err(error), old_paths, new_paths, sample_size, seed),
        error is PathMismatch,
    ensures
        exists|e: int|
            0 <= e < old_paths.len() && (#[trigger] old_paths[e]) is Some && new_paths[e] is Some
                && old_paths[e] != new_paths[e],
{
    let i = choose|i: nat|
        i < sample_len(sample_size, old_paths.len()) && !#[trigger] sample_agrees(
            old_paths,
            new_paths,
            seed,
            i,
        );
    let k = lemma_first_exists(old_paths, new_paths, sample_size, seed, i);
    let e = sampled(seed, old_paths.len(), k);
    assert(reports_entry(error, e, old_paths[e], new_paths[e]));
    assert(0 <= e < old_paths.len());
}

/// Where the resolutions disagree, there is a first discrepancy.
proof fn lemma_first_exists(
    old_paths: Seq<Option<Seq<u8>>>,
    new_paths: Seq<Option<Seq<u8>>>,
    sample_size: usize,
    seed: u64,
    i: nat,
) -> (k: nat)
    requires
        i < sample_len(sample_size, old_paths.len()),
        !sample_agrees(old_paths, new_paths, seed, i),
    ensures
        first_discrepancy(old_paths, new_paths, sample_size, seed, k),
    decreases i,
{
    if forall|j: nat| j < i ==> #[trigger] sample_agrees(old_paths, new_paths, seed, j) {
        i
    } else {
        let j = choose|j: nat|
            j < i && !#[trigger] sample_agrees(old_paths, new_paths, seed, j);
        lemma_first_exists(old_paths, new_paths, sample_size, seed, j)
    }
}

/// What a sample takes: the numbers of an xorshift64* generator in turn, from the seed, or from a
/// fixed number in place of 0; of each, the remainder by the number of entries.
pub proof fn lemma_sampled(seed: u64, n: nat, i: nat)
    ensures
        state_after(seed, 0) == (if seed == 0 {
            0xDEAD_BEEF_CAFE_BABEu64
        } else {
            seed
        }),
        ({
            let x = state_after(seed, i);
            let a = x ^ (x >> 12);
            let b = a ^ (a << 25);
            state_after(seed, i + 1) == b ^ (b >> 27)
        }),
        sampled(seed, n, i) == ((state_after(seed, i + 1).wrapping_mul(
            0x2545_F491_4F6C_DD1D,
        ) as usize) as int) % (n as int),
        n > 0 ==> 0 <= sampled(seed, n, i) < n,
{
}

/// A comparison succeeds exactly if both resolve as many of as many entries, and for each entry of
/// the sample, which takes no more than there are, both have the same path or neither any.
pub proof fn lemma_comparison_succeeds(
    r: Result<(), ResolveError>,
    old_paths: Seq<Option<Seq<u8>>>,
    new_paths: Seq<Option<Seq<u8>>>,
    sample_size: usize,
    seed: u64,
)
    requires
        compared(r, old_paths, new_paths, sample_size, seed),
    ensures
        r is Ok <==> collections::count_resolved(old_paths) == collections::count_resolved(
            new_paths,
        ) && old_paths.len() == new_paths.len() && forall|i: nat|
            #![trigger sampled(seed, old_paths.len(), i)]
            i < sample_size && i < old_paths.len() ==> ((old_paths[sampled(seed, old_paths.len(), i)] is None && new_paths[sampled(
                seed,
                old_paths.len(),
                i,
            )] is None) || (old_paths[sampled(seed, old_paths.len(), i)] is Some
                && new_paths[sampled(seed, old_paths.len(), i)] is Some && path_text::same_path(
                old_paths[sampled(seed, old_paths.len(), i)]->0,
                new_paths[sampled(seed, old_paths.len(), i)]->0,
            ))),
{
    if r is Ok {
        assert forall|i: nat|
            #![trigger sampled(seed, old_paths.len(), i)]
            i < sample_size && i < old_paths.len() implies ((old_paths[sampled(seed, old_paths.len(), i)] is None && new_paths[sampled(
                seed,
                old_paths.len(),
                i,
            )] is None) || (old_paths[sampled(seed, old_paths.len(), i)] is Some
                && new_paths[sampled(seed, old_paths.len(), i)] is Some && path_text::same_path(
                old_paths[sampled(seed, old_paths.len(), i)]->0,
                new_paths[sampled(seed, old_paths.len(), i)]->0,
            ))) by {
            assert(sample_agrees(old_paths, new_paths, seed, i));
        }
    } else if collections::count_resolved(old_paths) == collections::count_resolved(new_paths)
        && old_paths.len() == new_paths.len() {
        let i = choose|i: nat|
            i < sample_len(sample_size, old_paths.len()) && !#[trigger] sample_agrees(
                old_paths,
                new_paths,
                seed,
                i,
            );
        let e = sampled(seed, old_paths.len(), i);
        assert(!agree(old_paths[e], new_paths[e]));
    }
}

/// What a failed comparison reports: the counts, if they differ; else the numbers of entries, if
/// those differ; else the first entry of the sample that only one of the two resolves, or that
/// has different paths.
pub proof fn lemma_comparison_reports(
    error: ResolveError,
    old_paths: Seq<Option<Seq<u8>>>,
    new_paths: Seq<Option<Seq<u8>>>,
    sample_size: usize,
    seed: u64,
)
    requires
        compared(Err(error), old_paths, new_paths, sample_size, seed),
    ensures
        collections::count_resolved(new_paths) < collections::count_resolved(old_paths)
            <==> error is CountRegression,
        error matches ResolveError::CountRegression { new_count, old_count } ==> new_count
            == collections::count_resolved(new_paths) && old_count == collections::count_resolved(
            old_paths,
        ),
        collections::count_resolved(new_paths) > collections::count_resolved(old_paths)
            <==> error is CountIncrease,
        error matches ResolveError::CountIncrease { new_count, old_count } ==> new_count
            == collections::count_resolved(new_paths) && old_count == collections::count_resolved(
            old_paths,
        ),
        collections::count_resolved(new_paths) == collections::count_resolved(old_paths)
            && old_paths.len() != new_paths.len() <==> error is LengthMismatch,
        error matches ResolveError::LengthMismatch { old_len, new_len } ==> old_len
            == old_paths.len() && new_len == new_paths.len(),
        error is LostResolution || error is GainedResolution || error is PathMismatch
            ==> exists|i: nat|
            #![trigger sampled(seed, old_paths.len(), i)]
            i < sample_size && i < old_paths.len() && (match error {
                ResolveError::LostResolution { entry } => entry == sampled(
                    seed,
                    old_paths.len(),
                    i,
                ) && old_paths[entry as int] is Some && new_paths[entry as int] is None,
                ResolveError::GainedResolution { entry } => entry == sampled(
                    seed,
                    old_paths.len(),
                    i,
                ) && old_paths[entry as int] is None && new_paths[entry as int] is Some,
                ResolveError::PathMismatch { entry, old_path, new_path } => entry == sampled(
                    seed,
                    old_paths.len(),
                    i,
                ) && old_paths[entry as int] == Some(path_text::path_bytes(old_path))
                    && new_paths[entry as int] == Some(path_text::path_bytes(new_path))
                    && !path_text::same_path(
                    path_text::path_bytes(old_path),
                    path_text::path_bytes(new_path),
                ),
                _ => false,
            }) && forall|j: nat|
                #![trigger sampled(seed, old_paths.len(), j)]
                j < i ==> ((old_paths[sampled(seed, old_paths.len(), j)] is None && new_paths[sampled(
                seed,
                old_paths.len(),
                j,
            )] is None) || (old_paths[sampled(seed, old_paths.len(), j)] is Some
                && new_paths[sampled(seed, old_paths.len(), j)] is Some && path_text::same_path(
                old_paths[sampled(seed, old_paths.len(), j)]->0,
                new_paths[sampled(seed, old_paths.len(), j)]->0,
            ))),
{
    if collections::count_resolved(old_paths) == collections::count_resolved(new_paths)
        && old_paths.len() == new_paths.len() {
        let i = choose|i: nat|
            i < sample_len(sample_size, old_paths.len()) && !#[trigger] sample_agrees(
                old_paths,
                new_paths,
                seed,
                i,
            );
        let k = lemma_first_exists(old_paths, new_paths, sample_size, seed, i);
        let e = sampled(seed, old_paths.len(), k);
        assert(reports_entry(error, e, old_paths[e], new_paths[e]));
        assert(!agree(old_paths[e], new_paths[e]));
        assert forall|j: nat|
            #![trigger sampled(seed, old_paths.len(), j)]
            j < k implies ((old_paths[sampled(seed, old_paths.len(), j)] is None && new_paths[sampled(
                seed,
                old_paths.len(),
                j,
            )] is None) || (old_paths[sampled(seed, old_paths.len(), j)] is Some
                && new_paths[sampled(seed, old_paths.len(), j)] is Some && path_text::same_path(
                old_paths[sampled(seed, old_paths.len(), j)]->0,
                new_paths[sampled(seed, old_paths.len(), j)]->0,
            ))) by {
            assert(sample_agrees(old_paths, new_paths, seed, j));
        }
    }
}

/// Compares resolution along canonical parents with resolution by repeated passes, on entries
/// that are picked at random.
///
/// Both must resolve as many entries, and for each entry of the sample both must have the same
/// path or neither any. The first discrepancy is reported.
pub fn compare_resolvers_random_sample(
    file_names: &FileNameCollection<'_>,
    sample_size: usize,
    seed: u64,
) -> (r: Result<(), ResolveError>)
    ensures
        compared(
            r,
            multipass::multipass_paths(select::canonical_links(*file_names)),
            simple::simple_paths(select::canonical_links(*file_names)),
            sample_size,
            seed,
        ),
        multipass::multipass_paths(select::canonical_links(*file_names)) == simple::simple_paths(
            select::canonical_links(*file_names),
        ) ==> r is Ok,
        ancestry::none_lost(select::canonical_links(*file_names)) || ancestry::root_unlooped(
            select::canonical_links(*file_names),
        ) ==> (r is Ok <==> multipass::multipass_paths(select::canonical_links(*file_names))
            == simple::simple_paths(select::canonical_links(*file_names))),
        !(r matches Err(ResolveError::PathMismatch { .. })),
{
    let ghost links = select::canonical_links(*file_names);
    let old_paths: ResolvedPaths = resolve_paths_simple_multipass(file_names)?;
    let new_paths: ResolvedPaths = resolve_paths_simple(file_names)?;
    proof {
        multipass::lemma_canonical_valid(*file_names);
        if ancestry::root_unlooped(links) {
            ancestry::lemma_unlooped_root(links);
            ancestry::lemma_none_lost(links);
        }
        if ancestry::none_lost(links) {
            ancestry::lemma_counts_tell(links);
        }
        assert forall|e: int|
            0 <= e < links.len() && (#[trigger] old_paths@[e]) is Some
                && new_paths@[e] is Some implies old_paths@[e] == new_paths@[e] by {
            ancestry::lemma_never_two_paths(links, e);
        }
    }
    let r = compare_paths(&old_paths, &new_paths, sample_size, seed);
    proof {
        if r matches Err(ResolveError::PathMismatch { .. }) {
            lemma_reported(r->Err_0, old_paths@, new_paths@, sample_size, seed);
        }
    }
    r
}

} // verus!
