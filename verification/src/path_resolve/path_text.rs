//! Paths as the standard library builds, compares and sorts them.
//!
//! What a path holds is modelled by its encoded bytes. How a name is appended to a path and
//! when two paths are the same follow the rules of the platform that the crate is built for;
//! those rules are the standard library's, and appear here as names for its results.
use std::path::PathBuf;
use vstd::prelude::*;
use vstd::utf8::*;

verus! {

/// `std::path::PathBuf`, seen through [`path_bytes`] alone.
#[verifier::external_type_specification]
#[verifier::external_body]
pub struct ExPathBuf(PathBuf);

/// The bytes that a path holds (`OsStr::as_encoded_bytes` of it).
pub uninterp spec fn path_bytes(p: PathBuf) -> Seq<u8>;

/// What a path with the bytes `base`, at least one, holds after `PathBuf::push` of `name`.
pub uninterp spec fn pushed_bytes(base: Seq<u8>, name: Seq<char>) -> Seq<u8>;

/// Whether `==` holds of two paths with these bytes.
pub uninterp spec fn same_path(a: Seq<u8>, b: Seq<u8>) -> bool;

/// Whether `<=` holds of two paths with these bytes.
pub uninterp spec fn path_at_most(a: Seq<u8>, b: Seq<u8>) -> bool;

/// What `sort` makes of paths with these bytes.
pub uninterp spec fn sorted_bytes(paths: Seq<Seq<u8>>) -> Seq<Seq<u8>>;

/// The bytes of each of several paths.
pub open spec fn all_bytes(paths: Seq<PathBuf>) -> Seq<Seq<u8>> {
    Seq::new(paths.len(), |i: int| path_bytes(paths[i]))
}

/// The bytes of a path extended by a name.
pub open spec fn extended(base: Seq<u8>, name: Seq<char>) -> Seq<u8> {
    if base.len() == 0 {
        encode_utf8(name)
    } else {
        pushed_bytes(base, name)
    }
}

/// `PathBuf::new` makes the empty path.
pub assume_specification[ PathBuf::new ]() -> (r: PathBuf)
    ensures
        path_bytes(r) == Seq::<u8>::empty(),
;

/// `PathBuf::clone` makes a path that holds the same bytes.
pub assume_specification[ <PathBuf as Clone>::clone ](p: &PathBuf) -> (r: PathBuf)
    ensures
        path_bytes(r) == path_bytes(*p),
;

/// `PathBuf::from` makes a path that holds the text as it stands.
#[verifier::external_body]
pub(crate) fn path_from_name(name: &str) -> (r: PathBuf)
    ensures
        path_bytes(r) == encode_utf8(name@),
{
    PathBuf::from(name)
}

/// `PathBuf::push` extends a path by a name. The empty path becomes the name itself; what any
/// other becomes depends on its bytes and on the name alone.
#[verifier::external_body]
pub(crate) fn push_name(path: &mut PathBuf, name: &str)
    ensures
        path_bytes(*old(path)).len() == 0 ==> path_bytes(*final(path)) == encode_utf8(name@),
        path_bytes(*old(path)).len() > 0 ==> path_bytes(*final(path)) == pushed_bytes(
            path_bytes(*old(path)),
            name@,
        ),
{
    path.push(name);
}

/// `==` on paths. Whether it holds depends on their bytes alone, and it holds of equal ones.
#[verifier::external_body]
pub(crate) fn paths_equal(a: &PathBuf, b: &PathBuf) -> (r: bool)
    ensures
        r == same_path(path_bytes(*a), path_bytes(*b)),
        path_bytes(*a) == path_bytes(*b) ==> r,
{
    a == b
}

/// Each path of the list is at most any later one.
pub open spec fn ascending(paths: Seq<Seq<u8>>) -> bool {
    forall|i: int, j: int| 0 <= i < j < paths.len() ==> path_at_most(
        #[trigger] paths[i],
        #[trigger] paths[j],
    )
}

/// `==` and `<=` on these paths are as `Eq` and `Ord` ask: both are transitive, and paths are the
/// same exactly if each is at most the other.
pub open spec fn compared_as_asked(a: Seq<u8>, b: Seq<u8>, c: Seq<u8>) -> bool {
    &&& same_path(a, b) && same_path(b, c) ==> same_path(a, c)
    &&& path_at_most(a, b) && path_at_most(b, c) ==> path_at_most(a, c)
    &&& same_path(a, b) <==> path_at_most(a, b) && path_at_most(b, a)
}

/// `==` and `<=` are as `Eq` and `Ord` ask wherever this path is compared.
#[verifier::opaque]
pub open spec fn compares_well(path: Seq<u8>) -> bool {
    &&& same_path(path, path)
    &&& forall|a: Seq<u8>, b: Seq<u8>| #[trigger]
        compared_as_asked(path, a, b) && compared_as_asked(a, path, b)
}

/// What it means for a path to compare well.
pub proof fn lemma_compared(path: Seq<u8>, a: Seq<u8>, b: Seq<u8>)
    requires
        compares_well(path),
    ensures
        same_path(path, path),
        compared_as_asked(path, a, b),
        compared_as_asked(a, path, b),
{
    reveal(compares_well);
    assert(compared_as_asked(path, a, b));
}

/// `sort` (of slices) puts paths into ascending order and keeps them all; it is stable, so the
/// outcome depends on the bytes alone. It sorts by `Ord`, which is documented as a total order
/// that agrees with `==`: what that says of the sorted paths, compared with any, is the last
/// clause.
#[verifier::external_body]
pub(crate) fn sort_paths(paths: &mut Vec<PathBuf>)
    ensures
        all_bytes(final(paths)@) == sorted_bytes(all_bytes(old(paths)@)),
        all_bytes(final(paths)@).to_multiset() == all_bytes(old(paths)@).to_multiset(),
        forall|i: int, j: int|
            0 <= i < j < final(paths)@.len() ==> path_at_most(
                #[trigger] all_bytes(final(paths)@)[i],
                #[trigger] all_bytes(final(paths)@)[j],
            ),
        forall|i: int|
            0 <= i < final(paths)@.len() ==> compares_well(#[trigger] all_bytes(final(paths)@)[i]),
{
    paths.sort();
}

/// The list without each path that is the same as the last one kept before it.
pub open spec fn without_repeats(paths: Seq<Seq<u8>>) -> Seq<Seq<u8>>
    decreases paths.len(),
{
    if paths.len() <= 1 {
        paths
    } else {
        let kept = without_repeats(paths.drop_last());
        if same_path(paths.last(), kept.last()) {
            kept
        } else {
            kept.push(paths.last())
        }
    }
}

/// `Vec::dedup` drops each path that is the same as the one kept before it.
#[verifier::external_body]
pub(crate) fn drop_repeats(paths: &mut Vec<PathBuf>)
    ensures
        all_bytes(final(paths)@) == without_repeats(all_bytes(old(paths)@)),
{
    paths.dedup();
}

/// Paths in ascending order, none twice. A single path is left as it is.
pub open spec fn tidy(paths: Seq<Seq<u8>>) -> Seq<Seq<u8>> {
    if paths.len() > 1 {
        without_repeats(sorted_bytes(paths))
    } else {
        paths
    }
}

/// No path of the list is the same as an earlier one.
pub open spec fn all_differ(paths: Seq<Seq<u8>>) -> bool {
    forall|i: int, j: int| 0 <= i < j < paths.len() ==> !same_path(
        #[trigger] paths[j],
        #[trigger] paths[i],
    )
}

/// The paths hold the same bytes, or `==` holds of them; it does so in either case.
pub open spec fn path_matches(a: Seq<u8>, b: Seq<u8>) -> bool {
    a == b || same_path(a, b)
}

/// The list holds a path that matches this one.
pub open spec fn lists_path(paths: Seq<Seq<u8>>, path: Seq<u8>) -> bool {
    exists|i: int| 0 <= i < paths.len() && path_matches(path, #[trigger] paths[i])
}

/// `kept` stands for `all`: it holds nothing else, and whatever it leaves out matches a path that
/// it holds.
pub open spec fn stands_for(kept: Seq<Seq<u8>>, all: Seq<Seq<u8>>) -> bool {
    &&& forall|i: int| 0 <= i < kept.len() ==> all.contains(#[trigger] kept[i])
    &&& forall|j: int| 0 <= j < all.len() ==> lists_path(kept, #[trigger] all[j])
}

/// The paths, where there is more than one, compare well.
pub open spec fn all_compare_well(paths: Seq<Seq<u8>>) -> bool {
    paths.len() > 1 ==> forall|i: int| 0 <= i < paths.len() ==> compares_well(#[trigger] paths[i])
}

/// Paths of which `==` holds stay so when both are extended by a name.
pub open spec fn extending_keeps_sameness() -> bool {
    forall|a: Seq<u8>, b: Seq<u8>, name: Seq<char>|
        #![trigger same_path(a, b), extended(a, name)]
        same_path(a, b) ==> same_path(extended(a, name), extended(b, name))
}

/// What stands for a list holds a match of whatever matches a path of it.
pub proof fn lemma_stood_for_listed(
    kept: Seq<Seq<u8>>,
    all: Seq<Seq<u8>>,
    near: Seq<u8>,
    path: Seq<u8>,
)
    requires
        stands_for(kept, all),
        all_compare_well(all),
        all.contains(near),
        path_matches(path, near),
    ensures
        lists_path(kept, path),
{
    let j = choose|j: int| 0 <= j < all.len() && all[j] == near;
    assert(lists_path(kept, all[j]));
    let i = choose|i: int| 0 <= i < kept.len() && path_matches(near, #[trigger] kept[i]);
    if all.len() > 1 {
        assert(compares_well(all[j]));
        lemma_compared(near, path, kept[i]);
    } else {
        assert(all.contains(kept[i]));
        assert(kept[i] == near);
    }
    assert(path_matches(path, kept[i]));
}

/// The lists have as many paths, and matching paths in each place.
pub open spec fn same_lists(a: Seq<Seq<u8>>, b: Seq<Seq<u8>>) -> bool {
    &&& a.len() == b.len()
    &&& forall|i: int|
        #![trigger a[i]]
        #![trigger b[i]]
        0 <= i < a.len() ==> path_matches(a[i], b[i])
}

/// Every path of the one list is listed in the other.
pub open spec fn covered_by(a: Seq<Seq<u8>>, b: Seq<Seq<u8>>) -> bool {
    forall|i: int| 0 <= i < a.len() ==> lists_path(b, #[trigger] a[i])
}

/// The kept paths are in ascending order, none twice, and stand for all; those, where there is
/// more than one, compare well.
pub open spec fn is_tidy(kept: Seq<Seq<u8>>, all: Seq<Seq<u8>>) -> bool {
    &&& all_differ(kept)
    &&& ascending(kept)
    &&& stands_for(kept, all)
    &&& all_compare_well(all)
}

/// Lists of paths that hold the same ones hold them in the same places once they are tidy.
pub proof fn lemma_tidy_in_same_places(a: Seq<Seq<u8>>, b: Seq<Seq<u8>>)
    requires
        is_tidy(tidy(a), a),
        is_tidy(tidy(b), b),
        covered_by(tidy(a), tidy(b)),
        covered_by(tidy(b), tidy(a)),
    ensures
        same_lists(tidy(a), tidy(b)),
{
    if a.len() > 1 {
        lemma_kept_compare_well(tidy(a), a);
    }
    if b.len() > 1 {
        lemma_kept_compare_well(tidy(b), b);
    }
    if a.len() > 1 && b.len() > 1 {
        lemma_same_paths_same_places(tidy(a), tidy(b));
    } else {
        lemma_short_in_same_places(tidy(a), tidy(b));
    }
}

/// Lists without repeats that hold the same paths have as many, if one has no more than one.
proof fn lemma_short_in_same_places(a: Seq<Seq<u8>>, b: Seq<Seq<u8>>)
    requires
        a.len() <= 1 || b.len() <= 1,
        all_differ(a),
        all_differ(b),
        a.len() > 1 ==> forall|i: int| 0 <= i < a.len() ==> compares_well(#[trigger] a[i]),
        b.len() > 1 ==> forall|i: int| 0 <= i < b.len() ==> compares_well(#[trigger] b[i]),
        covered_by(a, b),
        covered_by(b, a),
    ensures
        same_lists(a, b),
{
    if a.len() > 0 {
        assert(lists_path(b, a[0]));
    }
    if b.len() > 0 {
        assert(lists_path(a, b[0]));
    }
    if b.len() == 1 {
        assert forall|i: int| 0 <= i < a.len() implies path_matches(#[trigger] a[i], b[0]) by {
            assert(lists_path(b, a[i]));
        }
        if a.len() > 1 {
            lemma_one_match(a, b[0]);
        }
    }
    if a.len() == 1 && b.len() > 1 {
        assert forall|i: int| 0 <= i < b.len() implies path_matches(#[trigger] b[i], a[0]) by {
            assert(lists_path(a, b[i]));
        }
        lemma_one_match(b, a[0]);
    }
}

/// What is left of a list compares well if the list does.
proof fn lemma_kept_compare_well(kept: Seq<Seq<u8>>, all: Seq<Seq<u8>>)
    requires
        stands_for(kept, all),
        all_compare_well(all),
        all.len() > 1,
    ensures
        forall|i: int| 0 <= i < kept.len() ==> compares_well(#[trigger] kept[i]),
{
    assert forall|i: int| 0 <= i < kept.len() implies compares_well(#[trigger] kept[i]) by {
        assert(all.contains(kept[i]));
        let j = choose|j: int| 0 <= j < all.len() && all[j] == kept[i];
        assert(compares_well(all[j]));
    }
}

/// No more than one path without repeats matches another.
proof fn lemma_one_match(a: Seq<Seq<u8>>, path: Seq<u8>)
    requires
        all_differ(a),
        forall|i: int| 0 <= i < a.len() ==> compares_well(#[trigger] a[i]),
        forall|i: int| 0 <= i < a.len() ==> path_matches(#[trigger] a[i], path),
    ensures
        a.len() <= 1,
{
    if a.len() > 1 {
        assert(compares_well(a[0]) && compares_well(a[1]));
        assert(path_matches(a[0], path) && path_matches(a[1], path));
        lemma_compared(a[0], path, path);
        lemma_compared(a[1], path, a[0]);
        assert(same_path(a[1], a[0]));
    }
}

/// Ascending lists without repeats that hold the same paths hold them in the same places.
proof fn lemma_same_paths_same_places(a: Seq<Seq<u8>>, b: Seq<Seq<u8>>)
    requires
        forall|i: int| 0 <= i < a.len() ==> compares_well(#[trigger] a[i]),
        forall|i: int| 0 <= i < b.len() ==> compares_well(#[trigger] b[i]),
        ascending(a),
        ascending(b),
        all_differ(a),
        all_differ(b),
        covered_by(a, b),
        covered_by(b, a),
    ensures
        same_lists(a, b),
{
    let to_b = places(a, b);
    let to_a = places(b, a);
    lemma_places_increase(a, b);
    lemma_places_increase(b, a);
    if a.len() > 0 {
        lemma_increasing(to_b, b.len() as int, a.len() - 1);
    }
    if b.len() > 0 {
        lemma_increasing(to_a, a.len() as int, b.len() - 1);
    }
    assert forall|i: int| 0 <= i < a.len() implies path_matches(a[i], b[i]) by {
        lemma_increasing(to_b, b.len() as int, i);
        assert(to_b[i] == i);
    }
}

/// Where in `b` the paths of `a` stand.
spec fn places(a: Seq<Seq<u8>>, b: Seq<Seq<u8>>) -> Seq<int> {
    Seq::new(
        a.len(),
        |i: int| choose|j: int| 0 <= j < b.len() && path_matches(a[i], #[trigger] b[j]),
    )
}

proof fn lemma_places_increase(a: Seq<Seq<u8>>, b: Seq<Seq<u8>>)
    requires
        forall|i: int| 0 <= i < a.len() ==> compares_well(#[trigger] a[i]),
        forall|i: int| 0 <= i < b.len() ==> compares_well(#[trigger] b[i]),
        ascending(a),
        ascending(b),
        all_differ(a),
        covered_by(a, b),
    ensures
        forall|i: int|
            0 <= i < a.len() ==> 0 <= #[trigger] places(a, b)[i] < b.len() && path_matches(
                a[i],
                b[places(a, b)[i]],
            ),
        forall|i: int, k: int|
            0 <= i < k < a.len() ==> #[trigger] places(a, b)[i] < #[trigger] places(a, b)[k],
{
    assert forall|i: int| 0 <= i < a.len() implies 0 <= #[trigger] places(a, b)[i] < b.len()
        && path_matches(a[i], b[places(a, b)[i]]) by {
        assert(lists_path(b, a[i]));
    }
    assert forall|i: int, k: int| 0 <= i < k < a.len() implies #[trigger] places(a, b)[i]
        < #[trigger] places(a, b)[k] by {
        let j = places(a, b)[i];
        let m = places(a, b)[k];
        assert(compares_well(a[i]) && compares_well(a[k]) && compares_well(b[j]));
        assert(path_matches(a[i], b[j]) && path_matches(a[k], b[m]));
        if m <= j {
            lemma_compared(a[i], b[j], a[i]);
            lemma_compared(a[i], a[i], a[i]);
            assert(path_at_most(b[j], a[i]));
            lemma_compared(a[k], a[k], a[k]);
            lemma_compared(a[k], b[m], b[j]);
            assert(path_at_most(a[k], b[m]));
            lemma_compared(b[j], b[j], b[j]);
            assert(path_at_most(b[m], b[j]));
            lemma_compared(a[k], b[j], a[i]);
            assert(path_at_most(a[k], a[i]));
            assert(path_at_most(a[i], a[k]));
            lemma_compared(a[k], a[i], a[k]);
            assert(same_path(a[k], a[i]));
        }
    }
}

/// What increases below a bound leaves no more room than there is.
proof fn lemma_increasing(s: Seq<int>, bound: int, i: int)
    requires
        forall|k: int| 0 <= k < s.len() ==> 0 <= #[trigger] s[k] < bound,
        forall|k: int, m: int| 0 <= k < m < s.len() ==> #[trigger] s[k] < #[trigger] s[m],
        0 <= i < s.len(),
    ensures
        i <= s[i] <= bound - s.len() + i,
{
    lemma_increasing_from(s, i);
    lemma_increasing_to(s, bound, i);
}

proof fn lemma_increasing_from(s: Seq<int>, i: int)
    requires
        forall|k: int| 0 <= k < s.len() ==> 0 <= #[trigger] s[k],
        forall|k: int, m: int| 0 <= k < m < s.len() ==> #[trigger] s[k] < #[trigger] s[m],
        0 <= i < s.len(),
    ensures
        i <= s[i],
    decreases i,
{
    if i > 0 {
        lemma_increasing_from(s, i - 1);
        assert(s[i - 1] < s[i]);
    }
}

proof fn lemma_increasing_to(s: Seq<int>, bound: int, i: int)
    requires
        forall|k: int| 0 <= k < s.len() ==> #[trigger] s[k] < bound,
        forall|k: int, m: int| 0 <= k < m < s.len() ==> #[trigger] s[k] < #[trigger] s[m],
        0 <= i < s.len(),
    ensures
        s[i] <= bound - s.len() + i,
    decreases s.len() - i,
{
    if i < s.len() - 1 {
        lemma_increasing_to(s, bound, i + 1);
        assert(s[i] < s[i + 1]);
    }
}

/// Where the paths that [`without_repeats`] keeps stand in the list.
spec fn kept_positions(paths: Seq<Seq<u8>>) -> Seq<int>
    decreases paths.len(),
{
    if paths.len() == 0 {
        Seq::empty()
    } else if paths.len() == 1 {
        seq![0]
    } else {
        let kept = without_repeats(paths.drop_last());
        let positions = kept_positions(paths.drop_last());
        if same_path(paths.last(), kept.last()) {
            positions
        } else {
            positions.push(paths.len() - 1)
        }
    }
}

proof fn lemma_kept_positions(paths: Seq<Seq<u8>>)
    ensures
        kept_positions(paths).len() == without_repeats(paths).len(),
        paths.len() > 0 ==> without_repeats(paths).len() > 0,
        forall|i: int|
            0 <= i < without_repeats(paths).len() ==> 0 <= #[trigger] kept_positions(paths)[i]
                < paths.len() && without_repeats(paths)[i] == paths[kept_positions(paths)[i]],
        forall|i: int, j: int|
            0 <= i < j < without_repeats(paths).len() ==> #[trigger] kept_positions(paths)[i]
                < #[trigger] kept_positions(paths)[j],
    decreases paths.len(),
{
    if paths.len() > 1 {
        lemma_kept_positions(paths.drop_last());
    }
}

/// No path of the list is the same as an earlier one unless all between them are, too.
spec fn grouped(paths: Seq<Seq<u8>>) -> bool {
    forall|i: int, j: int, k: int|
        0 <= i <= j <= k < paths.len() && #[trigger] same_path(paths[k], paths[i])
            ==> #[trigger] same_path(paths[k], paths[j])
}

/// In an ascending list the same paths stand together.
proof fn lemma_ascending_grouped(paths: Seq<Seq<u8>>)
    requires
        ascending(paths),
        forall|i: int| 0 <= i < paths.len() ==> compares_well(#[trigger] paths[i]),
    ensures
        grouped(paths),
{
    assert forall|i: int, j: int, k: int|
        0 <= i <= j <= k < paths.len() && #[trigger] same_path(
            paths[k],
            paths[i],
        ) implies #[trigger] same_path(paths[k], paths[j]) by {
        assert(compares_well(paths[k]));
        lemma_compared(paths[k], paths[i], paths[j]);
        lemma_compared(paths[k], paths[j], paths[i]);
        if i < j && j < k {
            assert(path_at_most(paths[i], paths[j]));
            assert(path_at_most(paths[j], paths[k]));
        }
    }
}

/// Dropping repeats from a grouped list leaves no path twice.
proof fn lemma_grouped_differ(paths: Seq<Seq<u8>>)
    requires
        grouped(paths),
    ensures
        all_differ(without_repeats(paths)),
    decreases paths.len(),
{
    if paths.len() > 1 {
        let shorter = paths.drop_last();
        let kept = without_repeats(shorter);
        assert forall|i: int, j: int, k: int|
            0 <= i <= j <= k < shorter.len() && #[trigger] same_path(
                shorter[k],
                shorter[i],
            ) implies #[trigger] same_path(shorter[k], shorter[j]) by {
            assert(same_path(paths[k], paths[i]));
        }
        lemma_grouped_differ(shorter);
        lemma_kept_positions(shorter);
        if !same_path(paths.last(), kept.last()) {
            let k = paths.len() - 1;
            assert forall|i: int| 0 <= i < kept.len() implies !same_path(
                paths.last(),
                #[trigger] kept[i],
            ) by {
                let p = kept_positions(shorter)[i];
                let q = kept_positions(shorter)[kept.len() - 1];
                assert(p <= q);
                assert(kept[i] == paths[p]);
                assert(kept.last() == paths[q]);
                if same_path(paths[k], paths[p]) {
                    assert(same_path(paths[k], paths[q]));
                }
            }
        }
    }
}

/// What is kept when repeats are dropped stands for the list.
proof fn lemma_kept_stands_for(paths: Seq<Seq<u8>>)
    ensures
        stands_for(without_repeats(paths), paths),
    decreases paths.len(),
{
    let kept = without_repeats(paths);
    lemma_kept_positions(paths);
    assert forall|i: int| 0 <= i < kept.len() implies paths.contains(#[trigger] kept[i]) by {
        assert(kept[i] == paths[kept_positions(paths)[i]]);
    }
    if paths.len() > 1 {
        let shorter = paths.drop_last();
        let earlier = without_repeats(shorter);
        lemma_kept_stands_for(shorter);
        lemma_kept_positions(shorter);
        assert forall|j: int| 0 <= j < paths.len() implies lists_path(
            kept,
            #[trigger] paths[j],
        ) by {
            if j < shorter.len() {
                assert(shorter[j] == paths[j]);
                assert(lists_path(earlier, shorter[j]));
                let i = choose|i: int|
                    0 <= i < earlier.len() && path_matches(paths[j], #[trigger] earlier[i]);
                assert(kept[i] == earlier[i]);
            } else if same_path(paths.last(), earlier.last()) {
                assert(kept[earlier.len() - 1] == earlier.last());
            } else {
                assert(kept[earlier.len() as int] == paths[j]);
            }
        }
    } else {
        assert forall|j: int| 0 <= j < paths.len() implies lists_path(
            kept,
            #[trigger] paths[j],
        ) by {
            assert(kept[j] == paths[j]);
        }
    }
}

/// Lists of the same paths, in whatever order, are stood for by the same ones and compare alike.
proof fn lemma_stands_for_rearranged(kept: Seq<Seq<u8>>, a: Seq<Seq<u8>>, b: Seq<Seq<u8>>)
    requires
        stands_for(kept, a),
        a.to_multiset() == b.to_multiset(),
    ensures
        stands_for(kept, b),
        all_compare_well(a) ==> all_compare_well(b),
{
    a.to_multiset_ensures();
    b.to_multiset_ensures();
    assert forall|x: Seq<u8>| a.contains(x) <==> b.contains(x) by {
        assert(a.contains(x) <==> a.to_multiset().count(x) > 0);
        assert(b.contains(x) <==> b.to_multiset().count(x) > 0);
    }
    assert forall|j: int| 0 <= j < b.len() implies lists_path(kept, #[trigger] b[j]) by {
        assert(b.contains(b[j]));
        let k = choose|k: int| 0 <= k < a.len() && a[k] == b[j];
        assert(lists_path(kept, a[k]));
    }
    assert forall|j: int| 0 <= j < b.len() && all_compare_well(a) && b.len() > 1 implies
        compares_well(#[trigger] b[j]) by {
        assert(b.contains(b[j]));
        let k = choose|k: int| 0 <= k < a.len() && a[k] == b[j];
        assert(compares_well(a[k]));
    }
}

/// Dropping repeats keeps the order.
proof fn lemma_kept_ascending(paths: Seq<Seq<u8>>)
    requires
        ascending(paths),
    ensures
        ascending(without_repeats(paths)),
{
    lemma_kept_positions(paths);
    let kept = without_repeats(paths);
    assert forall|i: int, j: int| 0 <= i < j < kept.len() implies path_at_most(
        #[trigger] kept[i],
        #[trigger] kept[j],
    ) by {
        let p = kept_positions(paths)[i];
        let q = kept_positions(paths)[j];
        assert(path_at_most(paths[p], paths[q]));
    }
}

/// Sorts the paths and drops repeats, if there is more than one.
pub fn tidy_paths(paths: &mut Vec<PathBuf>)
    ensures
        all_bytes(final(paths)@) == tidy(all_bytes(old(paths)@)),
        is_tidy(all_bytes(final(paths)@), all_bytes(old(paths)@)),
{
    if paths.len() > 1 {
        sort_paths(paths);
        proof {
            lemma_ascending_grouped(all_bytes(paths@));
            lemma_grouped_differ(all_bytes(paths@));
            lemma_kept_ascending(all_bytes(paths@));
            lemma_kept_stands_for(all_bytes(paths@));
            lemma_stands_for_rearranged(
                without_repeats(all_bytes(paths@)),
                all_bytes(paths@),
                all_bytes(old(paths)@),
            );
        }
        drop_repeats(paths);
    } else {
        proof {
            lemma_kept_stands_for(all_bytes(paths@));
        }
    }
}

} // verus!
