//! Selection of the file names that paths are built from.
use crate::fast_entry::{FileNameCollection, FileNameRef};
use crate::path_resolve::decode;
use vstd::prelude::*;

verus! {

/// Precedence of a file-name namespace, 0 being the most preferred: Win32, then Win32 and DOS,
/// then POSIX, then DOS, then anything else.
pub open spec fn precedence(ns: u8) -> u8 {
    if ns == 1 {
        0
    } else if ns == 3 {
        1
    } else if ns == 0 {
        2
    } else if ns == 2 {
        3
    } else {
        4
    }
}

/// Precedence of a namespace code, lower being preferred.
pub fn ns_rank(ns: u8) -> (r: u8)
    ensures
        r == precedence(ns),
        r == (if ns == 1 {
            0u8
        } else if ns == 3 {
            1
        } else if ns == 0 {
            2
        } else if ns == 2 {
            3
        } else {
            4
        }),
{
    match ns {
        1 => 0,
        3 => 1,
        0 => 2,
        2 => 3,
        _ => 4,
    }
}

/// The entry number of the parent: the low 48 bits of the reference.
pub open spec fn parent_entry(parent_ref: u64) -> usize {
    (parent_ref & 0xFFFF_FFFF_FFFF) as usize
}

/// The parent entry that a file name refers to.
pub open spec fn parent_of(name: FileNameRef) -> int {
    parent_entry(name.parent_ref) as int
}

/// The entry number in a parent reference.
pub fn parent_record(parent_ref: u64) -> (r: usize)
    ensures
        r == parent_entry(parent_ref),
        r == (parent_ref % 0x1_0000_0000_0000) as usize,
{
    proof {
        lemma_parent_entry_ignores_sequence(parent_ref);
    }
    (parent_ref & 0xFFFF_FFFF_FFFF) as usize
}

/// The sequence number above the low 48 bits has no say in which entry is the parent.
pub proof fn lemma_parent_entry_ignores_sequence(parent_ref: u64)
    ensures
        parent_ref & 0xFFFF_FFFF_FFFF == parent_ref % 0x1_0000_0000_0000,
        parent_entry(parent_ref) == (parent_ref % 0x1_0000_0000_0000) as usize,
{
    assert(parent_ref & 0xFFFF_FFFF_FFFF == parent_ref % 0x1_0000_0000_0000) by (bit_vector);
}

/// No name precedes that at `i`, and any before it is less preferred.
pub open spec fn is_preferred(names: Seq<FileNameRef>, i: int) -> bool {
    &&& 0 <= i < names.len()
    &&& forall|j: int|
        0 <= j < names.len() ==> precedence(names[i].namespace) <= precedence(
            #[trigger] names[j].namespace,
        )
    &&& forall|j: int|
        0 <= j < i ==> precedence(names[i].namespace) < precedence(#[trigger] names[j].namespace)
}

/// The canonical one of several names: the first of those with the most preferred namespace.
pub open spec fn canonical<'a>(names: Seq<FileNameRef<'a>>) -> FileNameRef<'a> {
    names[choose|i: int| is_preferred(names, i)]
}

/// At most one name is the canonical one.
pub proof fn lemma_preferred_unique(names: Seq<FileNameRef>, i: int)
    requires
        is_preferred(names, i),
    ensures
        canonical(names) == names[i],
{
    let c = choose|c: int| is_preferred(names, c);
    assert(is_preferred(names, c));
    if c < i {
        assert(precedence(names[i].namespace) < precedence(names[c].namespace));
    } else if i < c {
        assert(precedence(names[c].namespace) < precedence(names[i].namespace));
    }
}

/// One more name becomes the canonical one only if it is strictly preferred.
pub proof fn lemma_canonical_push<'a>(names: Seq<FileNameRef<'a>>, f: FileNameRef<'a>)
    ensures
        canonical(names.push(f)) == (if names.len() == 0 || precedence(f.namespace) < precedence(
            canonical(names).namespace,
        ) {
            f
        } else {
            canonical(names)
        }),
{
    let longer = names.push(f);
    if names.len() == 0 {
        assert(is_preferred(longer, 0));
        lemma_preferred_unique(longer, 0);
    } else {
        lemma_preferred_exists(names);
        let c = choose|c: int| is_preferred(names, c);
        assert(is_preferred(names, c));
        let i = if precedence(f.namespace) < precedence(names[c].namespace) {
            names.len() as int
        } else {
            c
        };
        assert forall|j: int| 0 <= j < longer.len() implies precedence(longer[i].namespace)
            <= precedence(#[trigger] longer[j].namespace) by {
            if j < names.len() {
                assert(longer[j] == names[j]);
                assert(precedence(names[c].namespace) <= precedence(names[j].namespace));
            }
        }
        assert forall|j: int| 0 <= j < i implies precedence(longer[i].namespace) < precedence(
            #[trigger] longer[j].namespace,
        ) by {
            assert(longer[j] == names[j]);
            assert(precedence(names[c].namespace) <= precedence(names[j].namespace));
        }
        assert(is_preferred(longer, i));
        lemma_preferred_unique(longer, i);
    }
}

/// Any names have a canonical one.
pub proof fn lemma_preferred_exists(names: Seq<FileNameRef>)
    requires
        names.len() > 0,
    ensures
        exists|i: int| is_preferred(names, i),
    decreases names.len(),
{
    if names.len() == 1 {
        assert(is_preferred(names, 0));
    } else {
        let shorter = names.drop_last();
        lemma_preferred_exists(shorter);
        let c = choose|c: int| is_preferred(shorter, c);
        assert(is_preferred(shorter, c));
        let last = names.len() - 1;
        let i = if precedence(names[last].namespace) < precedence(names[c].namespace) {
            last
        } else {
            c
        };
        assert forall|j: int| 0 <= j < names.len() implies precedence(names[i].namespace)
            <= precedence(#[trigger] names[j].namespace) by {
            if j < last {
                assert(shorter[j] == names[j]);
                assert(precedence(shorter[c].namespace) <= precedence(shorter[j].namespace));
            }
        }
        assert forall|j: int| 0 <= j < i implies precedence(names[i].namespace) < precedence(
            #[trigger] names[j].namespace,
        ) by {
            assert(shorter[j] == names[j]);
            assert(precedence(shorter[c].namespace) <= precedence(shorter[j].namespace));
        }
        assert(is_preferred(names, i));
    }
}

/// Some name has this namespace.
pub open spec fn has_namespace(names: Seq<FileNameRef>, ns: u8) -> bool {
    exists|i: int| 0 <= i < names.len() && #[trigger] names[i].namespace == ns
}

/// A Win32 name is canonical wherever there is one, else a Win32-and-DOS name, else a POSIX
/// name, else a DOS name, else the first name of all.
pub proof fn lemma_canonical_namespace(names: Seq<FileNameRef>)
    requires
        names.len() > 0,
    ensures
        names.contains(canonical(names)),
        has_namespace(names, 1) ==> canonical(names).namespace == 1,
        !has_namespace(names, 1) && has_namespace(names, 3) ==> canonical(names).namespace == 3,
        !has_namespace(names, 1) && !has_namespace(names, 3) && has_namespace(names, 0)
            ==> canonical(names).namespace == 0,
        !has_namespace(names, 1) && !has_namespace(names, 3) && !has_namespace(names, 0)
            && has_namespace(names, 2) ==> canonical(names).namespace == 2,
        !has_namespace(names, 1) && !has_namespace(names, 3) && !has_namespace(names, 0)
            && !has_namespace(names, 2) ==> canonical(names) == names[0],
{
    lemma_preferred_exists(names);
    let c = choose|c: int| is_preferred(names, c);
    assert(is_preferred(names, c));
    assert(names[c].namespace == canonical(names).namespace);
    assert(c != 0 ==> precedence(names[c].namespace) < precedence(names[0].namespace));
}

/// Precedence goes Win32, Win32 and DOS, POSIX, DOS; all other namespaces come last, alike.
pub proof fn lemma_precedence(a: u8, b: u8)
    ensures
        a == 1 && b != 1 ==> precedence(a) < precedence(b),
        a == 3 && b != 1 && b != 3 ==> precedence(a) < precedence(b),
        a == 0 && (b == 2 || b > 3) ==> precedence(a) < precedence(b),
        a == 2 && b > 3 ==> precedence(a) < precedence(b),
        a > 3 && b > 3 ==> precedence(a) == precedence(b),
{
}

/// The name that comes before all others, by namespace and then by place, is the canonical one.
pub proof fn lemma_canonical_is_first(names: Seq<FileNameRef>, i: int)
    requires
        0 <= i < names.len(),
        forall|j: int|
            0 <= j < names.len() ==> {
                &&& (#[trigger] names[j]).namespace == 1 ==> names[i].namespace == 1
                &&& names[j].namespace == 3 ==> names[i].namespace == 1 || names[i].namespace == 3
                &&& names[j].namespace == 0 ==> names[i].namespace <= 3 && names[i].namespace != 2
                &&& names[j].namespace == 2 ==> names[i].namespace <= 3
                &&& j < i ==> names[i].namespace <= 3 && names[j].namespace != names[i].namespace
            },
    ensures
        canonical(names) == names[i],
{
    assert(is_preferred(names, i));
    lemma_preferred_unique(names, i);
}

/// Some name comes before all others, by namespace and then by place.
pub proof fn lemma_first_name_exists(names: Seq<FileNameRef>)
    requires
        names.len() > 0,
    ensures
        exists|i: int|
            0 <= i < names.len() && #[trigger] names[i] == canonical(names) && (
            forall|j: int|
                0 <= j < names.len() ==> {
                    &&& (#[trigger] names[j]).namespace == 1 ==> names[i].namespace == 1
                    &&& names[j].namespace == 3 ==> names[i].namespace == 1 || names[i].namespace == 3
                    &&& names[j].namespace == 0 ==> names[i].namespace <= 3 && names[i].namespace != 2
                    &&& names[j].namespace == 2 ==> names[i].namespace <= 3
                    &&& j < i ==> names[i].namespace <= 3 && names[j].namespace != names[i].namespace
                }),
{
    lemma_preferred_exists(names);
    let i = choose|i: int| is_preferred(names, i);
    lemma_preferred_unique(names, i);
    assert(names[i] == canonical(names));
    assert forall|j: int| 0 <= j < names.len() implies precedence(names[i].namespace)
        <= precedence((#[trigger] names[j]).namespace) && (j < i ==> precedence(names[i].namespace)
        < precedence(names[j].namespace)) by {
        assert(precedence(names[i].namespace) <= precedence(names[j].namespace));
    }
}

/// Picks the canonical name among the candidates.
pub fn choose_best<'a, 'b>(candidates: &'b [FileNameRef<'a>]) -> (r: Option<&'b FileNameRef<'a>>)
    ensures
        r is Some <==> candidates@.len() > 0,
        r matches Some(best) ==> *best == canonical(candidates@),
        r matches Some(best) ==> exists|i: int|
            is_preferred(candidates@, i) && *best == #[trigger] candidates@[i],
        r matches Some(best) ==> exists|i: int|
            0 <= i < candidates@.len() && *best == #[trigger] candidates@[i] && (
            forall|j: int|
                0 <= j < candidates@.len() ==> {
                    &&& (#[trigger] candidates@[j]).namespace == 1 ==> candidates@[i].namespace == 1
                    &&& candidates@[j].namespace == 3 ==> candidates@[i].namespace == 1 || candidates@[i].namespace == 3
                    &&& candidates@[j].namespace == 0 ==> candidates@[i].namespace <= 3 && candidates@[i].namespace != 2
                    &&& candidates@[j].namespace == 2 ==> candidates@[i].namespace <= 3
                    &&& j < i ==> candidates@[i].namespace <= 3 && candidates@[j].namespace != candidates@[i].namespace
                }),
{
    if candidates.len() == 0 {
        return None;
    }
    let mut best: usize = 0;
    let mut i: usize = 1;
    while i < candidates.len()
        invariant
            best < i <= candidates@.len(),
            forall|j: int|
                0 <= j < i ==> precedence(candidates@[best as int].namespace) <= precedence(
                    #[trigger] candidates@[j].namespace,
                ),
            forall|j: int|
                0 <= j < best ==> precedence(candidates@[best as int].namespace) < precedence(
                    #[trigger] candidates@[j].namespace,
                ),
        decreases candidates@.len() - i,
    {
        if ns_rank(candidates[i].namespace) < ns_rank(candidates[best].namespace) {
            best = i;
        }
        i = i + 1;
    }
    proof {
        assert(is_preferred(candidates@, best as int));
        lemma_preferred_unique(candidates@, best as int);
        lemma_first_name_exists(candidates@);
    }
    Some(&candidates[best])
}

/// A place in the directory tree: a parent entry and a name in it.
#[verifier::ext_equal]
pub struct Link {
    pub parent: int,
    pub name: Seq<char>,
}

/// The link that a file name stands for.
pub open spec fn link_of(name: FileNameRef) -> Link {
    Link { parent: parent_of(name), name: decode::utf16_text(name.name_utf16@) }
}

/// The canonical link of an entry with the given file names, among `n` entries: that of the
/// canonical name, unless there is none or its parent is not an entry.
pub open spec fn canonical_link(names: Seq<FileNameRef>, n: nat) -> Option<Link> {
    if names.len() > 0 && parent_of(canonical(names)) < n {
        Some(link_of(canonical(names)))
    } else {
        None
    }
}

/// The file names that are looked up for entry `e`.
pub open spec fn entry_names<'a>(file_names: FileNameCollection<'a>, e: int) -> Seq<
    FileNameRef<'a>,
> {
    file_names.names_at(e as u32)
}

/// The canonical link of every entry.
pub open spec fn canonical_links(file_names: FileNameCollection) -> Seq<Option<Link>> {
    Seq::new(
        file_names@.len(),
        |e: int| canonical_link(entry_names(file_names, e), file_names@.len()),
    )
}

/// The names that the links of an entry are selected from are those collected for it.
pub proof fn lemma_own_names(file_names: FileNameCollection, e: int)
    requires
        0 <= e < file_names@.len(),
        e <= u32::MAX,
    ensures
        entry_names(file_names, e) == file_names@[e],
{
}

/// The names of an entry are looked up by the low 32 bits of its number.
pub proof fn lemma_names_by_low_bits(file_names: FileNameCollection, e: u64)
    requires
        e < file_names@.len(),
    ensures
        entry_names(file_names, e as int) == file_names@[(e % 0x1_0000_0000) as int],
{
    assert(e as u32 == e % 0x1_0000_0000) by (bit_vector);
}

/// The name of an entry that comes before all its others, by namespace and then by place, makes
/// its canonical link, whatever the namespace: the parent is the low 48 bits of its reference,
/// and the name its text. There is no link if the parent is not an entry.
pub proof fn lemma_canonical_link(file_names: FileNameCollection, e: int, i: int)
    requires
        0 <= e < file_names@.len(),
        e <= u32::MAX,
        0 <= i < file_names@[e].len(),
        forall|j: int|
            0 <= j < file_names@[e].len() ==> {
                &&& (#[trigger] file_names@[e][j]).namespace == 1 ==> file_names@[e][i].namespace == 1
                &&& file_names@[e][j].namespace == 3 ==> file_names@[e][i].namespace == 1 || file_names@[e][i].namespace == 3
                &&& file_names@[e][j].namespace == 0 ==> file_names@[e][i].namespace <= 3 && file_names@[e][i].namespace != 2
                &&& file_names@[e][j].namespace == 2 ==> file_names@[e][i].namespace <= 3
                &&& j < i ==> file_names@[e][i].namespace <= 3 && file_names@[e][j].namespace != file_names@[e][i].namespace
            },
    ensures
        canonical_links(file_names).len() == file_names@.len(),
        (file_names@[e][i].parent_ref % 0x1_0000_0000_0000) as usize >= file_names@.len()
            ==> canonical_links(file_names)[e] is None,
        ((file_names@[e][i].parent_ref % 0x1_0000_0000_0000) as usize)
            < file_names@.len() ==> canonical_links(file_names)[e] == Some(
            (Link {
                parent: ((file_names@[e][i].parent_ref % 0x1_0000_0000_0000) as usize) as int,
                name: decode::utf16_text(file_names@[e][i].name_utf16@),
            }),
        ),
{
    lemma_own_names(file_names, e);
    lemma_canonical_is_first(file_names@[e], i);
    lemma_parent_entry_ignores_sequence(file_names@[e][i].parent_ref);
}

/// An entry without names has no canonical link.
pub proof fn lemma_nameless_entry(file_names: FileNameCollection, e: int)
    requires
        0 <= e < file_names@.len(),
        e <= u32::MAX,
        file_names@[e].len() == 0,
    ensures
        canonical_links(file_names)[e] is None,
        all_parent_links(file_names)[e].len() == 0,
{
    lemma_own_names(file_names, e);
}

/// A parent entry and the undecoded name in it.
#[derive(Clone, Copy, Debug)]
pub struct NameLink<'a> {
    pub parent: usize,
    pub name_utf16: &'a [u16],
}

impl<'a> View for NameLink<'a> {
    type V = Link;

    open spec fn view(&self) -> Link {
        Link { parent: self.parent as int, name: decode::utf16_text(self.name_utf16@) }
    }
}

/// The links that several optional ones stand for.
pub open spec fn optional_links(links: Seq<Option<NameLink>>) -> Seq<Option<Link>> {
    Seq::new(
        links.len(),
        |e: int|
            match links[e] {
                Some(l) => Some(l@),
                None => None,
            },
    )
}

/// Selects the canonical link of every entry.
pub fn select_canonical<'a>(file_names: &FileNameCollection<'a>) -> (links: Vec<
    Option<NameLink<'a>>,
>)
    ensures
        optional_links(links@) == canonical_links(*file_names),
        forall|e: int|
            0 <= e < links@.len() && (#[trigger] links@[e]) is Some ==> links@[e]->0.parent
                < links@.len(),
{
    let n: usize = file_names.entry_count();
    let mut links: Vec<Option<NameLink<'a>>> = Vec::new();
    let mut e: usize = 0;
    while e < n
        invariant
            n == file_names@.len(),
            e <= n,
            links@.len() == e,
            forall|i: int|
                0 <= i < e ==> #[trigger] optional_links(links@)[i] == canonical_links(
                    *file_names,
                )[i],
            forall|i: int|
                0 <= i < e && (#[trigger] links@[i]) is Some ==> links@[i]->0.parent < n,
        decreases n - e,
    {
        let names: &[FileNameRef<'a>] = file_names.filenames_for_entry(e as u32);
        let ghost before = links@;
        let mut link: Option<NameLink<'a>> = None;
        if let Some(best) = choose_best(names) {
            let parent: usize = parent_record(best.parent_ref);
            if parent < n {
                link = Some(NameLink { parent, name_utf16: best.name_utf16 });
            }
        }
        links.push(link);
        proof {
            assert forall|i: int| 0 <= i < e + 1 implies #[trigger] optional_links(links@)[i]
                == canonical_links(*file_names)[i] by {
                if i < e {
                    assert(links@[i] == before[i]);
                    assert(optional_links(before)[i] == canonical_links(*file_names)[i]);
                }
            }
        }
        e = e + 1;
    }
    assert(optional_links(links@) =~= canonical_links(*file_names));
    links
}

/// The names that refer to the parent `p`.
pub open spec fn with_parent<'a>(names: Seq<FileNameRef<'a>>, p: int) -> Seq<FileNameRef<'a>> {
    names.filter(|f: FileNameRef<'a>| parent_of(f) == p)
}

/// The parents, among `n` entries, that the names refer to, in the order of their first
/// mention.
pub open spec fn distinct_parents(names: Seq<FileNameRef>, n: nat) -> Seq<int>
    decreases names.len(),
{
    if names.len() == 0 {
        Seq::empty()
    } else {
        let earlier = distinct_parents(names.drop_last(), n);
        let p = parent_of(names.last());
        if p >= n || earlier.contains(p) {
            earlier
        } else {
            earlier.push(p)
        }
    }
}

/// One link for each distinct parent, by the canonical one of the names in it.
pub open spec fn parent_links(names: Seq<FileNameRef>, n: nat) -> Seq<Link> {
    Seq::new(
        distinct_parents(names, n).len(),
        |i: int| link_of(canonical(with_parent(names, distinct_parents(names, n)[i]))),
    )
}

/// The links of every entry to its parents.
pub open spec fn all_parent_links(file_names: FileNameCollection) -> Seq<Seq<Link>> {
    Seq::new(
        file_names@.len(),
        |e: int| parent_links(entry_names(file_names, e), file_names@.len()),
    )
}

/// The names with a parent, one name further on.
proof fn lemma_with_parent_step(names: Seq<FileNameRef>, k: int, p: int)
    requires
        0 <= k < names.len(),
    ensures
        with_parent(names.take(k + 1), p) == (if parent_of(names[k]) == p {
            with_parent(names.take(k), p).push(names[k])
        } else {
            with_parent(names.take(k), p)
        }),
{
    reveal(Seq::filter);
    assert(names.take(k + 1).drop_last() =~= names.take(k));
}

/// A distinct parent is an entry, and some name has it.
proof fn lemma_distinct_parents(names: Seq<FileNameRef>, n: nat)
    ensures
        distinct_parents(names, n).no_duplicates(),
        forall|i: int|
            0 <= i < distinct_parents(names, n).len() ==> {
                &&& 0 <= #[trigger] distinct_parents(names, n)[i] < n
                &&& with_parent(names, distinct_parents(names, n)[i]).len() > 0
                &&& parent_of(canonical(with_parent(names, distinct_parents(names, n)[i])))
                    == distinct_parents(names, n)[i]
            },
    decreases names.len(),
{
    if names.len() > 0 {
        let shorter = names.drop_last();
        let earlier = distinct_parents(shorter, n);
        let ps = distinct_parents(names, n);
        let k = names.len() - 1;
        lemma_distinct_parents(shorter, n);
        assert(names.take(k) =~= shorter);
        assert(names.take(k + 1) =~= names);
        assert forall|i: int| 0 <= i < ps.len() implies {
            &&& 0 <= #[trigger] ps[i] < n
            &&& with_parent(names, ps[i]).len() > 0
            &&& parent_of(canonical(with_parent(names, ps[i]))) == ps[i]
        } by {
            lemma_with_parent_step(names, k, ps[i]);
            if i < earlier.len() {
                assert(ps[i] == earlier[i]);
            } else {
                assert(parent_of(names[k]) == ps[i]);
            }
            if parent_of(names[k]) == ps[i] {
                lemma_canonical_push(with_parent(shorter, ps[i]), names[k]);
                if with_parent(shorter, ps[i]).len() > 0 {
                    lemma_canonical_in(shorter, ps[i]);
                }
            }
        }
    }
}

/// The canonical one of the names with a parent has that parent.
proof fn lemma_canonical_in(names: Seq<FileNameRef>, p: int)
    requires
        with_parent(names, p).len() > 0,
    ensures
        parent_of(canonical(with_parent(names, p))) == p,
{
    let some = with_parent(names, p);
    lemma_preferred_exists(some);
    let c = choose|c: int| is_preferred(some, c);
    assert(is_preferred(some, c));
    names.lemma_filter_pred(|f: FileNameRef| parent_of(f) == p, c);
}

/// The name at `k` stands for the link, and no other name with that parent precedes it.
pub open spec fn names_parent(names: Seq<FileNameRef>, k: int, link: Link) -> bool {
    &&& 0 <= k < names.len()
    &&& link_of(names[k]) == link
    &&& forall|j: int|
        0 <= j < names.len() && parent_of(#[trigger] names[j]) == link.parent ==> precedence(
            names[k].namespace,
        ) <= precedence(names[j].namespace)
}

/// Some name stands for the link, and no other name with its parent precedes it.
pub open spec fn is_named(names: Seq<FileNameRef>, link: Link) -> bool {
    exists|k: int| names_parent(names, k, link)
}

proof fn lemma_link_named(names: Seq<FileNameRef>, p: int)
    requires
        with_parent(names, p).len() > 0,
    ensures
        is_named(names, link_of(canonical(with_parent(names, p)))),
{
    let has = |f: FileNameRef| parent_of(f) == p;
    let some = with_parent(names, p);
    let best = canonical(some);
    lemma_canonical_in(names, p);
    lemma_preferred_exists(some);
    let c = choose|c: int| is_preferred(some, c);
    lemma_filtered_from(names, p, c);
    let k = choose|k: int| 0 <= k < names.len() && names[k] == some[c];
    assert forall|j: int|
        0 <= j < names.len() && parent_of(#[trigger] names[j]) == p implies precedence(
        names[k].namespace,
    ) <= precedence(names[j].namespace) by {
        names.lemma_filter_contains(has, j);
        let i = choose|i: int| 0 <= i < some.len() && some[i] == names[j];
        assert(precedence(some[c].namespace) <= precedence(some[i].namespace));
    }
    assert(names_parent(names, k, link_of(best)));
}

/// A name with a parent is one of the names.
proof fn lemma_filtered_from(names: Seq<FileNameRef>, p: int, c: int)
    requires
        0 <= c < with_parent(names, p).len(),
    ensures
        names.contains(with_parent(names, p)[c]),
    decreases names.len(),
{
    if names.len() == 0 {
        reveal(Seq::filter);
    } else {
        let last = names.len() - 1;
        let shorter = names.drop_last();
        assert(names.take(last) =~= shorter);
        assert(names.take(last + 1) =~= names);
        lemma_with_parent_step(names, last, p);
        if c < with_parent(shorter, p).len() {
            lemma_filtered_from(shorter, p, c);
            let k = choose|k: int| 0 <= k < shorter.len() && shorter[k] == with_parent(shorter, p)[c];
            assert(names[k] == with_parent(names, p)[c]);
        } else {
            assert(names[last] == with_parent(names, p)[c]);
        }
    }
}

/// The canonical one of all names is that of the names with its parent.
proof fn lemma_canonical_with_parent(names: Seq<FileNameRef>)
    requires
        names.len() > 0,
    ensures
        with_parent(names, parent_of(canonical(names))).len() > 0,
        canonical(with_parent(names, parent_of(canonical(names)))) == canonical(names),
    decreases names.len(),
{
    let last = names.len() - 1;
    let f = names[last];
    let shorter = names.drop_last();
    let p = parent_of(canonical(names));
    let some = with_parent(shorter, p);
    assert(names.take(last) =~= shorter);
    assert(names.take(last + 1) =~= names);
    assert(shorter.push(f) =~= names);
    lemma_with_parent_step(names, last, p);
    lemma_canonical_push(shorter, f);
    lemma_canonical_push(some, f);
    if shorter.len() == 0 {
        reveal(Seq::filter);
    } else if precedence(f.namespace) < precedence(canonical(shorter).namespace) {
        if some.len() > 0 {
            lemma_preferred_exists(some);
            let c = choose|c: int| is_preferred(some, c);
            lemma_filtered_from(shorter, p, c);
            let k = choose|k: int| 0 <= k < shorter.len() && shorter[k] == some[c];
            lemma_preferred_exists(shorter);
            let i = choose|i: int| is_preferred(shorter, i);
            assert(precedence(shorter[i].namespace) <= precedence(shorter[k].namespace));
        }
    } else {
        lemma_canonical_with_parent(shorter);
    }
}

/// The canonical link of an entry is one of its links to parents.
pub proof fn lemma_canonical_among_parents(names: Seq<FileNameRef>, n: nat)
    requires
        canonical_link(names, n) is Some,
    ensures
        parent_links(names, n).contains(canonical_link(names, n)->0),
{
    let p = parent_of(canonical(names));
    let ps = distinct_parents(names, n);
    lemma_canonical_with_parent(names);
    lemma_with_parent_mentioned(names, n, p);
    let i = choose|i: int| 0 <= i < ps.len() && ps[i] == p;
    assert(parent_links(names, n)[i] == canonical_link(names, n)->0);
}

/// Every distinct parent stands in exactly one link, by a name in it that no other name in it
/// precedes.
pub proof fn lemma_parent_links(names: Seq<FileNameRef>, n: nat)
    ensures
        parent_links(names, n).len() == distinct_parents(names, n).len(),
        distinct_parents(names, n).no_duplicates(),
        forall|i: int|
            0 <= i < parent_links(names, n).len() ==> {
                &&& 0 <= (#[trigger] parent_links(names, n)[i]).parent < n
                &&& parent_links(names, n)[i].parent == distinct_parents(names, n)[i]
            },
        forall|k: int|
            0 <= k < names.len() && parent_of(#[trigger] names[k]) < n ==> distinct_parents(
                names,
                n,
            ).contains(parent_of(names[k])),
        forall|i: int|
            0 <= i < parent_links(names, n).len() ==> is_named(
                names,
                #[trigger] parent_links(names, n)[i],
            ),
{
    lemma_distinct_parents(names, n);
    assert forall|i: int| 0 <= i < parent_links(names, n).len() implies is_named(
        names,
        #[trigger] parent_links(names, n)[i],
    ) by {
        lemma_link_named(names, distinct_parents(names, n)[i]);
    }
    assert forall|k: int|
        0 <= k < names.len() && parent_of(#[trigger] names[k]) < n implies distinct_parents(
        names,
        n,
    ).contains(parent_of(names[k])) by {
        lemma_mentioned(names, n, k);
    }
}

proof fn lemma_mentioned(names: Seq<FileNameRef>, n: nat, k: int)
    requires
        0 <= k < names.len(),
        parent_of(names[k]) < n,
    ensures
        distinct_parents(names, n).contains(parent_of(names[k])),
    decreases names.len(),
{
    let shorter = names.drop_last();
    let earlier = distinct_parents(shorter, n);
    let ps = distinct_parents(names, n);
    if k < names.len() - 1 {
        assert(shorter[k] == names[k]);
        lemma_mentioned(shorter, n, k);
        let i = choose|i: int| 0 <= i < earlier.len() && earlier[i] == parent_of(names[k]);
        assert(ps[i] == earlier[i]);
    } else if !earlier.contains(parent_of(names[k])) {
        assert(ps[earlier.len() as int] == parent_of(names[k]));
    }
}

/// Where the name at `i` comes before all others in its parent, it is the canonical one there.
proof fn lemma_first_in_parent(names: Seq<FileNameRef>, i: int, m: int)
    requires
        0 <= i < m <= names.len(),
        forall|j: int|
            0 <= j < names.len() && parent_of(#[trigger] names[j]) == parent_of(names[i])
                ==> precedence(names[i].namespace) <= precedence(names[j].namespace) && (j < i
                ==> precedence(names[i].namespace) < precedence(names[j].namespace)),
    ensures
        with_parent(names.take(m), parent_of(names[i])).len() > 0,
        canonical(with_parent(names.take(m), parent_of(names[i]))) == names[i],
    decreases m,
{
    let p = parent_of(names[i]);
    let some = with_parent(names.take(m - 1), p);
    lemma_with_parent_step(names, m - 1, p);
    lemma_canonical_push(some, names[m - 1]);
    if m - 1 > i {
        lemma_first_in_parent(names, i, m - 1);
    } else if some.len() > 0 {
        lemma_preferred_exists(some);
        let c = choose|c: int| is_preferred(some, c);
        lemma_preferred_unique(some, c);
        lemma_canonical_in(names.take(m - 1), p);
        lemma_filtered_from(names.take(m - 1), p, c);
        let shorter = names.take(m - 1);
        let k = choose|k: int| 0 <= k < shorter.len() && shorter[k] == some[c];
        assert(names[k] == some[c]);
    }
}

/// Some name in a parent comes before all others there, by precedence and then by place.
proof fn lemma_first_in_parent_exists(names: Seq<FileNameRef>, p: int) -> (i: int)
    requires
        with_parent(names, p).len() > 0,
    ensures
        0 <= i < names.len(),
        parent_of(names[i]) == p,
        forall|j: int|
            0 <= j < names.len() && parent_of(#[trigger] names[j]) == p ==> precedence(
                names[i].namespace,
            ) <= precedence(names[j].namespace) && (j < i ==> precedence(names[i].namespace)
                < precedence(names[j].namespace)),
    decreases names.len(),
{
    if names.len() == 0 {
        reveal(Seq::filter);
        0
    } else {
        let last = names.len() - 1;
        let shorter = names.drop_last();
        assert(names.take(last) =~= shorter);
        assert(names.take(last + 1) =~= names);
        lemma_with_parent_step(names, last, p);
        if with_parent(shorter, p).len() == 0 {
            assert forall|j: int| 0 <= j < last implies parent_of(#[trigger] names[j]) != p by {
                if parent_of(names[j]) == p {
                    assert(shorter[j] == names[j]);
                    shorter.lemma_filter_contains(|f: FileNameRef| parent_of(f) == p, j);
                    assert(with_parent(shorter, p).contains(shorter[j]));
                }
            }
            last
        } else {
            let i = lemma_first_in_parent_exists(shorter, p);
            assert(shorter[i] == names[i]);
            assert forall|j: int| 0 <= j < last && parent_of(#[trigger] names[j]) == p implies
                precedence(names[i].namespace) <= precedence(names[j].namespace) && (j < i
                ==> precedence(names[i].namespace) < precedence(names[j].namespace)) by {
                assert(shorter[j] == names[j]);
            }
            if parent_of(names[last]) == p && precedence(names[last].namespace) < precedence(
                names[i].namespace,
            ) {
                last
            } else {
                i
            }
        }
    }
}

/// Of the names of an entry in one parent, the one that comes before all others there, by
/// namespace and then by place, makes a link, if the parent is an entry: the parent is the low
/// 48 bits of its reference, and the name its text.
pub proof fn lemma_parent_link(file_names: FileNameCollection, e: int, i: int)
    requires
        0 <= e < file_names@.len(),
        e <= u32::MAX,
        0 <= i < file_names@[e].len(),
        ((file_names@[e][i].parent_ref % 0x1_0000_0000_0000) as usize)
            < file_names@.len(),
        forall|j: int|
            0 <= j < file_names@[e].len() && (file_names@[e][j].parent_ref % 0x1_0000_0000_0000) as usize == (file_names@[e][i].parent_ref % 0x1_0000_0000_0000) as usize ==> {
                &&& (#[trigger] file_names@[e][j]).namespace == 1 ==> file_names@[e][i].namespace == 1
                &&& file_names@[e][j].namespace == 3 ==> file_names@[e][i].namespace == 1 || file_names@[e][i].namespace == 3
                &&& file_names@[e][j].namespace == 0 ==> file_names@[e][i].namespace <= 3 && file_names@[e][i].namespace != 2
                &&& file_names@[e][j].namespace == 2 ==> file_names@[e][i].namespace <= 3
                &&& j < i ==> file_names@[e][i].namespace <= 3 && file_names@[e][j].namespace != file_names@[e][i].namespace
            },
    ensures
        all_parent_links(file_names).len() == file_names@.len(),
        all_parent_links(file_names)[e].contains(
            (Link {
                parent: ((file_names@[e][i].parent_ref % 0x1_0000_0000_0000) as usize) as int,
                name: decode::utf16_text(file_names@[e][i].name_utf16@),
            }),
        ),
{
    let names = file_names@[e];
    let n = file_names@.len();
    let p = parent_of(names[i]);
    let ps = distinct_parents(names, n);
    lemma_own_names(file_names, e);
    assert forall|j: int| 0 <= j < names.len() && parent_of(#[trigger] names[j]) == p implies
        precedence(names[i].namespace) <= precedence(names[j].namespace) && (j < i ==> precedence(
        names[i].namespace,
    ) < precedence(names[j].namespace)) by {
        lemma_parent_entry_ignores_sequence(names[i].parent_ref);
        lemma_parent_entry_ignores_sequence(names[j].parent_ref);
    }
    lemma_parent_entry_ignores_sequence(names[i].parent_ref);
    lemma_first_in_parent(names, i, names.len() as int);
    assert(names.take(names.len() as int) =~= names);
    lemma_mentioned(names, n, i);
    let h = choose|h: int| 0 <= h < ps.len() && ps[h] == p;
    assert(parent_links(names, n)[h] == link_of(names[i]));
}

/// The links of an entry lead to different parents, all of them entries; and each is made by the
/// name of the entry that comes before all others in that parent, by namespace and then by
/// place.
pub proof fn lemma_parent_link_named(file_names: FileNameCollection, e: int, h: int)
    requires
        0 <= e < file_names@.len(),
        e <= u32::MAX,
        0 <= h < all_parent_links(file_names)[e].len(),
    ensures
        0 <= all_parent_links(file_names)[e][h].parent < file_names@.len(),
        forall|k: int|
            0 <= k < all_parent_links(file_names)[e].len() && k != h ==> (
            #[trigger] all_parent_links(file_names)[e][k]).parent
                != all_parent_links(file_names)[e][h].parent,
        exists|i: int|
            0 <= i < file_names@[e].len() && ((#[trigger] file_names@[e][i]).parent_ref
                % 0x1_0000_0000_0000) as usize == all_parent_links(file_names)[e][h].parent
                && decode::utf16_text(file_names@[e][i].name_utf16@)
                == all_parent_links(file_names)[e][h].name && (
            forall|j: int|
                0 <= j < file_names@[e].len() && (file_names@[e][j].parent_ref % 0x1_0000_0000_0000) as usize == (file_names@[e][i].parent_ref % 0x1_0000_0000_0000) as usize ==> {
                    &&& (#[trigger] file_names@[e][j]).namespace == 1 ==> file_names@[e][i].namespace == 1
                    &&& file_names@[e][j].namespace == 3 ==> file_names@[e][i].namespace == 1 || file_names@[e][i].namespace == 3
                    &&& file_names@[e][j].namespace == 0 ==> file_names@[e][i].namespace <= 3 && file_names@[e][i].namespace != 2
                    &&& file_names@[e][j].namespace == 2 ==> file_names@[e][i].namespace <= 3
                    &&& j < i ==> file_names@[e][i].namespace <= 3 && file_names@[e][j].namespace != file_names@[e][i].namespace
                }),
{
    let names = file_names@[e];
    let n = file_names@.len();
    let ps = distinct_parents(names, n);
    let links = all_parent_links(file_names)[e];
    lemma_own_names(file_names, e);
    assert(links == parent_links(names, n));
    lemma_parent_links(names, n);
    lemma_distinct_parents(names, n);
    assert forall|k: int| 0 <= k < links.len() && k != h implies (#[trigger] links[k]).parent
        != links[h].parent by {
        assert(ps[k] != ps[h]);
    }
    let i = lemma_first_in_parent_exists(names, ps[h]);
    lemma_first_in_parent(names, i, names.len() as int);
    assert(names.take(names.len() as int) =~= names);
    assert(links[h] == link_of(names[i]));
    lemma_parent_entry_ignores_sequence(names[i].parent_ref);
    assert forall|j: int|
        0 <= j < names.len() && ((#[trigger] names[j]).parent_ref % 0x1_0000_0000_0000) as usize
            == (names[i].parent_ref % 0x1_0000_0000_0000) as usize implies precedence(
        names[i].namespace,
    ) <= precedence(names[j].namespace) && (j < i ==> precedence(names[i].namespace) < precedence(
        names[j].namespace,
    )) by {
        lemma_parent_entry_ignores_sequence(names[j].parent_ref);
        assert(parent_of(names[j]) == ps[h]);
    }
    assert(file_names@[e][i] == names[i]);
}

/// The links of an entry stand in the order in which its names first mention the parents.
pub proof fn lemma_parents_in_order(file_names: FileNameCollection, e: int, a: int, b: int, j: int)
    requires
        0 <= e < file_names@.len(),
        e <= u32::MAX,
        0 <= a < b < all_parent_links(file_names)[e].len(),
        0 <= j < file_names@[e].len(),
        (file_names@[e][j].parent_ref % 0x1_0000_0000_0000) as usize
            == all_parent_links(file_names)[e][b].parent,
    ensures
        exists|i: int|
            0 <= i < j && ((#[trigger] file_names@[e][i]).parent_ref % 0x1_0000_0000_0000) as usize
                == all_parent_links(file_names)[e][a].parent,
{
    let names = file_names@[e];
    let n = file_names@.len();
    lemma_own_names(file_names, e);
    lemma_parent_links(names, n);
    lemma_parent_entry_ignores_sequence(names[j].parent_ref);
    let i = lemma_mentioned_in_order(names, n, a, b, j);
    lemma_parent_entry_ignores_sequence(names[i].parent_ref);
    assert(file_names@[e][i] == names[i]);
}

proof fn lemma_mentioned_in_order(names: Seq<FileNameRef>, n: nat, a: int, b: int, j: int) -> (i:
    int)
    requires
        0 <= a < b < distinct_parents(names, n).len(),
        0 <= j < names.len(),
        parent_of(names[j]) == distinct_parents(names, n)[b],
    ensures
        0 <= i < j,
        parent_of(names[i]) == distinct_parents(names, n)[a],
    decreases names.len(),
{
    let shorter = names.drop_last();
    let earlier = distinct_parents(shorter, n);
    let ps = distinct_parents(names, n);
    lemma_distinct_parents(names, n);
    if b < earlier.len() && j < shorter.len() {
        assert(shorter[j] == names[j]);
        let i = lemma_mentioned_in_order(shorter, n, a, b, j);
        assert(shorter[i] == names[i]);
        i
    } else {
        // The parent at `a` has been mentioned before the last name.
        assert(ps[a] == earlier[a]);
        lemma_distinct_parents(shorter, n);
        let i = lemma_first_in_parent_exists(shorter, earlier[a]);
        assert(shorter[i] == names[i]);
        if j < shorter.len() {
            lemma_mentioned(shorter, n, j);
            assert(shorter[j] == names[j]);
            let h = choose|h: int| 0 <= h < earlier.len() && earlier[h] == parent_of(names[j]);
            assert(ps[h] == ps[b]);
        }
        i
    }
}

/// A distinct parent of an entry, with the name chosen for it.
#[derive(Clone, Copy, Debug)]
struct BestName<'a> {
    parent: usize,
    namespace: u8,
    name_utf16: &'a [u16],
}

/// The list holds the canonical name of each distinct parent.
spec fn best_names_of(list: Seq<BestName>, names: Seq<FileNameRef>, n: nat) -> bool {
    let ps = distinct_parents(names, n);
    &&& list.len() == ps.len()
    &&& forall|i: int|
        0 <= i < list.len() ==> {
            let best = canonical(with_parent(names, ps[i]));
            &&& (#[trigger] list[i]).parent == ps[i]
            &&& list[i].namespace == best.namespace
            &&& list[i].name_utf16 == best.name_utf16
        }
}

/// Takes one more file name into account.
fn note_name<'a>(
    list: &mut Vec<BestName<'a>>,
    f: &FileNameRef<'a>,
    n: usize,
    Ghost(names): Ghost<Seq<FileNameRef<'a>>>,
)
    requires
        best_names_of(old(list)@, names, n as nat),
    ensures
        best_names_of(final(list)@, names.push(*f), n as nat),
{
    let ghost longer = names.push(*f);
    let ghost k = names.len() as int;
    let ghost ps = distinct_parents(names, n as nat);
    let ghost before = list@;
    let parent: usize = parent_record(f.parent_ref);
    proof {
        assert(longer.drop_last() =~= names);
        assert(longer.take(k) =~= names);
        assert(longer.take(k + 1) =~= longer);
        lemma_distinct_parents(names, n as nat);
        assert forall|p: int| #[trigger] with_parent(longer, p) == (if parent == p {
            with_parent(names, p).push(*f)
        } else {
            with_parent(names, p)
        }) by {
            lemma_with_parent_step(longer, k, p);
        }
    }
    if parent >= n {
        assert(best_names_of(list@, longer, n as nat));
        return;
    }
    let mut i: usize = 0;
    while i < list.len() && list[i].parent != parent
        invariant
            i <= list@.len(),
            forall|j: int| 0 <= j < i ==> (#[trigger] list@[j]).parent != parent,
        decreases list@.len() - i,
    {
        i = i + 1;
    }
    proof {
        lemma_canonical_push(with_parent(names, parent as int), *f);
    }
    if i < list.len() {
        assert(ps[i as int] == parent as int);
        assert(ps.contains(parent as int));
        if ns_rank(f.namespace) < ns_rank(list[i].namespace) {
            list.set(i, BestName { parent, namespace: f.namespace, name_utf16: f.name_utf16 });
        }
        proof {
            let now = distinct_parents(longer, n as nat);
            assert(now == ps);
            assert forall|j: int| 0 <= j < list@.len() implies {
                let best = canonical(with_parent(longer, now[j]));
                &&& (#[trigger] list@[j]).parent == now[j]
                &&& list@[j].namespace == best.namespace
                &&& list@[j].name_utf16 == best.name_utf16
            } by {
                assert(before[j].parent == ps[j]);
            }
        }
    } else {
        proof {
            assert(!ps.contains(parent as int)) by {
                if ps.contains(parent as int) {
                    let j = choose|j: int| 0 <= j < ps.len() && ps[j] == parent as int;
                    assert(before[j].parent == ps[j]);
                }
            }
            assert(with_parent(names, parent as int).len() == 0) by {
                if with_parent(names, parent as int).len() > 0 {
                    lemma_with_parent_mentioned(names, n as nat, parent as int);
                }
            }
        }
        list.push(BestName { parent, namespace: f.namespace, name_utf16: f.name_utf16 });
        proof {
            let now = distinct_parents(longer, n as nat);
            assert(now == ps.push(parent as int));
            assert forall|j: int| 0 <= j < list@.len() implies {
                let best = canonical(with_parent(longer, now[j]));
                &&& (#[trigger] list@[j]).parent == now[j]
                &&& list@[j].namespace == best.namespace
                &&& list@[j].name_utf16 == best.name_utf16
            } by {
                if j < before.len() {
                    assert(before[j].parent == ps[j]);
                    assert(list@[j] == before[j]);
                }
            }
        }
    }
}

/// A parent that some name has is among the distinct parents.
proof fn lemma_with_parent_mentioned(names: Seq<FileNameRef>, n: nat, p: int)
    requires
        0 <= p < n,
        with_parent(names, p).len() > 0,
    ensures
        distinct_parents(names, n).contains(p),
    decreases names.len(),
{
    let last = names.len() - 1;
    if names.len() == 0 {
        reveal(Seq::filter);
    } else if parent_of(names[last]) == p {
        lemma_mentioned(names, n, last);
    } else {
        let shorter = names.drop_last();
        assert(names.take(last) =~= shorter);
        assert(names.take(last + 1) =~= names);
        lemma_with_parent_step(names, last, p);
        lemma_with_parent_mentioned(shorter, n, p);
        let earlier = distinct_parents(shorter, n);
        let i = choose|i: int| 0 <= i < earlier.len() && earlier[i] == p;
        assert(distinct_parents(names, n)[i] == p);
    }
}

/// The links that several stand for.
pub open spec fn link_views(links: Seq<NameLink>) -> Seq<Link> {
    Seq::new(links.len(), |i: int| links[i]@)
}

/// Selects one link for each distinct parent that the names refer to.
pub fn select_parents<'a>(names: &[FileNameRef<'a>], n: usize) -> (links: Vec<NameLink<'a>>)
    ensures
        link_views(links@) == parent_links(names@, n as nat),
        forall|i: int| 0 <= i < links@.len() ==> (#[trigger] links@[i]).parent < n,
{
    let mut list: Vec<BestName<'a>> = Vec::new();
    let mut k: usize = 0;
    assert(names@.take(0) =~= Seq::<FileNameRef<'a>>::empty());
    while k < names.len()
        invariant
            k <= names@.len(),
            best_names_of(list@, names@.take(k as int), n as nat),
        decreases names@.len() - k,
    {
        assert(names@.take(k as int).push(names@[k as int]) =~= names@.take(k + 1));
        note_name(&mut list, &names[k], n, Ghost(names@.take(k as int)));
        k = k + 1;
    }
    assert(names@.take(k as int) =~= names@);
    let mut links: Vec<NameLink<'a>> = Vec::new();
    let mut i: usize = 0;
    while i < list.len()
        invariant
            i <= list@.len(),
            links@.len() == i,
            forall|j: int|
                0 <= j < i ==> (#[trigger] links@[j]).parent == list@[j].parent
                    && links@[j].name_utf16 == list@[j].name_utf16,
        decreases list@.len() - i,
    {
        let best: &BestName<'a> = &list[i];
        links.push(NameLink { parent: best.parent, name_utf16: best.name_utf16 });
        i = i + 1;
    }
    proof {
        lemma_distinct_parents(names@, n as nat);
        let ps = distinct_parents(names@, n as nat);
        assert forall|j: int| 0 <= j < links@.len() implies (#[trigger] links@[j]).parent < n
            && links@[j]@ == parent_links(names@, n as nat)[j] by {
            assert(list@[j].parent == ps[j]);
        }
        assert(link_views(links@) =~= parent_links(names@, n as nat));
    }
    links
}

/// The links of every entry, as several vectors of them stand for.
pub open spec fn link_lists(lists: Seq<Vec<NameLink>>) -> Seq<Seq<Link>> {
    Seq::new(lists.len(), |e: int| link_views(lists[e]@))
}

/// Selects the links of every entry to its parents.
pub fn select_all_parents<'a>(file_names: &FileNameCollection<'a>) -> (lists: Vec<
    Vec<NameLink<'a>>,
>)
    ensures
        link_lists(lists@) == all_parent_links(*file_names),
        forall|e: int, i: int|
            0 <= e < lists@.len() && 0 <= i < lists@[e]@.len() ==> (
            #[trigger] lists@[e]@[i]).parent < lists@.len(),
{
    let n: usize = file_names.entry_count();
    let mut lists: Vec<Vec<NameLink<'a>>> = Vec::new();
    let mut e: usize = 0;
    while e < n
        invariant
            n == file_names@.len(),
            e <= n,
            lists@.len() == e,
            forall|j: int|
                0 <= j < e ==> link_views((#[trigger] lists@[j])@) == all_parent_links(
                    *file_names,
                )[j],
            forall|j: int, i: int|
                0 <= j < e && 0 <= i < lists@[j]@.len() ==> (#[trigger] lists@[j]@[i]).parent < n,
        decreases n - e,
    {
        let names: &[FileNameRef<'a>] = file_names.filenames_for_entry(e as u32);
        lists.push(select_parents(names, n));
        e = e + 1;
    }
    assert(link_lists(lists@) =~= all_parent_links(*file_names));
    lists
}

} // verus!
