use mft::fast_entry::{FileNameCollection, FileNameRef};
use mft::path_resolve::select::{parent_record, select_canonical, select_parents};
use mft::path_resolve::{choose_best, decode_name, ns_rank};

fn units(s: &str) -> Vec<u16> {
    s.encode_utf16().collect()
}

fn named<'a>(parent_ref: u64, namespace: u8, name_utf16: &'a [u16]) -> FileNameRef<'a> {
    FileNameRef { parent_ref, namespace, name_utf16 }
}

#[test]
fn ascii_names_are_decoded() {
    assert_eq!(decode_name(&units("$MFT")), "$MFT");
    assert_eq!(decode_name(&[]), "");
    assert_eq!(decode_name(&[0x41, 0x7F]), "A\u{7F}");
}

#[test]
fn other_planes_are_decoded() {
    assert_eq!(decode_name(&units("gr\u{FC}n.txt")), "gr\u{FC}n.txt");
    assert_eq!(decode_name(&[0xD83D, 0xDE00]), "\u{1F600}");
    assert_eq!(decode_name(&[0xD800, 0xDC00]), "\u{10000}");
    assert_eq!(decode_name(&[0xDBFF, 0xDFFF]), "\u{10FFFF}");
    assert_eq!(decode_name(&[0xD7FF, 0xE000, 0xFFFF]), "\u{D7FF}\u{E000}\u{FFFF}");
}

#[test]
fn lone_surrogates_are_replaced() {
    assert_eq!(decode_name(&[0x61, 0xD800, 0x62]), "a\u{FFFD}b");
    assert_eq!(decode_name(&[0xDC00]), "\u{FFFD}");
    assert_eq!(decode_name(&[0xD800]), "\u{FFFD}");
    assert_eq!(decode_name(&[0xD800, 0xD800, 0xDC00]), "\u{FFFD}\u{10000}");
    assert_eq!(decode_name(&[0xDC00, 0xD800]), "\u{FFFD}\u{FFFD}");
}

#[test]
fn decoding_agrees_with_the_standard_library() {
    let interesting: [u16; 10] =
        [0x00, 0x41, 0x7F, 0x80, 0xD7FF, 0xD800, 0xDBFF, 0xDC00, 0xDFFF, 0xE000];
    for a in interesting {
        for b in interesting {
            for c in interesting {
                let name = [a, b, c];
                assert_eq!(decode_name(&name), String::from_utf16_lossy(&name));
            }
        }
    }
}

#[test]
fn namespaces_rank_win32_first() {
    assert_eq!(ns_rank(1), 0);
    assert_eq!(ns_rank(3), 1);
    assert_eq!(ns_rank(0), 2);
    assert_eq!(ns_rank(2), 3);
    assert_eq!(ns_rank(4), 4);
    assert_eq!(ns_rank(255), 4);
}

#[test]
fn parent_record_is_the_low_48_bits() {
    assert_eq!(parent_record(5), 5);
    assert_eq!(parent_record(0x0005_0000_0000_0005), 5);
    assert_eq!(parent_record(0xFFFF_0000_0000_0000), 0);
    assert_eq!(parent_record(0x0001_FFFF_FFFF_FFFF), 0xFFFF_FFFF_FFFF);
}

#[test]
fn best_name_follows_namespace_priority() {
    let n = units("x");
    let dos = named(10, 2, &n);
    let posix = named(11, 0, &n);
    let both = named(12, 3, &n);
    let win = named(13, 1, &n);
    let odd = named(14, 9, &n);
    assert!(choose_best(&[]).is_none());
    assert_eq!(choose_best(&[odd, dos, posix, both, win]).unwrap().parent_ref, 13);
    assert_eq!(choose_best(&[odd, dos, posix, both]).unwrap().parent_ref, 12);
    assert_eq!(choose_best(&[odd, dos, posix]).unwrap().parent_ref, 11);
    assert_eq!(choose_best(&[odd, dos]).unwrap().parent_ref, 10);
    assert_eq!(choose_best(&[odd]).unwrap().parent_ref, 14);
}

#[test]
fn first_of_equally_preferred_names_wins() {
    let n = units("x");
    let a = named(20, 1, &n);
    let b = named(21, 1, &n);
    assert_eq!(choose_best(&[named(1, 2, &n), a, b]).unwrap().parent_ref, 20);
    let p = named(30, 7, &n);
    let q = named(31, 8, &n);
    assert_eq!(choose_best(&[p, q]).unwrap().parent_ref, 30);
}

#[test]
fn canonical_link_needs_a_valid_parent() {
    let n = units("x");
    let names = FileNameCollection::from_entries(vec![
        vec![named(1, 2, &n), named(9, 1, &n)],
        vec![named(0, 2, &n)],
        vec![],
    ]);
    let links = select_canonical(&names);
    assert_eq!(links.len(), 3);
    assert!(links[0].is_none());
    assert_eq!(links[1].unwrap().parent, 0);
    assert!(links[2].is_none());
}

#[test]
fn each_distinct_parent_is_kept_once() {
    let short = units("PROGRA~1");
    let long = units("Program Files");
    let other = units("link");
    let names = [
        named(5, 2, &short),
        named(0x0007_0000_0000_0005, 1, &long),
        named(6, 0, &other),
        named(99, 1, &other),
        named(5, 1, &other),
    ];
    let links = select_parents(&names, 10);
    assert_eq!(links.len(), 2);
    assert_eq!(links[0].parent, 5);
    assert_eq!(links[0].name_utf16, &long[..]);
    assert_eq!(links[1].parent, 6);
    assert_eq!(links[1].name_utf16, &other[..]);
}

#[test]
fn collection_knows_its_entries() {
    let n = units("x");
    let names = FileNameCollection::from_entries(vec![vec![], vec![named(5, 1, &n)]]);
    assert_eq!(names.entry_count(), 2);
    assert_eq!(names.filenames_for_entry(0).len(), 0);
    assert_eq!(names.filenames_for_entry(1).len(), 1);
    assert_eq!(names.filenames_for_entry(7).len(), 0);
}
