//! Runs the page pair renamer against concrete directories: the filter,
//! the sort, the pairing, the four-step exchange and its failure window,
//! and whole-book runs including the restoring double run.

use page_swap::listing::{list_pages, DirEntry};
use page_swap::name::{bak_name, extension_of, is_page_name, names_equal};
use page_swap::pairing::{pair_up, PagePair};
use page_swap::plan::{book_plan, swap_plan};
use page_swap::directory::Directory;

fn n(s: &str) -> Vec<u8> {
    s.as_bytes().to_vec()
}

fn entry(name: &str, is_file: bool) -> DirEntry {
    DirEntry { name: n(name), is_file }
}

#[test]
fn extension_after_last_dot() {
    assert_eq!(extension_of(&n("a.jpg")), Some(n("jpg")));
    assert_eq!(extension_of(&n("archive.tar.gz")), Some(n("gz")));
    assert_eq!(extension_of(&n("trailing.")), Some(n("")));
}

#[test]
fn extension_missing_or_hidden() {
    assert_eq!(extension_of(&n("noext")), None);
    assert_eq!(extension_of(&n(".bashrc")), None);
    assert_eq!(extension_of(&n("")), None);
}

#[test]
fn page_names_are_case_sensitive_image_extensions() {
    assert!(is_page_name(&n("a.jpg")));
    assert!(is_page_name(&n("b.png")));
    assert!(is_page_name(&n("c.webp")));
    assert!(is_page_name(&n("x.tar.jpg")));
    assert!(!is_page_name(&n("a.JPG")));
    assert!(!is_page_name(&n("a.jpeg")));
    assert!(!is_page_name(&n("readme.txt")));
    assert!(!is_page_name(&n("noext")));
    assert!(!is_page_name(&n(".jpg")));
}

#[test]
fn bak_name_appends_suffix() {
    assert_eq!(bak_name(&n("a.jpg")), n("a.jpg.bak"));
    assert_eq!(bak_name(&n("")), n(".bak"));
}

#[test]
fn names_equal_compares_bytes() {
    assert!(names_equal(&n("a.jpg"), &n("a.jpg")));
    assert!(!names_equal(&n("a.jpg"), &n("a.png")));
    assert!(!names_equal(&n("a.jpg"), &n("a.jpg ")));
}

#[test]
fn filter_keeps_exactly_the_regular_image_files() {
    let entries = vec![
        entry("readme.txt", true),
        entry("b.png", true),
        entry("d.jpg", false),
        entry("a.jpg", true),
        entry("noext", true),
        entry(".bashrc", true),
        entry("c.webp", true),
        entry("x.JPG", true),
        entry("dot.", true),
    ];
    let pages = list_pages(&entries);
    assert_eq!(pages, vec![n("a.jpg"), n("b.png"), n("c.webp")]);
}

#[test]
fn listing_sorts_byte_wise() {
    let entries = vec![
        entry("b.jpg", true),
        entry("a10.jpg", true),
        entry("A.jpg", true),
        entry("a2.jpg", true),
    ];
    let pages = list_pages(&entries);
    // byte-wise: 'A' (65) sorts before 'a' (97), and "a10" before "a2"
    assert_eq!(pages, vec![n("A.jpg"), n("a10.jpg"), n("a2.jpg"), n("b.jpg")]);
}

#[test]
fn listing_twice_is_identical() {
    let entries = vec![
        entry("c.webp", true),
        entry("a.jpg", true),
        entry("b.png", true),
    ];
    let first = list_pages(&entries);
    let second = list_pages(&entries);
    assert_eq!(first, second);
}

#[test]
fn pairing_groups_consecutive_pages() {
    let pages = vec![n("a.jpg"), n("b.jpg"), n("c.jpg"), n("d.jpg"), n("e.jpg")];
    let pairs: Vec<PagePair> = pair_up(&pages);
    assert_eq!(pairs.len(), 2);
    assert_eq!(pairs[0].first, n("a.jpg"));
    assert_eq!(pairs[0].second, n("b.jpg"));
    assert_eq!(pairs[1].first, n("c.jpg"));
    assert_eq!(pairs[1].second, n("d.jpg"));
}

#[test]
fn pairing_even_empty_and_single() {
    let four = vec![n("a.jpg"), n("b.jpg"), n("c.jpg"), n("d.jpg")];
    assert_eq!(pair_up(&four).len(), 2);
    let empty: Vec<Vec<u8>> = Vec::new();
    assert_eq!(pair_up(&empty).len(), 0);
    let one = vec![n("a.jpg")];
    assert_eq!(pair_up(&one).len(), 0);
}

#[test]
fn swap_plan_has_the_four_steps_in_order() {
    let pair = PagePair { first: n("a.jpg"), second: n("b.jpg") };
    let ops = swap_plan(&pair);
    assert_eq!(ops.len(), 4);
    assert_eq!(ops[0].from, n("a.jpg"));
    assert_eq!(ops[0].to, n("b.jpg.bak"));
    assert_eq!(ops[1].from, n("b.jpg"));
    assert_eq!(ops[1].to, n("a.jpg.bak"));
    assert_eq!(ops[2].from, n("a.jpg.bak"));
    assert_eq!(ops[2].to, n("a.jpg"));
    assert_eq!(ops[3].from, n("b.jpg.bak"));
    assert_eq!(ops[3].to, n("b.jpg"));
}

#[test]
fn book_plan_chains_pairs_in_order() {
    let entries = vec![
        entry("c.jpg", true),
        entry("a.jpg", true),
        entry("b.jpg", true),
        entry("d.jpg", true),
        entry("e.jpg", true),
    ];
    let ops = book_plan(&entries);
    assert_eq!(ops.len(), 8);
    // first pair (a.jpg, b.jpg), then (c.jpg, d.jpg); e.jpg unpaired
    assert_eq!(ops[0].from, n("a.jpg"));
    assert_eq!(ops[0].to, n("b.jpg.bak"));
    assert_eq!(ops[4].from, n("c.jpg"));
    assert_eq!(ops[4].to, n("d.jpg.bak"));
}

#[test]
fn swap_exchanges_contents_and_leaves_no_bak() {
    let mut dir = Directory::new();
    dir.create_file(&n("a.jpg"), n("1"));
    dir.create_file(&n("b.jpg"), n("2"));
    let pair = PagePair { first: n("a.jpg"), second: n("b.jpg") };
    let ops = swap_plan(&pair);
    assert!(dir.apply_plan(&ops).is_ok());
    assert_eq!(dir.content_of(&n("a.jpg")), Some(n("2")));
    assert_eq!(dir.content_of(&n("b.jpg")), Some(n("1")));
    assert!(!dir.contains(&n("a.jpg.bak")));
    assert!(!dir.contains(&n("b.jpg.bak")));
}

#[test]
fn swapping_twice_restores_the_pair() {
    let mut dir = Directory::new();
    dir.create_file(&n("a.jpg"), n("first"));
    dir.create_file(&n("b.jpg"), n("second"));
    let pair = PagePair { first: n("a.jpg"), second: n("b.jpg") };
    let ops = swap_plan(&pair);
    assert!(dir.apply_plan(&ops).is_ok());
    assert!(dir.apply_plan(&ops).is_ok());
    assert_eq!(dir.content_of(&n("a.jpg")), Some(n("first")));
    assert_eq!(dir.content_of(&n("b.jpg")), Some(n("second")));
}

#[test]
fn rename_missing_source_fails_and_changes_nothing() {
    let mut dir = Directory::new();
    dir.create_file(&n("a.jpg"), n("1"));
    let err = dir.rename(&n("ghost.jpg"), &n("a.jpg")).unwrap_err();
    assert_eq!(err.from, n("ghost.jpg"));
    assert_eq!(err.to, n("a.jpg"));
    assert_eq!(dir.content_of(&n("a.jpg")), Some(n("1")));
}

#[test]
fn rename_overwrites_the_destination() {
    let mut dir = Directory::new();
    dir.create_file(&n("a.jpg"), n("1"));
    dir.create_file(&n("b.jpg"), n("2"));
    assert!(dir.rename(&n("a.jpg"), &n("b.jpg")).is_ok());
    assert!(!dir.contains(&n("a.jpg")));
    assert_eq!(dir.content_of(&n("b.jpg")), Some(n("1")));
}

#[test]
fn create_file_overwrites() {
    let mut dir = Directory::new();
    dir.create_file(&n("a.jpg"), n("old"));
    dir.create_file(&n("a.jpg"), n("new"));
    assert_eq!(dir.content_of(&n("a.jpg")), Some(n("new")));
}

#[test]
fn failed_second_step_leaves_exactly_the_first() {
    // the pair's second page is missing, so the second rename must fail;
    // the directory then shows exactly the state after step one
    let mut dir = Directory::new();
    dir.create_file(&n("a.jpg"), n("1"));
    dir.create_file(&n("other.txt"), n("keep"));
    let pair = PagePair { first: n("a.jpg"), second: n("b.jpg") };
    let ops = swap_plan(&pair);
    let err = dir.apply_plan(&ops).unwrap_err();
    assert_eq!(err.from, n("b.jpg"));
    assert_eq!(err.to, n("a.jpg.bak"));
    assert!(!dir.contains(&n("a.jpg")));
    assert_eq!(dir.content_of(&n("b.jpg.bak")), Some(n("1")));
    assert!(!dir.contains(&n("a.jpg.bak")));
    assert_eq!(dir.content_of(&n("other.txt")), Some(n("keep")));
}

#[test]
fn rename_book_end_to_end() {
    let mut dir = Directory::new();
    dir.create_file(&n("a.jpg"), n("1"));
    dir.create_file(&n("b.jpg"), n("2"));
    dir.create_file(&n("c.png"), n("3"));
    dir.create_file(&n("readme.txt"), n("ignore"));
    assert!(dir.rename_book().is_ok());
    assert_eq!(dir.content_of(&n("a.jpg")), Some(n("2")));
    assert_eq!(dir.content_of(&n("b.jpg")), Some(n("1")));
    assert_eq!(dir.content_of(&n("c.png")), Some(n("3")));
    assert_eq!(dir.content_of(&n("readme.txt")), Some(n("ignore")));
    assert!(!dir.contains(&n("a.jpg.bak")));
    assert!(!dir.contains(&n("b.jpg.bak")));
    assert!(!dir.contains(&n("c.png.bak")));
}

#[test]
fn rename_book_twice_restores_the_book() {
    let mut dir = Directory::new();
    dir.create_file(&n("p1.jpg"), n("one"));
    dir.create_file(&n("p2.jpg"), n("two"));
    dir.create_file(&n("p3.webp"), n("three"));
    dir.create_file(&n("p4.png"), n("four"));
    dir.create_file(&n("p5.jpg"), n("five"));
    dir.create_file(&n("notes.txt"), n("keep"));
    assert!(dir.rename_book().is_ok());
    assert!(dir.rename_book().is_ok());
    assert_eq!(dir.content_of(&n("p1.jpg")), Some(n("one")));
    assert_eq!(dir.content_of(&n("p2.jpg")), Some(n("two")));
    assert_eq!(dir.content_of(&n("p3.webp")), Some(n("three")));
    assert_eq!(dir.content_of(&n("p4.png")), Some(n("four")));
    assert_eq!(dir.content_of(&n("p5.jpg")), Some(n("five")));
    assert_eq!(dir.content_of(&n("notes.txt")), Some(n("keep")));
}

#[test]
fn rename_book_swaps_across_extensions_in_sorted_order() {
    let mut dir = Directory::new();
    dir.create_file(&n("p1.jpg"), n("one"));
    dir.create_file(&n("p2.png"), n("two"));
    dir.create_file(&n("p3.webp"), n("three"));
    assert!(dir.rename_book().is_ok());
    // sorted pages: p1.jpg, p2.png, p3.webp; only the first two swap
    assert_eq!(dir.content_of(&n("p1.jpg")), Some(n("two")));
    assert_eq!(dir.content_of(&n("p2.png")), Some(n("one")));
    assert_eq!(dir.content_of(&n("p3.webp")), Some(n("three")));
}

#[test]
fn listing_a_directory_model_finds_its_pages() {
    let mut dir = Directory::new();
    dir.create_file(&n("z.jpg"), n("z"));
    dir.create_file(&n("a.jpg"), n("a"));
    dir.create_file(&n("m.txt"), n("m"));
    let entries = dir.entries();
    let pages = list_pages(&entries);
    assert_eq!(pages, vec![n("a.jpg"), n("z.jpg")]);
}
