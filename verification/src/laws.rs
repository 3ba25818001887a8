//! The book-level guarantees: running a whole book's plan swaps each pair's
//! contents and nothing else, keeps the same names present, and run twice
//! restores the book — re-listing the unchanged names finds the same pages
//! and swaps them back.

use vstd::prelude::*;
use crate::name::{
    bak_of, has_bak_suffix, spec_is_page_name, lex_leq_fn, lemma_bak_of_has_suffix,
    lemma_lex_total_ordering,
};
use crate::listing::{
    DirEntry, pages_of, entry_names_distinct, lemma_pages_of_membership, lemma_pages_of_distinct,
};
use crate::plan::{swap_ops, book_ops};
use crate::semantics::{
    DirState, plan_enabled, apply_ops, swapped, lemma_swap_correct, lemma_apply_ops_concat,
};

verus! {

/// A book fit for renaming: every page present under a distinct real page
/// name, and every page's `.bak` name free.
pub open spec fn pages_ready(d: DirState, pages: Seq<Seq<u8>>) -> bool {
    &&& forall|i: int| 0 <= i < pages.len() ==> d.contains_key(#[trigger] pages[i])
    &&& forall|i: int| 0 <= i < pages.len() ==> spec_is_page_name(#[trigger] pages[i])
    &&& forall|i: int| 0 <= i < pages.len() ==> !d.contains_key(bak_of(#[trigger] pages[i]))
    &&& forall|i: int, j: int| 0 <= i < j < pages.len() ==> pages[i] != pages[j]
}

/// The page a run pairs `pages[i]` with: its neighbour in the pairing
/// (0,1), (2,3), …, or the page itself when it trails unpaired.
#[verifier::opaque]
pub open spec fn page_partner(pages: Seq<Seq<u8>>, i: int) -> Seq<u8> {
    if i % 2 == 0 && i + 1 < pages.len() {
        pages[i + 1]
    } else if i % 2 == 1 {
        pages[i - 1]
    } else {
        pages[i]
    }
}

/// The two value clauses of one induction step: given what the remaining
/// pairs' run did to the swapped state, every page of the whole book holds
/// its partner's former content and every other name is untouched.
#[verifier::rlimit(100)]
proof fn lemma_book_run_vals(d: DirState, pages: Seq<Seq<u8>>, d1: DirState, r: DirState)
    requires
        forall|i: int, j: int| 0 <= i < j < pages.len() ==> pages[i] != pages[j],
        pages.len() >= 2,
        d.contains_key(pages[0]),
        d.contains_key(pages[1]),
        pages[0] != pages[1],
        d1 == swapped(d, pages[0], pages[1]),
        d1.dom() == d.dom(),
        r.dom() == d1.dom(),
        forall|i: int|
            0 <= i < pages.skip(2).len() ==> r[#[trigger] pages.skip(2)[i]]
                == d1[page_partner(pages.skip(2), i)],
        forall|k: Seq<u8>|
            d1.contains_key(k) && !pages.skip(2).contains(k) ==> r[k] == d1[k],
    ensures
        forall|i: int| 0 <= i < pages.len() ==> r[#[trigger] pages[i]] == d[page_partner(pages, i)],
        forall|k: Seq<u8>| d.contains_key(k) && !pages.contains(k) ==> r[k] == d[k],
{
    let a = pages[0];
    let b = pages[1];
    let rest = pages.skip(2);
    assert(forall|i: int| 0 <= i < rest.len() ==> rest[i] == pages[i + 2]);
    assert(!rest.contains(a)) by {
        if rest.contains(a) {
            let k = choose|k: int| 0 <= k < rest.len() && rest[k] == a;
            assert(pages[k + 2] == pages[0]);
        }
    }
    assert(!rest.contains(b)) by {
        if rest.contains(b) {
            let k = choose|k: int| 0 <= k < rest.len() && rest[k] == b;
            assert(pages[k + 2] == pages[1]);
        }
    }
    assert(d1[a] == d[b]);
    assert(d1[b] == d[a]);
    assert(d1.contains_key(a));
    assert(d1.contains_key(b));
    assert(r[a] == d1[a]);
    assert(r[b] == d1[b]);
    assert forall|i: int|
        0 <= i < pages.len() implies r[#[trigger] pages[i]] == d[page_partner(pages, i)] by {
        reveal(page_partner);
        if i == 0 {
            assert(page_partner(pages, 0) == b);
        } else if i == 1 {
            assert(page_partner(pages, 1) == a);
        } else {
            assert(pages[i] == rest[i - 2]);
            assert(r[rest[i - 2]] == d1[page_partner(rest, i - 2)]);
            let j = if i % 2 == 0 && i + 1 < pages.len() {
                i + 1
            } else if i % 2 == 1 {
                i - 1
            } else {
                i
            };
            assert(j >= 2);
            assert(page_partner(pages, i) == pages[j]);
            assert(page_partner(rest, i - 2) == rest[j - 2]);
            assert(rest[j - 2] == pages[j]);
            assert(pages[j] != a);
            assert(pages[j] != b);
            assert(d1[pages[j]] == d[pages[j]]);
        }
    }
    assert forall|k: Seq<u8>|
        d.contains_key(k) && !pages.contains(k) implies r[k] == d[k] by {
        assert(k != a) by {
            if k == a {
                assert(pages[0] == k);
                assert(pages.contains(k));
            }
        }
        assert(k != b) by {
            if k == b {
                assert(pages[1] == k);
                assert(pages.contains(k));
            }
        }
        assert(!rest.contains(k)) by {
            if rest.contains(k) {
                let t = choose|t: int| 0 <= t < rest.len() && rest[t] == k;
                assert(pages[t + 2] == k);
                assert(pages.contains(k));
            }
        }
        assert(d1.contains_key(k));
        assert(r[k] == d1[k]);
        assert(d1[k] == d[k]);
    }
}

/// Running the whole book's plan succeeds and swaps each pair's contents:
/// afterwards every page holds its partner's former content, every other
/// name is untouched, and the names present are exactly those before — in
/// particular, no `.bak` name remains.
#[verifier::rlimit(60)]
pub proof fn lemma_book_run(d: DirState, pages: Seq<Seq<u8>>)
    requires
        pages_ready(d, pages),
    ensures
        plan_enabled(d, book_ops(pages)),
        apply_ops(d, book_ops(pages)).dom() == d.dom(),
        forall|i: int|
            0 <= i < pages.len() ==> apply_ops(d, book_ops(pages))[#[trigger] pages[i]]
                == d[page_partner(pages, i)],
        forall|k: Seq<u8>|
            d.contains_key(k) && !pages.contains(k) ==> apply_ops(d, book_ops(pages))[k] == d[k],
    decreases pages.len(),
{
    if pages.len() < 2 {
        assert(book_ops(pages) == Seq::<(Seq<u8>, Seq<u8>)>::empty());
        assert(apply_ops(d, book_ops(pages)) == d);
        assert(plan_enabled(d, book_ops(pages)));
        assert(apply_ops(d, book_ops(pages)).dom() =~= d.dom());
        assert forall|i: int|
            0 <= i < pages.len() implies apply_ops(d, book_ops(pages))[#[trigger] pages[i]]
            == d[page_partner(pages, i)] by {
            reveal(page_partner);
            assert(page_partner(pages, i) == pages[i]);
        }
    } else {
        let a = pages[0];
        let b = pages[1];
        let rest = pages.skip(2);
        assert(a != b);
        lemma_swap_correct(d, a, b);
        let d1 = swapped(d, a, b);
        assert(forall|i: int| 0 <= i < rest.len() ==> rest[i] == pages[i + 2]);
        assert(pages_ready(d1, rest)) by {
            assert forall|i: int| 0 <= i < rest.len() implies d1.contains_key(
                #[trigger] rest[i],
            ) by {
                assert(d.contains_key(pages[i + 2]));
            }
            assert forall|i: int| 0 <= i < rest.len() implies spec_is_page_name(
                #[trigger] rest[i],
            ) by {
                assert(spec_is_page_name(pages[i + 2]));
            }
            assert forall|i: int| 0 <= i < rest.len() implies !d1.contains_key(
                bak_of(#[trigger] rest[i]),
            ) by {
                assert(!d.contains_key(bak_of(pages[i + 2])));
            }
            assert forall|i: int, j: int| 0 <= i < j < rest.len() implies rest[i] != rest[j] by {
                assert(pages[i + 2] != pages[j + 2]);
            }
        }
        lemma_book_run(d1, rest);
        let r = apply_ops(d1, book_ops(rest));
        assert(book_ops(pages) == swap_ops(a, b) + book_ops(rest));
        lemma_apply_ops_concat(d, swap_ops(a, b), book_ops(rest));
        assert(apply_ops(d, book_ops(pages)) == r);
        lemma_book_run_vals(d, pages, d1, r);
    }
}

/// The pairing is symmetric: a page's partner has that page as its own
/// partner.
proof fn lemma_page_partner_pairs(pages: Seq<Seq<u8>>, i: int)
    requires
        0 <= i < pages.len(),
    ensures
        i % 2 == 0 && i + 1 < pages.len() ==> page_partner(pages, i) == pages[i + 1]
            && page_partner(pages, i + 1) == pages[i],
        i % 2 == 1 ==> page_partner(pages, i) == pages[i - 1] && page_partner(pages, i - 1)
            == pages[i],
        i % 2 == 0 && i + 1 >= pages.len() ==> page_partner(pages, i) == pages[i],
{
    reveal(page_partner);
}

/// Pure map algebra of the restoration: if one run moved every page's
/// content to its partner and a second run did the same over the result,
/// every name is back to its original content.
proof fn lemma_roundtrip_restore(d: DirState, pages: Seq<Seq<u8>>, r1: DirState, r2: DirState)
    requires
        r1.dom() == d.dom(),
        r2.dom() == r1.dom(),
        forall|i: int| 0 <= i < pages.len() ==> r1[#[trigger] pages[i]] == d[page_partner(pages, i)],
        forall|i: int| 0 <= i < pages.len() ==> r2[#[trigger] pages[i]] == r1[page_partner(pages, i)],
        forall|k: Seq<u8>| d.contains_key(k) && !pages.contains(k) ==> r1[k] == d[k],
        forall|k: Seq<u8>| r1.contains_key(k) && !pages.contains(k) ==> r2[k] == r1[k],
    ensures
        r2 == d,
{
    assert(r2 =~= d) by {
        assert forall|k: Seq<u8>| d.dom().contains(k) implies r2[k] == d[k] by {
            if pages.contains(k) {
                let i = choose|i: int| 0 <= i < pages.len() && pages[i] == k;
                lemma_page_partner_pairs(pages, i);
                assert(r2[pages[i]] == r1[page_partner(pages, i)]);
                if i % 2 == 0 && i + 1 < pages.len() {
                    assert(r1[pages[i + 1]] == d[page_partner(pages, i + 1)]);
                } else if i % 2 == 1 {
                    assert(r1[pages[i - 1]] == d[page_partner(pages, i - 1)]);
                } else {
                    assert(r1[pages[i]] == d[page_partner(pages, i)]);
                }
            } else {
                assert(d.contains_key(k));
                assert(r1[k] == d[k]);
                assert(r1.contains_key(k));
                assert(r2[k] == r1[k]);
            }
        }
    }
}

/// The swap of a whole book is an involution: after one run the book is
/// again fit for renaming, and a second run of the same plan restores every
/// content to its original name.
#[verifier::rlimit(100)]
pub proof fn lemma_book_roundtrip(d: DirState, pages: Seq<Seq<u8>>)
    requires
        pages_ready(d, pages),
    ensures
        plan_enabled(d, book_ops(pages)),
        apply_ops(d, book_ops(pages)).dom() == d.dom(),
        pages_ready(apply_ops(d, book_ops(pages)), pages),
        apply_ops(apply_ops(d, book_ops(pages)), book_ops(pages)) == d,
{
    lemma_book_run(d, pages);
    let r1 = apply_ops(d, book_ops(pages));
    assert(pages_ready(r1, pages)) by {
        assert forall|i: int| 0 <= i < pages.len() implies r1.contains_key(
            #[trigger] pages[i],
        ) by {
            assert(d.contains_key(pages[i]));
            assert(r1.dom() == d.dom());
        }
        assert forall|i: int| 0 <= i < pages.len() implies !r1.contains_key(
            bak_of(#[trigger] pages[i]),
        ) by {
            assert(!d.contains_key(bak_of(pages[i])));
            assert(r1.dom() == d.dom());
        }
    }
    lemma_book_run(r1, pages);
    let r2 = apply_ops(r1, book_ops(pages));
    lemma_roundtrip_restore(d, pages, r1, r2);
}

/// A listing faithful to a directory state: every entry marked a regular
/// file is a present name, every present name appears as a regular-file
/// entry, and no name is listed twice.
pub open spec fn faithful_listing(entries: Seq<DirEntry>, d: DirState) -> bool {
    &&& forall|i: int|
        0 <= i < entries.len() ==> ((#[trigger] entries[i]).is_file ==> d.contains_key(
            entries[i].name@,
        ))
    &&& forall|n: Seq<u8>|
        #[trigger] d.contains_key(n) ==> exists|i: int|
            0 <= i < entries.len() && (#[trigger] entries[i]).name@ == n && entries[i].is_file
    &&& entry_names_distinct(entries)
}

/// Against a faithful listing, the pages found are exactly the present
/// names that pass the page filter.
pub proof fn lemma_faithful_pages_membership(entries: Seq<DirEntry>, d: DirState, n: Seq<u8>)
    requires
        faithful_listing(entries, d),
    ensures
        pages_of(entries).contains(n) <==> (d.contains_key(n) && spec_is_page_name(n)),
{
    lemma_pages_of_membership(entries, n);
    if pages_of(entries).contains(n) {
        let i = choose|i: int|
            0 <= i < entries.len() && entries[i].name@ == n && entries[i].is_file
                && spec_is_page_name(n);
        assert(entries[i].is_file);
    }
    if d.contains_key(n) && spec_is_page_name(n) {
        let i = choose|i: int|
            0 <= i < entries.len() && entries[i].name@ == n && entries[i].is_file;
        assert(entries[i].name@ == n && entries[i].is_file && spec_is_page_name(n));
    }
}

/// Which pages a listing finds depends only on which names are present:
/// faithful listings of states with the same names find the same pages.
pub proof fn lemma_faithful_pages_multiset(
    e1: Seq<DirEntry>,
    d1: DirState,
    e2: Seq<DirEntry>,
    d2: DirState,
)
    requires
        faithful_listing(e1, d1),
        faithful_listing(e2, d2),
        d1.dom() == d2.dom(),
    ensures
        pages_of(e1).to_multiset() == pages_of(e2).to_multiset(),
{
    broadcast use vstd::seq_lib::group_to_multiset_ensures;
    broadcast use vstd::multiset::group_multiset_axioms;

    lemma_pages_of_distinct(e1);
    lemma_pages_of_distinct(e2);
    let p1 = pages_of(e1);
    let p2 = pages_of(e2);
    p1.lemma_multiset_has_no_duplicates();
    p2.lemma_multiset_has_no_duplicates();
    assert(p1.to_multiset() =~= p2.to_multiset()) by {
        assert forall|x: Seq<u8>| p1.to_multiset().count(x) == p2.to_multiset().count(x) by {
            lemma_faithful_pages_membership(e1, d1, x);
            lemma_faithful_pages_membership(e2, d2, x);
            assert(d1.contains_key(x) == d2.contains_key(x));
            assert(p1.contains(x) == p2.contains(x));
            if p1.contains(x) {
                assert(p1.to_multiset().count(x) > 0);
                assert(p2.to_multiset().count(x) > 0);
                assert(p1.to_multiset().contains(x));
                assert(p2.to_multiset().contains(x));
            } else {
                assert(p1.to_multiset().count(x) == 0);
                assert(p2.to_multiset().count(x) == 0);
            }
        }
    }
}

/// The sorted page list drawn from a faithful listing of a directory
/// without leftover `.bak` names is fit for renaming.
pub proof fn lemma_listed_pages_ready(d: DirState, entries: Seq<DirEntry>)
    requires
        faithful_listing(entries, d),
        forall|n: Seq<u8>| #[trigger] d.contains_key(n) ==> !has_bak_suffix(n),
    ensures
        pages_ready(d, pages_of(entries).sort_by(lex_leq_fn())),
        vstd::relations::sorted_by(pages_of(entries).sort_by(lex_leq_fn()), lex_leq_fn()),
        forall|n: Seq<u8>|
            pages_of(entries).sort_by(lex_leq_fn()).contains(n) <==> (d.contains_key(n)
                && spec_is_page_name(n)),
{
    broadcast use vstd::seq_lib::group_to_multiset_ensures;
    broadcast use vstd::multiset::group_multiset_axioms;

    lemma_lex_total_ordering();
    let p0 = pages_of(entries);
    let p1 = p0.sort_by(lex_leq_fn());
    p0.lemma_sort_by_ensures(lex_leq_fn());
    lemma_pages_of_distinct(entries);
    p0.lemma_multiset_has_no_duplicates();
    p1.lemma_multiset_has_no_duplicates_conv();
    assert forall|n: Seq<u8>|
        p1.contains(n) <==> (d.contains_key(n) && spec_is_page_name(n)) by {
        lemma_faithful_pages_membership(entries, d, n);
        if p1.contains(n) {
            assert(p1.to_multiset().count(n) > 0);
            assert(p0.to_multiset().count(n) > 0);
            assert(p0.contains(n));
        }
        if p0.contains(n) {
            assert(p0.to_multiset().count(n) > 0);
            assert(p1.to_multiset().count(n) > 0);
            assert(p1.contains(n));
        }
    }
    assert(pages_ready(d, p1)) by {
        assert forall|i: int|
            0 <= i < p1.len() implies d.contains_key(#[trigger] p1[i]) && spec_is_page_name(
            p1[i],
        ) && !d.contains_key(bak_of(p1[i])) by {
            assert(p1.contains(p1[i]));
            assert(p1.to_multiset().count(p1[i]) > 0);
            assert(p0.to_multiset().count(p1[i]) > 0);
            assert(p0.contains(p1[i]));
            lemma_faithful_pages_membership(entries, d, p1[i]);
            lemma_bak_of_has_suffix(p1[i]);
        }
        assert forall|i: int, j: int| 0 <= i < j < p1.len() implies p1[i] != p1[j] by {
            if p1[i] == p1[j] {
                assert(!p1.no_duplicates());
            }
        }
    }
}

/// Renaming a book twice restores it. The first run leaves the same names
/// present, so a second faithful listing finds the same sorted pages; the
/// second run swaps every pair back, and each content is again under its
/// original name.
pub proof fn lemma_rename_book_twice(d: DirState, e1: Seq<DirEntry>, e2: Seq<DirEntry>)
    requires
        faithful_listing(e1, d),
        forall|n: Seq<u8>| #[trigger] d.contains_key(n) ==> !has_bak_suffix(n),
        faithful_listing(e2, apply_ops(d, book_ops(pages_of(e1).sort_by(lex_leq_fn())))),
    ensures
        pages_of(e2).sort_by(lex_leq_fn()) == pages_of(e1).sort_by(lex_leq_fn()),
        plan_enabled(d, book_ops(pages_of(e1).sort_by(lex_leq_fn()))),
        apply_ops(
            apply_ops(d, book_ops(pages_of(e1).sort_by(lex_leq_fn()))),
            book_ops(pages_of(e2).sort_by(lex_leq_fn())),
        ) == d,
{
    broadcast use vstd::seq_lib::group_to_multiset_ensures;
    broadcast use vstd::multiset::group_multiset_axioms;

    let p1 = pages_of(e1).sort_by(lex_leq_fn());
    lemma_listed_pages_ready(d, e1);
    lemma_lex_total_ordering();
    pages_of(e1).lemma_sort_by_ensures(lex_leq_fn());
    lemma_book_roundtrip(d, p1);
    let r1 = apply_ops(d, book_ops(p1));
    lemma_faithful_pages_multiset(e1, d, e2, r1);
    let q0 = pages_of(e2);
    let p2 = q0.sort_by(lex_leq_fn());
    q0.lemma_sort_by_ensures(lex_leq_fn());
    vstd::seq_lib::lemma_sorted_unique(p1, p2, lex_leq_fn());
    assert(p2 == p1);
}

} // verus!
