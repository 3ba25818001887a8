//! Listing a book's pages: filtering directory entries down to regular image
//! files and sorting them byte-wise, which fixes the pairing order.

use vstd::prelude::*;
use crate::name::{spec_is_page_name, is_page_name, lex_le, lex_leq_fn, lex_leq};
use crate::name::{lemma_lex_total, lemma_lex_trans, lemma_lex_total_ordering};

verus! {

broadcast use vstd::seq_lib::group_seq_properties;

/// One directory entry as the caller read it: the file name and whether the
/// entry is a regular file.
pub struct DirEntry {
    pub name: Vec<u8>,
    pub is_file: bool,
}

/// The views of a sequence of names.
pub open spec fn views_of(s: Seq<Vec<u8>>) -> Seq<Seq<u8>> {
    s.map_values(|v: Vec<u8>| v@)
}

/// The page names among `entries`, in entry order: names of regular files
/// that pass the page filter.
pub open spec fn pages_of(entries: Seq<DirEntry>) -> Seq<Seq<u8>>
    decreases entries.len(),
{
    if entries.len() == 0 {
        Seq::empty()
    } else {
        let rest = pages_of(entries.drop_last());
        let e = entries.last();
        if e.is_file && spec_is_page_name(e.name@) {
            rest.push(e.name@)
        } else {
            rest
        }
    }
}

/// A name is listed as a page exactly when some entry is a regular file of
/// that name and the name passes the page filter.
pub proof fn lemma_pages_of_membership(entries: Seq<DirEntry>, n: Seq<u8>)
    ensures
        pages_of(entries).contains(n) <==> exists|i: int|
            0 <= i < entries.len() && entries[i].name@ == n && entries[i].is_file
                && spec_is_page_name(n),
    decreases entries.len(),
{
    if entries.len() == 0 {
    } else {
        let pre = entries.drop_last();
        let e = entries.last();
        lemma_pages_of_membership(pre, n);
        if pages_of(entries).contains(n) {
            if e.is_file && spec_is_page_name(e.name@) {
                let s = pages_of(pre);
                let k = choose|k: int| 0 <= k < s.push(e.name@).len() && s.push(e.name@)[k] == n;
                if k < s.len() {
                    assert(s.contains(n));
                    let i = choose|i: int|
                        0 <= i < pre.len() && pre[i].name@ == n && pre[i].is_file
                            && spec_is_page_name(n);
                    assert(entries[i].name@ == n && entries[i].is_file);
                } else {
                    assert(entries[entries.len() - 1].name@ == n);
                }
            } else {
                let i = choose|i: int|
                    0 <= i < pre.len() && pre[i].name@ == n && pre[i].is_file
                        && spec_is_page_name(n);
                assert(entries[i].name@ == n && entries[i].is_file);
            }
        }
        if exists|i: int|
            0 <= i < entries.len() && entries[i].name@ == n && entries[i].is_file
                && spec_is_page_name(n) {
            let i = choose|i: int|
                0 <= i < entries.len() && entries[i].name@ == n && entries[i].is_file
                    && spec_is_page_name(n);
            if i < entries.len() - 1 {
                assert(pre[i].name@ == n && pre[i].is_file);
                assert(pages_of(pre).contains(n));
                if e.is_file && spec_is_page_name(e.name@) {
                    let s = pages_of(pre);
                    let k = choose|k: int| 0 <= k < s.len() && s[k] == n;
                    assert(s.push(e.name@)[k] == n);
                }
            } else {
                let s = pages_of(pre);
                assert(pages_of(entries) == s.push(n));
                assert(s.push(n)[s.len() as int] == n);
            }
        }
    }
}

/// No two entries carry the same name, as directory listings guarantee.
pub open spec fn entry_names_distinct(entries: Seq<DirEntry>) -> bool {
    forall|i: int, j: int|
        0 <= i < j < entries.len() ==> entries[i].name@ != entries[j].name@
}

/// Distinct entry names give a page list without duplicates.
pub proof fn lemma_pages_of_distinct(entries: Seq<DirEntry>)
    requires
        entry_names_distinct(entries),
    ensures
        pages_of(entries).no_duplicates(),
    decreases entries.len(),
{
    if entries.len() == 0 {
    } else {
        let pre = entries.drop_last();
        let e = entries.last();
        assert(entry_names_distinct(pre));
        lemma_pages_of_distinct(pre);
        if e.is_file && spec_is_page_name(e.name@) {
            lemma_pages_of_membership(pre, e.name@);
            if pages_of(pre).contains(e.name@) {
                let i = choose|i: int|
                    0 <= i < pre.len() && pre[i].name@ == e.name@ && pre[i].is_file
                        && spec_is_page_name(e.name@);
                assert(entries[i].name@ == entries[entries.len() - 1].name@);
                assert(false);
            }
        }
    }
}

/// Every page name listed is a page name.
pub proof fn lemma_pages_of_are_pages(entries: Seq<DirEntry>)
    ensures
        forall|k: int|
            0 <= k < pages_of(entries).len() ==> #[trigger] spec_is_page_name(
                pages_of(entries)[k],
            ),
    decreases entries.len(),
{
    if entries.len() > 0 {
        let pre = entries.drop_last();
        let e = entries.last();
        lemma_pages_of_are_pages(pre);
        let s = pages_of(pre);
        assert forall|k: int|
            0 <= k < pages_of(entries).len() implies #[trigger] spec_is_page_name(
            pages_of(entries)[k],
        ) by {
            if e.is_file && spec_is_page_name(e.name@) {
                assert(pages_of(entries) == s.push(e.name@));
                if k < s.len() {
                    assert(pages_of(entries)[k] == s[k]);
                    assert(spec_is_page_name(s[k]));
                } else {
                    assert(pages_of(entries)[k] == e.name@);
                }
            } else {
                assert(pages_of(entries) == s);
                assert(spec_is_page_name(s[k]));
            }
        }
    }
}

/// A copy of a name with the same bytes.
pub fn copy_name(name: &Vec<u8>) -> (r: Vec<u8>)
    ensures
        r@ == name@,
{
    let r = name.clone();
    proof {
        assert(r@ =~= name@);
    }
    r
}

/// Inserts `item` into the byte-wise sorted `out`, keeping it sorted.
fn insert_sorted(out: &mut Vec<Vec<u8>>, item: Vec<u8>)
    requires
        vstd::relations::sorted_by(views_of(old(out)@), lex_leq_fn()),
    ensures
        vstd::relations::sorted_by(views_of(final(out)@), lex_leq_fn()),
        views_of(final(out)@).to_multiset() == views_of(old(out)@).to_multiset().insert(item@),
{
    broadcast use vstd::seq_lib::group_to_multiset_ensures;

    let mut k: usize = 0;
    while k < out.len() && lex_leq(&out[k], &item)
        invariant
            k <= out@.len(),
            out == old(out),
            forall|t: int| 0 <= t < k ==> lex_le(views_of(out@)[t], item@),
        decreases out@.len() - k,
    {
        k = k + 1;
    }
    proof {
        if k < out@.len() {
            lemma_lex_total(views_of(out@)[k as int], item@);
            assert(!lex_le(views_of(out@)[k as int], item@));
            assert(lex_le(item@, views_of(out@)[k as int]));
        }
    }
    let ghost before = views_of(out@);
    let ghost pos = k as int;
    out.insert(k, item);
    proof {
        let after = views_of(out@);
        assert(after =~= before.insert(pos, item@)) by {
            assert(forall|t: int| 0 <= t < pos ==> after[t] == before[t]);
            assert(after[pos] == item@);
            assert(forall|t: int| pos < t < after.len() ==> after[t] == before[t - 1]);
        }
        assert(vstd::relations::sorted_by(after, lex_leq_fn())) by {
            assert forall|t: int, u: int| 0 <= t < u < after.len() implies lex_leq_fn()(
                after[t],
                after[u],
            ) by {
                if t < pos && u == pos {
                } else if t == pos && u > pos {
                    assert(lex_le(item@, before[pos]));
                    if pos == u - 1 {
                    } else {
                        assert(lex_leq_fn()(before[pos], before[u - 1]));
                        lemma_lex_trans(item@, before[pos], before[u - 1]);
                    }
                } else if t < pos && u > pos {
                } else if t > pos && u > pos {
                } else {
                }
            }
        }
        assert(after.to_multiset() == before.to_multiset().insert(item@));
    }
}

/// Sorts names byte-wise ascending; the result is the unique sorted
/// rearrangement of the input.
pub fn sort_names(names: Vec<Vec<u8>>) -> (r: Vec<Vec<u8>>)
    ensures
        vstd::relations::sorted_by(views_of(r@), lex_leq_fn()),
        views_of(r@).to_multiset() == views_of(names@).to_multiset(),
        views_of(r@) == views_of(names@).sort_by(lex_leq_fn()),
{
    broadcast use vstd::seq_lib::group_to_multiset_ensures;
    broadcast use vstd::multiset::group_multiset_axioms;

    let ghost orig = views_of(names@);
    let mut inp = names;
    let mut out: Vec<Vec<u8>> = Vec::new();
    proof {
        assert(views_of(out@) =~= Seq::<Seq<u8>>::empty());
        assert(views_of(out@).to_multiset().add(views_of(inp@).to_multiset())
            =~= orig.to_multiset());
    }
    loop
        invariant
            vstd::relations::sorted_by(views_of(out@), lex_leq_fn()),
            views_of(out@).to_multiset().add(views_of(inp@).to_multiset())
                == orig.to_multiset(),
        ensures
            views_of(out@).to_multiset() == orig.to_multiset(),
        decreases inp@.len(),
    {
        let ghost inp_before = views_of(inp@);
        match inp.pop() {
            None => {
                proof {
                    assert(views_of(inp@) =~= Seq::<Seq<u8>>::empty());
                    assert(views_of(out@).to_multiset() =~= orig.to_multiset());
                }
                break ;
            },
            Some(item) => {
                proof {
                    assert(inp_before =~= views_of(inp@).push(item@));
                    assert(inp_before.to_multiset() == views_of(inp@).to_multiset().insert(
                        item@,
                    ));
                }
                let ghost out_before = views_of(out@);
                insert_sorted(&mut out, item);
                proof {
                    assert(views_of(out@).to_multiset().add(views_of(inp@).to_multiset())
                        =~= orig.to_multiset());
                }
            },
        }
    }
    proof {
        lemma_lex_total_ordering();
        orig.lemma_sort_by_ensures(lex_leq_fn());
        vstd::seq_lib::lemma_sorted_unique(
            views_of(out@),
            orig.sort_by(lex_leq_fn()),
            lex_leq_fn(),
        );
    }
    out
}

/// Lists the pages of a book: keeps the regular files whose extension is
/// `jpg`, `png` or `webp`, sorted by name, byte-wise ascending.
///
/// The result is pinned down exactly — the sorted rearrangement of the
/// entries' page names — so listing an unchanged directory twice returns
/// the identical sequence.
pub fn list_pages(entries: &Vec<DirEntry>) -> (pages: Vec<Vec<u8>>)
    ensures
        vstd::relations::sorted_by(views_of(pages@), lex_leq_fn()),
        views_of(pages@).to_multiset() == pages_of(entries@).to_multiset(),
        views_of(pages@) == pages_of(entries@).sort_by(lex_leq_fn()),
{
    let mut found: Vec<Vec<u8>> = Vec::new();
    let mut i: usize = 0;
    proof {
        assert(entries@.take(0) =~= Seq::<DirEntry>::empty());
        assert(views_of(found@) =~= pages_of(entries@.take(0)));
    }
    while i < entries.len()
        invariant
            i <= entries@.len(),
            views_of(found@) == pages_of(entries@.take(i as int)),
        decreases entries@.len() - i,
    {
        let ghost taken = entries@.take(i as int);
        proof {
            assert(entries@.take(i + 1).drop_last() =~= taken);
            assert(entries@.take(i + 1).last() == entries@[i as int]);
        }
        let e = &entries[i];
        if e.is_file && is_page_name(&e.name) {
            let n = copy_name(&e.name);
            found.push(n);
            proof {
                assert(views_of(found@) =~= pages_of(entries@.take(i + 1)));
            }
        } else {
            proof {
                assert(views_of(found@) =~= pages_of(entries@.take(i + 1)));
            }
        }
        i = i + 1;
    }
    proof {
        assert(entries@.take(entries@.len() as int) =~= entries@);
    }
    sort_names(found)
}

/// Listing is deterministic: any two page lists drawn from the same entries
/// — sorted, with the same names — are the same sequence.
pub proof fn lemma_listing_deterministic(
    entries: Seq<DirEntry>,
    first: Seq<Seq<u8>>,
    second: Seq<Seq<u8>>,
)
    requires
        vstd::relations::sorted_by(first, lex_leq_fn()),
        first.to_multiset() == pages_of(entries).to_multiset(),
        vstd::relations::sorted_by(second, lex_leq_fn()),
        second.to_multiset() == pages_of(entries).to_multiset(),
    ensures
        first == second,
{
    lemma_lex_total_ordering();
    vstd::seq_lib::lemma_sorted_unique(first, second, lex_leq_fn());
}

} // verus!
