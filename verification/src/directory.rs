//! An in-memory flat directory: the executable counterpart of the rename
//! semantics. A book's plan can be run against it step by step, with the
//! same success condition and the same effect that the semantics gives the
//! real filesystem's rename.

use vstd::prelude::*;
use crate::name::names_equal;
use crate::listing::{DirEntry, copy_name, entry_names_distinct};
use crate::plan::{RenameOp, op_views};
use crate::semantics::{DirState, rename_enabled, rename_map, plan_enabled, apply_ops};
use crate::semantics::lemma_apply_ops_push;
use crate::laws::{faithful_listing, page_partner, lemma_listed_pages_ready, lemma_book_run};
use crate::name::{has_bak_suffix, spec_is_page_name, lex_leq_fn};
use crate::listing::pages_of;
use crate::plan::{book_plan, book_ops};
use crate::semantics::lemma_plan_enabled_prefix;

verus! {

/// A failed rename step: the source name that was not present, and the
/// name it was to move to.
pub struct RenameError {
    pub from: Vec<u8>,
    pub to: Vec<u8>,
}

/// The directory state an association list of (name, content) rows stands
/// for: later rows would win, though a well-formed directory never holds a
/// name twice.
pub open spec fn assoc_map(s: Seq<(Vec<u8>, Vec<u8>)>) -> DirState
    decreases s.len(),
{
    if s.len() == 0 {
        Map::empty()
    } else {
        assoc_map(s.drop_last()).insert(s.last().0@, s.last().1@)
    }
}

/// No name appears in two rows.
pub open spec fn names_distinct(s: Seq<(Vec<u8>, Vec<u8>)>) -> bool {
    forall|i: int, j: int| 0 <= i < j < s.len() ==> s[i].0@ != s[j].0@
}

/// A name is present exactly when some row carries it.
proof fn lemma_assoc_contains(s: Seq<(Vec<u8>, Vec<u8>)>, n: Seq<u8>)
    ensures
        assoc_map(s).contains_key(n) <==> exists|i: int| 0 <= i < s.len() && s[i].0@ == n,
    decreases s.len(),
{
    if s.len() > 0 {
        lemma_assoc_contains(s.drop_last(), n);
        if assoc_map(s).contains_key(n) {
            if n == s.last().0@ {
                assert(s[s.len() - 1].0@ == n);
            } else {
                let i = choose|i: int| 0 <= i < s.drop_last().len() && s.drop_last()[i].0@ == n;
                assert(s[i].0@ == n);
            }
        }
        if exists|i: int| 0 <= i < s.len() && s[i].0@ == n {
            let i = choose|i: int| 0 <= i < s.len() && s[i].0@ == n;
            if i < s.len() - 1 {
                assert(s.drop_last()[i].0@ == n);
                assert(assoc_map(s.drop_last()).contains_key(n));
            }
        }
    }
}

/// In a well-formed directory each row's name resolves to that row's
/// content.
proof fn lemma_assoc_value(s: Seq<(Vec<u8>, Vec<u8>)>, i: int)
    requires
        names_distinct(s),
        0 <= i < s.len(),
    ensures
        assoc_map(s).contains_key(s[i].0@),
        assoc_map(s)[s[i].0@] == s[i].1@,
    decreases s.len(),
{
    if i == s.len() - 1 {
    } else {
        assert(names_distinct(s.drop_last())) by {
            assert(forall|p: int, q: int|
                0 <= p < q < s.drop_last().len() ==> s[p].0@ != s[q].0@);
        }
        lemma_assoc_value(s.drop_last(), i);
        assert(s.drop_last()[i] == s[i]);
        assert(s[i].0@ != s.last().0@);
    }
}

/// Appending a fresh row inserts its binding.
proof fn lemma_assoc_push(s: Seq<(Vec<u8>, Vec<u8>)>, row: (Vec<u8>, Vec<u8>))
    ensures
        assoc_map(s.push(row)) == assoc_map(s).insert(row.0@, row.1@),
{
    assert(s.push(row).drop_last() =~= s);
    assert(s.push(row).last() == row);
}

/// Removing a row removes its binding, and only its.
proof fn lemma_assoc_remove(s: Seq<(Vec<u8>, Vec<u8>)>, i: int)
    requires
        names_distinct(s),
        0 <= i < s.len(),
    ensures
        assoc_map(s.remove(i)) == assoc_map(s).remove(s[i].0@),
        names_distinct(s.remove(i)),
    decreases s.len(),
{
    let n = s[i].0@;
    s.remove_ensures(i);
    assert(names_distinct(s.remove(i))) by {
        assert forall|p: int, q: int|
            0 <= p < q < s.remove(i).len() implies s.remove(i)[p].0@ != s.remove(i)[q].0@ by {
            let p0 = if p < i { p } else { p + 1 };
            let q0 = if q < i { q } else { q + 1 };
            assert(s.remove(i)[p] == s[p0]);
            assert(s.remove(i)[q] == s[q0]);
            assert(s[p0].0@ != s[q0].0@);
        }
    }
    if i == s.len() - 1 {
        assert(s.remove(i) =~= s.drop_last());
        lemma_assoc_contains(s.drop_last(), n);
        if exists|k: int| 0 <= k < s.drop_last().len() && s.drop_last()[k].0@ == n {
            let k = choose|k: int| 0 <= k < s.drop_last().len() && s.drop_last()[k].0@ == n;
            assert(s[k].0@ == s[i].0@);
            assert(false);
        }
        assert(!assoc_map(s.drop_last()).contains_key(n));
        assert(assoc_map(s).remove(n) =~= assoc_map(s.drop_last()));
    } else {
        assert(names_distinct(s.drop_last())) by {
            assert(forall|p: int, q: int|
                0 <= p < q < s.drop_last().len() ==> s[p].0@ != s[q].0@);
        }
        assert(s.remove(i).drop_last() =~= s.drop_last().remove(i));
        assert(s.remove(i).last() == s.last());
        lemma_assoc_remove(s.drop_last(), i);
        assert(s.drop_last()[i] == s[i]);
        assert(s.last().0@ != n);
        assert(assoc_map(s.drop_last()).remove(n).insert(s.last().0@, s.last().1@)
            =~= assoc_map(s.drop_last()).insert(s.last().0@, s.last().1@).remove(n));
    }
}

/// A flat in-memory directory of named files.
pub struct Directory {
    files: Vec<(Vec<u8>, Vec<u8>)>,
}

impl View for Directory {
    type V = DirState;

    closed spec fn view(&self) -> DirState {
        assoc_map(self.files@)
    }
}

impl Directory {
    /// Well-formed: no name held twice.
    pub closed spec fn wf(&self) -> bool {
        names_distinct(self.files@)
    }

    /// An empty directory.
    pub fn new() -> (d: Directory)
        ensures
            d.wf(),
            d@ == Map::<Seq<u8>, Seq<u8>>::empty(),
    {
        Directory { files: Vec::new() }
    }

    /// The row index holding `name`, if the name is present.
    fn find(&self, name: &Vec<u8>) -> (r: Option<usize>)
        requires
            self.wf(),
        ensures
            match r {
                Some(i) => i < self.files@.len() && self.files@[i as int].0@ == name@
                    && self@.contains_key(name@) && self@[name@] == self.files@[i as int].1@,
                None => !self@.contains_key(name@),
            },
    {
        let mut i: usize = 0;
        while i < self.files.len()
            invariant
                self.wf(),
                i <= self.files@.len(),
                forall|t: int| 0 <= t < i ==> self.files@[t].0@ != name@,
            decreases self.files@.len() - i,
        {
            if names_equal(&self.files[i].0, name) {
                proof {
                    lemma_assoc_value(self.files@, i as int);
                }
                return Some(i);
            }
            i = i + 1;
        }
        proof {
            lemma_assoc_contains(self.files@, name@);
            if exists|k: int| 0 <= k < self.files@.len() && self.files@[k].0@ == name@ {
                let k = choose|k: int| 0 <= k < self.files@.len() && self.files@[k].0@ == name@;
                assert(false);
            }
        }
        None
    }

    /// Whether `name` is present.
    pub fn contains(&self, name: &Vec<u8>) -> (r: bool)
        requires
            self.wf(),
        ensures
            r == self@.contains_key(name@),
    {
        self.find(name).is_some()
    }

    /// The content under `name`, if the name is present.
    pub fn content_of(&self, name: &Vec<u8>) -> (r: Option<Vec<u8>>)
        requires
            self.wf(),
        ensures
            match r {
                Some(c) => self@.contains_key(name@) && c@ == self@[name@],
                None => !self@.contains_key(name@),
            },
    {
        match self.find(name) {
            None => None,
            Some(i) => Some(copy_name(&self.files[i].1)),
        }
    }

    /// Puts `content` under `name`, overwriting what was there.
    pub fn create_file(&mut self, name: &Vec<u8>, content: Vec<u8>) -> (r: ())
        requires
            old(self).wf(),
        ensures
            final(self).wf(),
            final(self)@ == old(self)@.insert(name@, content@),
    {
        let ghost m = self@;
        match self.find(name) {
            None => {
                proof {
                    lemma_assoc_contains(self.files@, name@);
                    lemma_assoc_push(self.files@, (*name, content));
                }
                let n = copy_name(name);
                let ghost before = self.files@;
                self.files.push((n, content));
                proof {
                    lemma_assoc_push(before, self.files@.last());
                    assert(self.files@.drop_last() =~= before);
                    assert(names_distinct(self.files@)) by {
                        lemma_assoc_contains(before, name@);
                        assert(forall|t: int|
                            0 <= t < before.len() ==> self.files@[t] == before[t]);
                    }
                    assert(final(self)@ =~= m.insert(name@, content@));
                }
            },
            Some(i) => {
                proof {
                    lemma_assoc_remove(self.files@, i as int);
                }
                let ghost before = self.files@;
                self.files.remove(i);
                let ghost mid = self.files@;
                let n = copy_name(name);
                self.files.push((n, content));
                proof {
                    lemma_assoc_push(mid, self.files@.last());
                    assert(self.files@.drop_last() =~= mid);
                    assert(names_distinct(self.files@)) by {
                        lemma_assoc_contains(mid, name@);
                        if exists|k: int| 0 <= k < mid.len() && mid[k].0@ == name@ {
                            let k = choose|k: int| 0 <= k < mid.len() && mid[k].0@ == name@;
                            let k0 = if k < i { k } else { k + 1 };
                            before.remove_ensures(i as int);
                            assert(before[k0].0@ == name@);
                            assert(before[i as int].0@ == name@);
                            assert(false);
                        }
                        assert(forall|t: int| 0 <= t < mid.len() ==> self.files@[t] == mid[t]);
                    }
                    assert(final(self)@ =~= m.insert(name@, content@)) by {
                        assert(final(self)@ == m.remove(name@).insert(name@, content@));
                    }
                }
            },
        }
    }

    /// One rename step, with the semantics' effect: fails, changing
    /// nothing, exactly when the source name is absent; otherwise the
    /// content moves from `from` to `to`, overwriting `to` if occupied.
    pub fn rename(&mut self, from: &Vec<u8>, to: &Vec<u8>) -> (r: Result<(), RenameError>)
        requires
            old(self).wf(),
        ensures
            final(self).wf(),
            match r {
                Ok(()) => rename_enabled(old(self)@, from@, to@) && final(self)@ == rename_map(
                    old(self)@,
                    from@,
                    to@,
                ),
                Err(e) => !rename_enabled(old(self)@, from@, to@) && final(self)@ == old(self)@
                    && e.from@ == from@ && e.to@ == to@,
            },
    {
        let ghost m = self@;
        match self.find(from) {
            None => Err(RenameError { from: copy_name(from), to: copy_name(to) }),
            Some(i) => {
                proof {
                    lemma_assoc_remove(self.files@, i as int);
                }
                let ghost before = self.files@;
                let row = self.files.remove(i);
                let ghost content_view = row.1@;
                proof {
                    assert(self@ == m.remove(from@));
                    assert(content_view == m[from@]);
                }
                self.create_file(to, row.1);
                proof {
                    assert(final(self)@ == m.remove(from@).insert(to@, m[from@]));
                }
                Ok(())
            },
        }
    }

    /// Runs a plan step by step, stopping at the first step whose source
    /// is missing: on success the whole plan has run; on failure the steps
    /// before the failing one have run and nothing else, the failure
    /// window the four-step exchange leaves open.
    pub fn apply_plan(&mut self, ops: &Vec<RenameOp>) -> (r: Result<(), RenameError>)
        requires
            old(self).wf(),
        ensures
            final(self).wf(),
            match r {
                Ok(()) => plan_enabled(old(self)@, op_views(ops@)) && final(self)@ == apply_ops(
                    old(self)@,
                    op_views(ops@),
                ),
                Err(e) => exists|p: int|
                    0 <= p < ops@.len() && plan_enabled(old(self)@, op_views(ops@).take(p))
                        && final(self)@ == apply_ops(old(self)@, op_views(ops@).take(p))
                        && !rename_enabled(final(self)@, ops@[p].from@, ops@[p].to@)
                        && e.from@ == ops@[p].from@ && e.to@ == ops@[p].to@,
            },
    {
        let ghost m = self@;
        let ghost views = op_views(ops@);
        let mut i: usize = 0;
        proof {
            assert(views.take(0) =~= Seq::<(Seq<u8>, Seq<u8>)>::empty());
        }
        while i < ops.len()
            invariant
                self.wf(),
                i <= ops@.len(),
                m == old(self)@,
                views == op_views(ops@),
                plan_enabled(m, views.take(i as int)),
                self@ == apply_ops(m, views.take(i as int)),
            decreases ops@.len() - i,
        {
            let ghost taken = views.take(i as int);
            let step = self.rename(&ops[i].from, &ops[i].to);
            proof {
                assert(views.take(i + 1) =~= taken.push(views[i as int]));
                lemma_apply_ops_push(m, taken, views[i as int]);
            }
            match step {
                Ok(()) => {},
                Err(e) => {
                    proof {
                        let p = i as int;
                        assert(views[p].0 == ops@[p].from@);
                        assert(views[p].1 == ops@[p].to@);
                        assert(plan_enabled(m, views.take(p)) && self@ == apply_ops(
                            m,
                            views.take(p),
                        ) && !rename_enabled(self@, ops@[p].from@, ops@[p].to@) && e.from@
                            == ops@[p].from@ && e.to@ == ops@[p].to@);
                        assert(exists|q: int|
                            0 <= q < ops@.len() && plan_enabled(m, op_views(ops@).take(q))
                                && self@ == apply_ops(m, op_views(ops@).take(q))
                                && !rename_enabled(self@, ops@[q].from@, ops@[q].to@)
                                && e.from@ == ops@[q].from@ && e.to@ == ops@[q].to@) by {
                            assert(op_views(ops@).take(p) == views.take(p));
                            assert(0 <= p < ops@.len() && plan_enabled(m, op_views(ops@).take(p))
                                && self@ == apply_ops(m, op_views(ops@).take(p))
                                && !rename_enabled(self@, ops@[p].from@, ops@[p].to@)
                                && e.from@ == ops@[p].from@ && e.to@ == ops@[p].to@);
                        }
                    }
                    return Err(e);
                },
            }
            i = i + 1;
        }
        proof {
            assert(views.take(ops@.len() as int) =~= views);
        }
        Ok(())
    }

    /// The directory's entries, one per present name, each a regular file.
    pub fn entries(&self) -> (r: Vec<DirEntry>)
        requires
            self.wf(),
        ensures
            faithful_listing(r@, self@),
            forall|i: int|
                0 <= i < r@.len() ==> (#[trigger] r@[i]).is_file && self@.contains_key(
                    r@[i].name@,
                ),
    {
        let mut r: Vec<DirEntry> = Vec::new();
        let mut i: usize = 0;
        while i < self.files.len()
            invariant
                self.wf(),
                i <= self.files@.len(),
                r@.len() == i,
                forall|t: int|
                    0 <= t < i ==> (#[trigger] r@[t]).name@ == self.files@[t].0@
                        && r@[t].is_file,
            decreases self.files@.len() - i,
        {
            let n = copy_name(&self.files[i].0);
            r.push(DirEntry { name: n, is_file: true });
            i = i + 1;
        }
        proof {
            assert(faithful_listing(r@, self@)) by {
                assert forall|t: int|
                    0 <= t < r@.len() && (#[trigger] r@[t]).is_file implies self@.contains_key(
                    r@[t].name@,
                ) by {
                    lemma_assoc_value(self.files@, t);
                }
                assert forall|n: Seq<u8>| #[trigger] self@.contains_key(n) implies exists|t: int|
                    0 <= t < r@.len() && (#[trigger] r@[t]).name@ == n && r@[t].is_file by {
                    lemma_assoc_contains(self.files@, n);
                    let k = choose|k: int| 0 <= k < self.files@.len() && self.files@[k].0@ == n;
                    assert(r@[k].name@ == n && r@[k].is_file);
                }
                assert(entry_names_distinct(r@));
            }
        }
        r
    }

    /// Renames the whole book held in this directory: lists the pages,
    /// pairs them two at a time in sorted order, and runs every pair's
    /// four-step exchange, first pair first. With no leftover `.bak` name
    /// the whole plan runs: afterwards the same names are present, each
    /// paired page holds its partner's former content, and every other
    /// file — a trailing unpaired page, non-image files — is untouched.
    pub fn rename_book(&mut self) -> (r: Result<(), RenameError>)
        requires
            old(self).wf(),
            forall|n: Seq<u8>| #[trigger] old(self)@.contains_key(n) ==> !has_bak_suffix(n),
        ensures
            final(self).wf(),
            r is Ok,
            final(self)@.dom() == old(self)@.dom(),
            exists|pages: Seq<Seq<u8>>|
                {
                    &&& vstd::relations::sorted_by(pages, lex_leq_fn())
                    &&& (forall|i: int, j: int|
                        0 <= i < j < pages.len() ==> pages[i] != pages[j])
                    &&& (forall|n: Seq<u8>|
                        #[trigger] pages.contains(n) <==> (old(self)@.contains_key(n)
                            && spec_is_page_name(n)))
                    &&& (forall|i: int|
                        0 <= i < pages.len() ==> final(self)@[#[trigger] pages[i]] == old(
                            self,
                        )@[page_partner(pages, i)])
                    &&& (forall|k: Seq<u8>|
                        old(self)@.contains_key(k) && !pages.contains(k) ==> final(self)@[k]
                            == old(self)@[k])
                },
    {
        let ghost m = self@;
        let entries = self.entries();
        let ops = book_plan(&entries);
        let ghost pages = pages_of(entries@).sort_by(lex_leq_fn());
        proof {
            lemma_listed_pages_ready(m, entries@);
            lemma_book_run(m, pages);
        }
        let r = self.apply_plan(&ops);
        proof {
            if r is Err {
                let e = r->Err_0;
                let p = choose|p: int|
                    0 <= p < ops@.len() && plan_enabled(m, op_views(ops@).take(p)) && self@
                        == apply_ops(m, op_views(ops@).take(p)) && !rename_enabled(
                        self@,
                        ops@[p].from@,
                        ops@[p].to@,
                    ) && e.from@ == ops@[p].from@ && e.to@ == ops@[p].to@;
                lemma_plan_enabled_prefix(m, op_views(ops@), p);
                assert(op_views(ops@)[p].0 == ops@[p].from@);
                assert(false);
            }
            assert(self@ == apply_ops(m, book_ops(pages)));
            assert(exists|ps: Seq<Seq<u8>>|
                {
                    &&& vstd::relations::sorted_by(ps, lex_leq_fn())
                    &&& (forall|i: int, j: int| 0 <= i < j < ps.len() ==> ps[i] != ps[j])
                    &&& (forall|n: Seq<u8>|
                        #[trigger] ps.contains(n) <==> (m.contains_key(n) && spec_is_page_name(
                            n,
                        )))
                    &&& (forall|i: int|
                        0 <= i < ps.len() ==> self@[#[trigger] ps[i]] == m[page_partner(ps, i)])
                    &&& (forall|k: Seq<u8>|
                        m.contains_key(k) && !ps.contains(k) ==> self@[k] == m[k])
                }) by {
                assert({
                    &&& vstd::relations::sorted_by(pages, lex_leq_fn())
                    &&& (forall|i: int, j: int|
                        0 <= i < j < pages.len() ==> pages[i] != pages[j])
                    &&& (forall|n: Seq<u8>|
                        #[trigger] pages.contains(n) <==> (m.contains_key(n)
                            && spec_is_page_name(n)))
                    &&& (forall|i: int|
                        0 <= i < pages.len() ==> self@[#[trigger] pages[i]] == m[page_partner(
                            pages,
                            i,
                        )])
                    &&& (forall|k: Seq<u8>|
                        m.contains_key(k) && !pages.contains(k) ==> self@[k] == m[k])
                });
            }
        }
        r
    }
}

} // verus!
