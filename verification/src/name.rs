//! File names as byte strings: extension extraction, the page-name filter,
//! the `.bak` suffix, and the byte-wise lexicographic order used to sort a
//! book's pages.

use vstd::prelude::*;

verus! {

/// The byte `'.'`.
pub const DOT: u8 = 46;

/// Index of the last `'.'` in `name`, or `-1` if there is none.
pub open spec fn last_dot(name: Seq<u8>) -> int
    decreases name.len(),
{
    if name.len() == 0 {
        -1
    } else if name[name.len() - 1] == DOT {
        name.len() - 1
    } else {
        last_dot(name.drop_last())
    }
}

/// `last_dot` really is the largest index holding a `'.'`.
pub proof fn lemma_last_dot_props(name: Seq<u8>)
    ensures
        -1 <= last_dot(name) < name.len(),
        last_dot(name) == -1 ==> forall|i: int| 0 <= i < name.len() ==> name[i] != DOT,
        last_dot(name) >= 0 ==> name[last_dot(name)] == DOT,
        forall|i: int| last_dot(name) < i < name.len() ==> name[i] != DOT,
    decreases name.len(),
{
    if name.len() == 0 {
    } else if name[name.len() - 1] == DOT {
    } else {
        lemma_last_dot_props(name.drop_last());
        assert(forall|i: int|
            0 <= i < name.len() - 1 ==> name[i] == name.drop_last()[i]);
    }
}

/// A name has an extension when a `'.'` occurs past the first byte; a name
/// whose only `'.'` is its first byte (a hidden file) has none.
pub open spec fn has_extension(name: Seq<u8>) -> bool {
    last_dot(name) >= 1
}

/// The bytes after the last `'.'`.
pub open spec fn extension(name: Seq<u8>) -> Seq<u8> {
    name.subrange(last_dot(name) + 1, name.len() as int)
}

/// Index of the last `'.'` in `name`, if any.
fn find_last_dot(name: &Vec<u8>) -> (r: Option<usize>)
    ensures
        match r {
            Some(i) => last_dot(name@) == i,
            None => last_dot(name@) == -1,
        },
{
    let mut j: usize = name.len();
    proof {
        assert(name@.take(j as int) =~= name@);
    }
    while j > 0
        invariant
            j <= name@.len(),
            last_dot(name@) == last_dot(name@.take(j as int)),
        decreases j,
    {
        j = j - 1;
        proof {
            assert(name@.take(j + 1).drop_last() =~= name@.take(j as int));
            assert(name@.take(j + 1).last() == name@[j as int]);
        }
        if name[j] == DOT {
            return Some(j);
        }
    }
    None
}

/// The extension of `name`, if it has one: the bytes after the final `'.'`.
///
/// Names without a `'.'`, and hidden names whose only `'.'` leads, yield
/// `None` and are excluded from paging.
pub fn extension_of(name: &Vec<u8>) -> (r: Option<Vec<u8>>)
    ensures
        match r {
            Some(e) => has_extension(name@) && e@ == extension(name@),
            None => !has_extension(name@),
        },
{
    let d = find_last_dot(name);
    match d {
        None => None,
        Some(i) => {
            if i == 0 {
                None
            } else {
                let n = name.len();
                proof {
                    lemma_last_dot_props(name@);
                    assert(i < n);
                }
                let mut e: Vec<u8> = Vec::new();
                let mut k: usize = i + 1;
                while k < name.len()
                    invariant
                        i + 1 <= k <= name@.len(),
                        i < name@.len(),
                        e@ =~= name@.subrange(i + 1, k as int),
                    decreases name@.len() - k,
                {
                    e.push(name[k]);
                    k = k + 1;
                }
                proof {
                    assert(e@ =~= extension(name@));
                }
                Some(e)
            }
        },
    }
}

/// The recognized page extensions, case-sensitively: `jpg`, `png`, `webp`.
pub open spec fn is_page_extension(e: Seq<u8>) -> bool {
    ||| e == seq![106u8, 112u8, 103u8]
    ||| e == seq![112u8, 110u8, 103u8]
    ||| e == seq![119u8, 101u8, 98u8, 112u8]
}

/// A page is a file whose extension is `jpg`, `png` or `webp`.
pub open spec fn spec_is_page_name(name: Seq<u8>) -> bool {
    has_extension(name) && is_page_extension(extension(name))
}

/// Whether `name` names a page: it has an extension equal to `jpg`, `png`
/// or `webp`.
pub fn is_page_name(name: &Vec<u8>) -> (r: bool)
    ensures
        r == spec_is_page_name(name@),
{
    match extension_of(name) {
        None => false,
        Some(e) => {
            let r = if e.len() == 3 {
                (e[0] == 106 && e[1] == 112 && e[2] == 103) || (e[0] == 112 && e[1] == 110 && e[2]
                    == 103)
            } else if e.len() == 4 {
                e[0] == 119 && e[1] == 101 && e[2] == 98 && e[3] == 112
            } else {
                false
            };
            proof {
                let j = seq![106u8, 112u8, 103u8];
                let p = seq![112u8, 110u8, 103u8];
                let w = seq![119u8, 101u8, 98u8, 112u8];
                if e@.len() == 3 {
                    if e@[0] == 106 && e@[1] == 112 && e@[2] == 103 {
                        assert(e@ =~= j);
                    }
                    if e@[0] == 112 && e@[1] == 110 && e@[2] == 103 {
                        assert(e@ =~= p);
                    }
                } else if e@.len() == 4 {
                    if e@[0] == 119 && e@[1] == 101 && e@[2] == 98 && e@[3] == 112 {
                        assert(e@ =~= w);
                    }
                }
            }
            r
        },
    }
}

/// The `.bak` suffix appended while a pair's names are being exchanged.
pub open spec fn bak_suffix() -> Seq<u8> {
    seq![46u8, 98u8, 97u8, 107u8]
}

/// `name` with `.bak` appended.
pub open spec fn bak_of(name: Seq<u8>) -> Seq<u8> {
    name + bak_suffix()
}

/// Builds `name` + `.bak`.
pub fn bak_name(name: &Vec<u8>) -> (r: Vec<u8>)
    ensures
        r@ == bak_of(name@),
{
    let mut r: Vec<u8> = Vec::new();
    let mut k: usize = 0;
    while k < name.len()
        invariant
            k <= name@.len(),
            r@ =~= name@.take(k as int),
        decreases name@.len() - k,
    {
        r.push(name[k]);
        k = k + 1;
    }
    r.push(46);
    r.push(98);
    r.push(97);
    r.push(107);
    proof {
        assert(r@ =~= bak_of(name@));
    }
    r
}

/// Appending `.bak` is injective.
pub proof fn lemma_bak_injective(a: Seq<u8>, b: Seq<u8>)
    requires
        bak_of(a) == bak_of(b),
    ensures
        a == b,
{
    assert(bak_suffix().len() == 4);
    assert(bak_of(a).len() == a.len() + 4);
    assert(bak_of(b).len() == b.len() + 4);
    assert(a.len() == b.len());
    assert(a =~= b) by {
        assert(forall|i: int|
            0 <= i < a.len() ==> a[i] == bak_of(a)[i] && b[i] == bak_of(b)[i]);
    }
}

/// A `.bak` name is longer than, hence different from, the name itself.
pub proof fn lemma_bak_distinct(a: Seq<u8>)
    ensures
        bak_of(a).len() == a.len() + 4,
        bak_of(a) != a,
{
}

/// Whether two names are the same bytes.
pub fn names_equal(a: &Vec<u8>, b: &Vec<u8>) -> (r: bool)
    ensures
        r == (a@ == b@),
{
    if a.len() != b.len() {
        return false;
    }
    let mut i: usize = 0;
    while i < a.len()
        invariant
            a@.len() == b@.len(),
            i <= a@.len(),
            forall|t: int| 0 <= t < i ==> a@[t] == b@[t],
        decreases a@.len() - i,
    {
        if a[i] != b[i] {
            return false;
        }
        i = i + 1;
    }
    proof {
        assert(a@ =~= b@);
    }
    true
}

/// Whether a name already ends in `.bak`.
pub open spec fn has_bak_suffix(name: Seq<u8>) -> bool {
    name.len() >= 4 && name.subrange(name.len() - 4, name.len() as int) == bak_suffix()
}

/// Appending `.bak` yields a name that ends in `.bak`.
pub proof fn lemma_bak_of_has_suffix(name: Seq<u8>)
    ensures
        has_bak_suffix(bak_of(name)),
{
    let s = bak_of(name);
    assert(s.subrange(s.len() - 4, s.len() as int) =~= bak_suffix());
}

/// Byte-wise lexicographic order on names: the order in which a book's
/// pages are paired.
pub open spec fn lex_le(a: Seq<u8>, b: Seq<u8>) -> bool
    decreases a.len(),
{
    if a.len() == 0 {
        true
    } else if b.len() == 0 {
        false
    } else if a.first() < b.first() {
        true
    } else if a.first() > b.first() {
        false
    } else {
        lex_le(a.drop_first(), b.drop_first())
    }
}

/// `lex_le` as a closure, for `sorted_by` and `sort_by`.
pub open spec fn lex_leq_fn() -> spec_fn(Seq<u8>, Seq<u8>) -> bool {
    |x: Seq<u8>, y: Seq<u8>| lex_le(x, y)
}

pub proof fn lemma_lex_refl(a: Seq<u8>)
    ensures
        lex_le(a, a),
    decreases a.len(),
{
    if a.len() > 0 {
        lemma_lex_refl(a.drop_first());
    }
}

pub proof fn lemma_lex_antisym(a: Seq<u8>, b: Seq<u8>)
    requires
        lex_le(a, b),
        lex_le(b, a),
    ensures
        a == b,
    decreases a.len(),
{
    if a.len() > 0 && b.len() > 0 {
        lemma_lex_antisym(a.drop_first(), b.drop_first());
        assert(a =~= seq![a.first()] + a.drop_first());
        assert(b =~= seq![b.first()] + b.drop_first());
    } else {
        assert(a =~= b);
    }
}

pub proof fn lemma_lex_trans(a: Seq<u8>, b: Seq<u8>, c: Seq<u8>)
    requires
        lex_le(a, b),
        lex_le(b, c),
    ensures
        lex_le(a, c),
    decreases a.len(),
{
    if a.len() > 0 && b.len() > 0 && c.len() > 0 {
        if a.first() == b.first() && b.first() == c.first() {
            lemma_lex_trans(a.drop_first(), b.drop_first(), c.drop_first());
        }
    }
}

pub proof fn lemma_lex_total(a: Seq<u8>, b: Seq<u8>)
    ensures
        lex_le(a, b) || lex_le(b, a),
    decreases a.len(),
{
    if a.len() > 0 && b.len() > 0 && a.first() == b.first() {
        lemma_lex_total(a.drop_first(), b.drop_first());
    }
}

/// `lex_le` is a total order, as `sort_by` and `lemma_sorted_unique` need.
pub proof fn lemma_lex_total_ordering()
    ensures
        vstd::relations::total_ordering(lex_leq_fn()),
{
    let leq = lex_leq_fn();
    assert forall|x: Seq<u8>| #[trigger] leq(x, x) by {
        lemma_lex_refl(x);
    }
    assert forall|x: Seq<u8>, y: Seq<u8>| #[trigger] leq(x, y) && #[trigger] leq(y, x) implies x
        == y by {
        lemma_lex_antisym(x, y);
    }
    assert forall|x: Seq<u8>, y: Seq<u8>, z: Seq<u8>|
        #[trigger] leq(x, y) && #[trigger] leq(y, z) implies leq(x, z) by {
        lemma_lex_trans(x, y, z);
    }
    assert forall|x: Seq<u8>, y: Seq<u8>| #[trigger] leq(x, y) || #[trigger] leq(y, x) by {
        lemma_lex_total(x, y);
    }
}

/// Byte-wise comparison: whether `a` sorts at or before `b`.
pub fn lex_leq(a: &Vec<u8>, b: &Vec<u8>) -> (r: bool)
    ensures
        r == lex_le(a@, b@),
{
    let mut i: usize = 0;
    proof {
        assert(a@.skip(0) =~= a@);
        assert(b@.skip(0) =~= b@);
    }
    while i < a.len() && i < b.len()
        invariant
            i <= a@.len(),
            i <= b@.len(),
            lex_le(a@, b@) == lex_le(a@.skip(i as int), b@.skip(i as int)),
        decreases a@.len() - i,
    {
        if a[i] < b[i] {
            return true;
        }
        if a[i] > b[i] {
            return false;
        }
        proof {
            assert(a@.skip(i as int).drop_first() =~= a@.skip(i + 1));
            assert(b@.skip(i as int).drop_first() =~= b@.skip(i + 1));
            assert(a@.skip(i as int).first() == a@[i as int]);
            assert(b@.skip(i as int).first() == b@[i as int]);
        }
        i = i + 1;
    }
    a.len() <= b.len()
}

} // verus!
