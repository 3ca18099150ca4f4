//! The set of category paths active during an interval, held in a frozen set.
use crate::md::{path_sep, segments_nonempty};
use crate::text::{
    irreflexive, join, join_texts, lemma_lex_after_prefix, lemma_lex_order, lemma_split_join,
    lemma_strictly_sorted_unique, lemma_text_lt_irreflexive, lemma_text_lt_transitive,
    lemma_text_order, lex_lt, sep_free, sorted_texts, split, strictly_sorted, text_cmp, text_less,
    text_lt, text_order, transitive,
};
use std::cmp::Ordering;
use frozenset::FrozenSet;
use vstd::prelude::*;

verus! {

#[verifier::external_type_specification]
#[verifier::external_body]
#[verifier::reject_recursive_types(T)]
#[verifier::reject_recursive_types(S)]
pub struct ExFrozenSet<T, S>(frozenset::FrozenSet<T, S>);

/// The category paths a frozen set holds.
pub uninterp spec fn frozen_paths(s: FrozenSet<Vec<String>>) -> Set<Seq<Seq<char>>>;

/// Relies on `FrozenSet`'s `FromIterator`, which collects into a `HashSet`:
/// the set holds exactly the paths given, each once.
#[verifier::external_body]
fn freeze_paths(paths: Vec<Vec<String>>) -> (r: FrozenSet<Vec<String>>)
    ensures
        frozen_paths(r) == paths.deep_view().to_set(),
{
    paths.into_iter().collect()
}

/// Relies on `FrozenSet` dereferencing to its `HashSet`, whose `iter` visits
/// each member once, in an order the hasher decides.
#[verifier::external_body]
fn frozen_members(s: &FrozenSet<Vec<String>>) -> (r: Vec<Vec<String>>)
    ensures
        r.deep_view().to_set() == frozen_paths(*s),
        r.deep_view().no_duplicates(),
{
    s.iter().cloned().collect()
}

/// Relies on `FrozenSet`'s `PartialEq`, which compares the two `HashSet`s as sets.
#[verifier::external_body]
fn frozen_equal(a: &FrozenSet<Vec<String>>, b: &FrozenSet<Vec<String>>) -> (r: bool)
    ensures
        r == (frozen_paths(*a) == frozen_paths(*b)),
{
    a == b
}

/// The separator between the category labels of an interval.
pub open spec fn label_sep() -> Seq<char> {
    seq![' ', '/', '/', ' ']
}

/// A category path as one label: its segments joined with ` / `.
pub open spec fn label(p: Seq<Seq<char>>) -> Seq<char> {
    join(p, path_sep())
}

/// `r` shows the set `k`: the labels of its paths, sorted, joined with ` // `.
pub open spec fn renders_kinds(k: Set<Seq<Seq<char>>>, r: Seq<char>) -> bool {
    exists|ps: Seq<Seq<Seq<char>>>, ls: Seq<Seq<char>>|
        #![trigger ps.to_set(), ls.to_multiset()]
        ps.no_duplicates() && ps.to_set() == k && sorted_texts(ls) && ls.to_multiset()
            == ps.map_values(|p: Seq<Seq<char>>| label(p)).to_multiset() && r == join(ls, label_sep())
}

/// The category paths read back from a rendered set of categories.
pub open spec fn parse_kinds(r: Seq<char>) -> Set<Seq<Seq<char>>> {
    split(r, label_sep()).map_values(|l: Seq<char>| split(l, path_sep())).to_set()
}

/// A path whose segments and label can be told apart again once written:
/// no segment is empty or runs into ` / `, and the label does not run into ` // `.
pub open spec fn well_formed_path(p: Seq<Seq<char>>) -> bool {
    &&& segments_nonempty(p)
    &&& forall|i: int| 0 <= i < p.len() ==> sep_free(#[trigger] p[i], path_sep())
    &&& sep_free(label(p), label_sep())
}

proof fn lemma_same_members(a: Seq<Seq<char>>, b: Seq<Seq<char>>, x: Seq<char>)
    requires
        a.to_multiset() == b.to_multiset(),
        a.contains(x),
    ensures
        b.contains(x),
{
    broadcast use vstd::seq_lib::group_to_multiset_ensures;

    assert(a.to_multiset().count(x) > 0);
    assert(b.to_multiset().count(x) > 0);
}

/// Writing a non-empty set of well-formed category paths and reading the
/// text back gives the same set of paths.
pub proof fn lemma_kinds_text_round_trip(k: Set<Seq<Seq<char>>>, r: Seq<char>)
    requires
        renders_kinds(k, r),
        k.len() > 0,
        forall|p: Seq<Seq<char>>| k.contains(p) ==> well_formed_path(p),
    ensures
        parse_kinds(r) == k,
{
    broadcast use vstd::seq_lib::group_to_multiset_ensures;

    let (ps, ls) = choose|ps: Seq<Seq<Seq<char>>>, ls: Seq<Seq<char>>|
        #![trigger ps.to_set(), ls.to_multiset()]
        ps.no_duplicates() && ps.to_set() == k && sorted_texts(ls) && ls.to_multiset()
            == ps.map_values(|p: Seq<Seq<char>>| label(p)).to_multiset() && r == join(ls, label_sep());
    let labels = ps.map_values(|p: Seq<Seq<char>>| label(p));
    assert(ps.to_set() == k);
    assert(ps.len() > 0) by {
        if ps.len() == 0 {
            assert(ps.to_set() =~= Set::empty());
        }
    }
    assert(ls.to_multiset().len() == labels.to_multiset().len());
    assert(ls.len() > 0);
    // Every label in the text is the label of a path of the set.
    assert forall|i: int| 0 <= i < ls.len() implies exists|j: int|
        0 <= j < ps.len() && #[trigger] ls[i] == label(ps[j]) by {
        assert(ls.contains(ls[i]));
        lemma_same_members(ls, labels, ls[i]);
    }
    assert forall|i: int| 0 <= i < ls.len() implies sep_free(#[trigger] ls[i], label_sep()) by {
        let j = choose|j: int| 0 <= j < ps.len() && ls[i] == label(ps[j]);
        assert(ps.to_set().contains(ps[j]));
        assert(k.contains(ps[j]));
        assert(well_formed_path(ps[j]));
    }
    lemma_split_join(ls, label_sep());
    let back = ls.map_values(|l: Seq<char>| split(l, path_sep()));
    assert(split(r, label_sep()) == ls);
    assert forall|p: Seq<Seq<char>>| back.to_set().contains(p) implies k.contains(p) by {
        let i = choose|i: int| 0 <= i < back.len() && back[i] == p;
        let j = choose|j: int| 0 <= j < ps.len() && ls[i] == label(ps[j]);
        assert(ps.to_set().contains(ps[j]));
        assert(k.contains(ps[j]));
        assert(well_formed_path(ps[j]));
        lemma_split_join(ps[j], path_sep());
    }
    assert forall|p: Seq<Seq<char>>| k.contains(p) implies back.to_set().contains(p) by {
        let j = choose|j: int| 0 <= j < ps.len() && ps[j] == p;
        assert(labels[j] == label(p));
        assert(labels.contains(label(p)));
        lemma_same_members(labels, ls, label(p));
        let i = choose|i: int| 0 <= i < ls.len() && ls[i] == label(p);
        assert(well_formed_path(p));
        lemma_split_join(p, path_sep());
        assert(back[i] == p);
    }
    assert(parse_kinds(r) =~= k);
}

/// The categories of an interval.
#[derive(Debug)]
pub struct Kinds {
    paths: FrozenSet<Vec<String>>,
}

impl Kinds {
    pub closed spec fn view(&self) -> Set<Seq<Seq<char>>> {
        frozen_paths(self.paths)
    }

    pub fn new(paths: Vec<Vec<String>>) -> (r: Kinds)
        ensures
            r.view() == paths.deep_view().to_set(),
    {
        Kinds { paths: freeze_paths(paths) }
    }

    /// Whether both hold the same paths.
    pub fn same(&self, other: &Kinds) -> (r: bool)
        ensures
            r == (self.view() == other.view()),
    {
        frozen_equal(&self.paths, &other.paths)
    }

    /// The labels of the paths, sorted, joined with ` // `.
    pub fn to_text(&self) -> (r: String)
        ensures
            renders_kinds(self.view(), r@),
    {
        broadcast use vstd::seq_lib::group_to_multiset_ensures;

        let members = frozen_members(&self.paths);
        let ghost ps = members.deep_view();
        let ghost labels = ps.map_values(|p: Seq<Seq<char>>| label(p));
        let mut sorted: Vec<String> = Vec::new();
        let mut k: usize = 0;
        proof {
            reveal_strlit(" / ");
            assert(" / "@ =~= path_sep());
            reveal_strlit(" // ");
            assert(" // "@ =~= label_sep());
        }
        while k < members.len()
            invariant
                ps == members.deep_view(),
                labels == ps.map_values(|p: Seq<Seq<char>>| label(p)),
                k <= members.len(),
                sorted_texts(sorted.deep_view()),
                sorted.deep_view().to_multiset() == labels.subrange(0, k as int).to_multiset(),
                " / "@ == path_sep(),
            decreases members.len() - k,
        {
            let l = join_texts(&members[k], " / ");
            assert(l@ == labels[k as int]);
            let mut p: usize = 0;
            while p < sorted.len() && !text_less(l.as_str(), sorted[p].as_str())
                invariant
                    p <= sorted.len(),
                    forall|i: int| 0 <= i < p ==> !text_lt(l@, #[trigger] sorted.deep_view()[i]),
                decreases sorted.len() - p,
            {
                p = p + 1;
            }
            let ghost old_sorted = sorted.deep_view();
            sorted.insert(p, l);
            proof {
                let s = sorted.deep_view();
                assert(s =~= old_sorted.insert(p as int, l@));
                assert forall|i: int, j: int| 0 <= i < j < s.len() implies !text_lt(
                    #[trigger] s[j],
                    #[trigger] s[i],
                ) by {
                    if j == p {
                        assert(!text_lt(l@, old_sorted[i]));
                    } else if i == p {
                        // l comes before old_sorted[p], which no later text precedes.
                        assert(text_lt(l@, old_sorted[p as int]));
                        if text_lt(old_sorted[j - 1], l@) {
                            lemma_text_lt_transitive(old_sorted[j - 1], l@, old_sorted[p as int]);
                            if j - 1 == p {
                                lemma_text_lt_irreflexive(old_sorted[p as int]);
                            }
                        }
                    } else {
                        let oi = if i < p { i } else { i - 1 };
                        let oj = if j < p { j } else { j - 1 };
                        assert(s[i] == old_sorted[oi] && s[j] == old_sorted[oj]);
                    }
                }
                vstd::seq_lib::to_multiset_insert(old_sorted, p as int, l@);
                assert(labels.subrange(0, k + 1) =~= labels.subrange(0, k as int).push(l@));
                vstd::seq_lib::to_multiset_build(labels.subrange(0, k as int), l@);
            }
            k = k + 1;
        }
        let r = join_texts(&sorted, " // ");
        proof {
            assert(labels.subrange(0, members.len() as int) =~= labels);
            let ls = sorted.deep_view();
            assert(ps.to_set() == self.view());
            assert(ls.to_multiset() == ps.map_values(|p: Seq<Seq<char>>| label(p)).to_multiset());
            assert(r@ == join(ls, label_sep()));
        }
        r
    }
}


/// Category paths ordered segment by segment, each segment as `str` orders it.
pub open spec fn path_lt(p: Seq<Seq<char>>, q: Seq<Seq<char>>) -> bool {
    lex_lt(p, q, text_order())
}

pub open spec fn path_order() -> spec_fn(Seq<Seq<char>>, Seq<Seq<char>>) -> bool {
    |p: Seq<Seq<char>>, q: Seq<Seq<char>>| path_lt(p, q)
}

/// The paths of a set listed in strictly ascending order.
pub open spec fn canonical_paths(s: Set<Seq<Seq<char>>>) -> Seq<Seq<Seq<char>>> {
    choose|q: Seq<Seq<Seq<char>>>| strictly_sorted(q, path_order()) && q.to_set() == s
}

/// Category sets ordered by their ascending listings, compared path by path.
pub open spec fn kinds_lt(a: Set<Seq<Seq<char>>>, b: Set<Seq<Seq<char>>>) -> bool {
    lex_lt(canonical_paths(a), canonical_paths(b), path_order())
}

pub open spec fn kinds_order() -> spec_fn(Set<Seq<Seq<char>>>, Set<Seq<Seq<char>>>) -> bool {
    |a: Set<Seq<Seq<char>>>, b: Set<Seq<Seq<char>>>| kinds_lt(a, b)
}

/// The orders of paths and of category sets are strict orders.
pub proof fn lemma_path_order()
    ensures
        irreflexive(path_order()),
        transitive(path_order()),
        irreflexive(kinds_order()),
        transitive(kinds_order()),
{
    lemma_text_order();
    lemma_lex_order(text_order());
    let f = |p: Seq<Seq<char>>, q: Seq<Seq<char>>| lex_lt(p, q, text_order());
    assert forall|x: Seq<Seq<char>>| !#[trigger] path_order()(x, x) by {
        assert(!f(x, x));
    }
    assert forall|x: Seq<Seq<char>>, y: Seq<Seq<char>>, z: Seq<Seq<char>>|
        #[trigger] path_order()(x, y) && #[trigger] path_order()(y, z) implies path_order()(x, z) by {
        assert(f(x, y) && f(y, z));
    }
    lemma_lex_order(path_order());
    let g = |p: Seq<Seq<Seq<char>>>, q: Seq<Seq<Seq<char>>>| lex_lt(p, q, path_order());
    assert forall|x: Set<Seq<Seq<char>>>| !#[trigger] kinds_order()(x, x) by {
        assert(!g(canonical_paths(x), canonical_paths(x)));
    }
    assert forall|x: Set<Seq<Seq<char>>>, y: Set<Seq<Seq<char>>>, z: Set<Seq<Seq<char>>>|
        #[trigger] kinds_order()(x, y) && #[trigger] kinds_order()(y, z) implies kinds_order()(
        x,
        z,
    ) by {
        assert(g(canonical_paths(x), canonical_paths(y)) && g(canonical_paths(y), canonical_paths(z)));
    }
}

/// Compares two category paths segment by segment.
pub fn path_cmp(p: &Vec<String>, q: &Vec<String>) -> (r: Ordering)
    ensures
        (r == Ordering::Less) == path_lt(p.deep_view(), q.deep_view()),
        (r == Ordering::Greater) == path_lt(q.deep_view(), p.deep_view()),
        (r == Ordering::Equal) == (p.deep_view() == q.deep_view()),
{
    let ghost a = p.deep_view();
    let ghost b = q.deep_view();
    let n = p.len();
    let m = q.len();
    let mut k: usize = 0;
    while k < n && k < m
        invariant
            a == p.deep_view(),
            b == q.deep_view(),
            n == a.len(),
            m == b.len(),
            k <= n,
            k <= m,
            a.subrange(0, k as int) == b.subrange(0, k as int),
        decreases n - k,
    {
        let c = text_cmp(p[k].as_str(), q[k].as_str());
        assert(a[k as int] == p@[k as int]@ && b[k as int] == q@[k as int]@);
        match c {
            Ordering::Equal => {
                assert(a.subrange(0, k + 1) =~= a.subrange(0, k as int).push(a[k as int]));
                assert(b.subrange(0, k + 1) =~= b.subrange(0, k as int).push(b[k as int]));
                k = k + 1;
            },
            _ => {
                proof {
                    lemma_lex_after_prefix(a, b, k as int, text_order());
                    lemma_lex_after_prefix(b, a, k as int, text_order());
                    assert(a.subrange(k as int, n as int)[0] == a[k as int]);
                    assert(b.subrange(k as int, m as int)[0] == b[k as int]);
                    assert(a != b);
                }
                return c;
            },
        }
    }
    proof {
        lemma_lex_after_prefix(a, b, k as int, text_order());
        lemma_lex_after_prefix(b, a, k as int, text_order());
    }
    if k < m {
        assert(a.len() != b.len());
        Ordering::Less
    } else if k < n {
        assert(a.len() != b.len());
        Ordering::Greater
    } else {
        assert(a =~= a.subrange(0, k as int));
        assert(b =~= b.subrange(0, k as int));
        Ordering::Equal
    }
}

/// Compares two ascending listings of paths, path by path.
fn listing_cmp(p: &Vec<Vec<String>>, q: &Vec<Vec<String>>) -> (r: Ordering)
    ensures
        (r == Ordering::Less) == lex_lt(p.deep_view(), q.deep_view(), path_order()),
        (r == Ordering::Greater) == lex_lt(q.deep_view(), p.deep_view(), path_order()),
        (r == Ordering::Equal) == (p.deep_view() == q.deep_view()),
{
    let ghost a = p.deep_view();
    let ghost b = q.deep_view();
    let n = p.len();
    let m = q.len();
    let mut k: usize = 0;
    while k < n && k < m
        invariant
            a == p.deep_view(),
            b == q.deep_view(),
            n == a.len(),
            m == b.len(),
            k <= n,
            k <= m,
            a.subrange(0, k as int) == b.subrange(0, k as int),
        decreases n - k,
    {
        let c = path_cmp(&p[k], &q[k]);
        assert(a[k as int] == p@[k as int].deep_view() && b[k as int] == q@[k as int].deep_view());
        match c {
            Ordering::Equal => {
                assert(a.subrange(0, k + 1) =~= a.subrange(0, k as int).push(a[k as int]));
                assert(b.subrange(0, k + 1) =~= b.subrange(0, k as int).push(b[k as int]));
                k = k + 1;
            },
            _ => {
                proof {
                    lemma_lex_after_prefix(a, b, k as int, path_order());
                    lemma_lex_after_prefix(b, a, k as int, path_order());
                    assert(a.subrange(k as int, n as int)[0] == a[k as int]);
                    assert(b.subrange(k as int, m as int)[0] == b[k as int]);
                    assert(a != b);
                }
                return c;
            },
        }
    }
    proof {
        lemma_lex_after_prefix(a, b, k as int, path_order());
        lemma_lex_after_prefix(b, a, k as int, path_order());
    }
    if k < m {
        assert(a.len() != b.len());
        Ordering::Less
    } else if k < n {
        assert(a.len() != b.len());
        Ordering::Greater
    } else {
        assert(a =~= a.subrange(0, k as int));
        assert(b =~= b.subrange(0, k as int));
        Ordering::Equal
    }
}

impl Kinds {
    /// The paths in strictly ascending order.
    pub fn sorted_members(&self) -> (r: Vec<Vec<String>>)
        ensures
            strictly_sorted(r.deep_view(), path_order()),
            r.deep_view().to_set() == self.view(),
            r.deep_view() == canonical_paths(self.view()),
    {
        let members = frozen_members(&self.paths);
        let ghost ms = members.deep_view();
        let mut sorted: Vec<Vec<String>> = Vec::new();
        let mut k: usize = 0;
        proof {
            lemma_path_order();
        }
        assert(sorted.deep_view().to_set() =~= ms.subrange(0, 0).to_set());
        while k < members.len()
            invariant
                ms == members.deep_view(),
                k <= members.len(),
                irreflexive(path_order()),
                transitive(path_order()),
                strictly_sorted(sorted.deep_view(), path_order()),
                sorted.deep_view().to_set() == ms.subrange(0, k as int).to_set(),
            decreases members.len() - k,
        {
            let x = &members[k];
            let ghost xv = ms[k as int];
            assert(x.deep_view() == xv);
            let ghost old_sorted = sorted.deep_view();
            proof {
                assert(ms.subrange(0, k + 1) =~= ms.subrange(0, k as int).push(xv));
                ms.subrange(0, k as int).lemma_push_to_set_commute(xv);
            }
            let mut p: usize = 0;
            let mut found = false;
            let mut after = false;
            while p < sorted.len() && !found && !after
                invariant
                    old_sorted == sorted.deep_view(),
                    x.deep_view() == xv,
                    p <= sorted.len(),
                    forall|i: int| 0 <= i < p ==> path_lt(#[trigger] old_sorted[i], xv),
                    found ==> p < sorted.len() && old_sorted[p as int] == xv,
                    after ==> p < sorted.len() && path_lt(xv, old_sorted[p as int]),
                decreases sorted.len() - p + (if found || after { 0int } else { 1int }),
            {
                assert(sorted@[p as int].deep_view() == old_sorted[p as int]);
                match path_cmp(&sorted[p], x) {
                    Ordering::Less => {
                        p = p + 1;
                    },
                    Ordering::Equal => {
                        found = true;
                    },
                    Ordering::Greater => {
                        after = true;
                    },
                }
            }
            if found {
                proof {
                    assert(old_sorted.to_set().contains(xv));
                    assert(old_sorted.to_set().insert(xv) =~= old_sorted.to_set());
                }
            } else {
                let copy = copy_path(x);
                sorted.insert(p, copy);
                proof {
                    let s = sorted.deep_view();
                    assert(s =~= old_sorted.insert(p as int, xv));
                    assert forall|a: int, b: int| 0 <= a < b < s.len() implies path_order()(
                        #[trigger] s[a],
                        #[trigger] s[b],
                    ) by {
                        if b == p {
                            assert(path_lt(old_sorted[a], xv));
                        } else if a == p {
                            if b - 1 > p {
                                assert(path_order()(old_sorted[p as int], old_sorted[b - 1]));
                            }
                            assert(path_order()(xv, old_sorted[p as int]));
                        } else {
                            let oa = if a < p { a } else { a - 1 };
                            let ob = if b < p { b } else { b - 1 };
                            assert(s[a] == old_sorted[oa] && s[b] == old_sorted[ob]);
                        }
                    }
                    assert forall|y: Seq<Seq<char>>| s.contains(y) <==> (old_sorted.contains(y) || y
                        == xv) by {
                        if s.contains(y) {
                            let j = choose|j: int| 0 <= j < s.len() && s[j] == y;
                            if j < p {
                                assert(old_sorted[j] == y);
                            } else if j > p {
                                assert(old_sorted[j - 1] == y);
                            }
                        }
                        if old_sorted.contains(y) {
                            let j = choose|j: int| 0 <= j < old_sorted.len() && old_sorted[j] == y;
                            if j < p {
                                assert(s[j] == y);
                            } else {
                                assert(s[j + 1] == y);
                            }
                        }
                        if y == xv {
                            assert(s[p as int] == xv);
                        }
                    }
                    assert(s.to_set() =~= old_sorted.to_set().insert(xv));
                }
            }
            k = k + 1;
        }
        assert(ms.subrange(0, members.len() as int) =~= ms);
        proof {
            let c = canonical_paths(self.view());
            assert(strictly_sorted(c, path_order()) && c.to_set() == self.view());
            lemma_strictly_sorted_unique(sorted.deep_view(), c, path_order());
        }
        sorted
    }

    /// Compares two category sets by their ascending listings.
    pub fn cmp_kinds(&self, other: &Kinds) -> (r: Ordering)
        ensures
            (r == Ordering::Less) == kinds_lt(self.view(), other.view()),
            (r == Ordering::Greater) == kinds_lt(other.view(), self.view()),
            (r == Ordering::Equal) == (self.view() == other.view()),
    {
        let a = self.sorted_members();
        let b = other.sorted_members();
        listing_cmp(&a, &b)
    }
}

/// A copy of a category path.
pub(crate) fn copy_path(p: &Vec<String>) -> (r: Vec<String>)
    ensures
        r.deep_view() == p.deep_view(),
{
    let mut r: Vec<String> = Vec::new();
    let mut i: usize = 0;
    while i < p.len()
        invariant
            i <= p.len(),
            r.deep_view() == p.deep_view().subrange(0, i as int),
        decreases p.len() - i,
    {
        let ghost before = r.deep_view();
        r.push(p[i].clone());
        assert(r.deep_view() =~= before.push(p@[i as int]@));
        assert(p.deep_view().subrange(0, i + 1) =~= before.push(p@[i as int]@));
        i = i + 1;
    }
    assert(p.deep_view().subrange(0, p.len() as int) =~= p.deep_view());
    r
}
} // verus!
