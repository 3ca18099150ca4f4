//! Splitting and joining texts on a separator, and the order of texts.
use vstd::prelude::*;

verus! {

/// `sep` occurs in `s` starting at index `i`.
pub open spec fn matches_at(s: Seq<char>, sep: Seq<char>, i: int) -> bool {
    0 <= i && i + sep.len() <= s.len() && s.subrange(i, i + sep.len()) == sep
}

/// The first index at or after `i` where `sep` occurs in `s`.
pub open spec fn first_match_from(s: Seq<char>, sep: Seq<char>, i: int) -> Option<int>
    decreases s.len() + 1 - i,
{
    if i < 0 || i + sep.len() > s.len() {
        None
    } else if matches_at(s, sep, i) {
        Some(i)
    } else {
        first_match_from(s, sep, i + 1)
    }
}

/// The pieces of `s` between the occurrences of `sep`, found from left to
/// right without overlap; a text without `sep` is one piece.
pub open spec fn split(s: Seq<char>, sep: Seq<char>) -> Seq<Seq<char>>
    decreases s.len(),
{
    match first_match_from(s, sep, 0) {
        Some(i) => if 0 <= i && i + sep.len() <= s.len() && sep.len() > 0 {
            seq![s.subrange(0, i)] + split(s.subrange(i + sep.len(), s.len() as int), sep)
        } else {
            seq![s]
        },
        None => seq![s],
    }
}

/// The pieces written one after the other with `sep` between each two.
pub open spec fn join(xs: Seq<Seq<char>>, sep: Seq<char>) -> Seq<char>
    decreases xs.len(),
{
    if xs.len() == 0 {
        Seq::empty()
    } else if xs.len() == 1 {
        xs[0]
    } else {
        join(xs.drop_last(), sep) + sep + xs.last()
    }
}

/// Searching `x` followed by `sep` for `sep` finds it first where `x` ends,
/// so `x` can stand before a separator and be split off again.
pub open spec fn sep_free(x: Seq<char>, sep: Seq<char>) -> bool {
    forall|p: int| 0 <= p < x.len() ==> !#[trigger] matches_at(x + sep, sep, p)
}

/// `a` comes strictly before `b` in the lexicographic order that `lt` extends
/// to sequences: at the first place they differ, or `a` is a proper prefix.
pub open spec fn lex_lt<A>(a: Seq<A>, b: Seq<A>, lt: spec_fn(A, A) -> bool) -> bool
    decreases a.len(),
{
    if a.len() == 0 {
        b.len() > 0
    } else if b.len() == 0 {
        false
    } else if a[0] != b[0] {
        lt(a[0], b[0])
    } else {
        lex_lt(a.drop_first(), b.drop_first(), lt)
    }
}

pub open spec fn irreflexive<A>(lt: spec_fn(A, A) -> bool) -> bool {
    forall|x: A| !#[trigger] lt(x, x)
}

pub open spec fn transitive<A>(lt: spec_fn(A, A) -> bool) -> bool {
    forall|x: A, y: A, z: A| #[trigger] lt(x, y) && #[trigger] lt(y, z) ==> lt(x, z)
}

/// Each element comes strictly before every later one.
pub open spec fn strictly_sorted<A>(s: Seq<A>, lt: spec_fn(A, A) -> bool) -> bool {
    forall|i: int, j: int| 0 <= i < j < s.len() ==> lt(#[trigger] s[i], #[trigger] s[j])
}

proof fn lemma_lex_irreflexive<A>(a: Seq<A>, lt: spec_fn(A, A) -> bool)
    ensures
        !lex_lt(a, a, lt),
    decreases a.len(),
{
    if a.len() > 0 {
        lemma_lex_irreflexive(a.drop_first(), lt);
    }
}

proof fn lemma_lex_transitive<A>(a: Seq<A>, b: Seq<A>, c: Seq<A>, lt: spec_fn(A, A) -> bool)
    requires
        irreflexive(lt),
        transitive(lt),
        lex_lt(a, b, lt),
        lex_lt(b, c, lt),
    ensures
        lex_lt(a, c, lt),
    decreases a.len(),
{
    if a.len() > 0 && b.len() > 0 && c.len() > 0 {
        if a[0] == b[0] && b[0] == c[0] {
            lemma_lex_transitive(a.drop_first(), b.drop_first(), c.drop_first(), lt);
        } else if a[0] != b[0] && b[0] != c[0] {
            assert(lt(a[0], b[0]) && lt(b[0], c[0]));
            assert(lt(a[0], c[0]));
        }
    }
}

/// The lexicographic extension of a strict order is a strict order.
pub proof fn lemma_lex_order<A>(lt: spec_fn(A, A) -> bool)
    requires
        irreflexive(lt),
        transitive(lt),
    ensures
        irreflexive(|a: Seq<A>, b: Seq<A>| lex_lt(a, b, lt)),
        transitive(|a: Seq<A>, b: Seq<A>| lex_lt(a, b, lt)),
{
    let f = |a: Seq<A>, b: Seq<A>| lex_lt(a, b, lt);
    assert forall|x: Seq<A>| !#[trigger] f(x, x) by {
        lemma_lex_irreflexive(x, lt);
    }
    assert forall|x: Seq<A>, y: Seq<A>, z: Seq<A>| #[trigger] f(x, y) && #[trigger] f(y, z) implies f(
        x,
        z,
    ) by {
        lemma_lex_transitive(x, y, z, lt);
    }
}

/// Comparing after a common prefix of length `k` is comparing the rests.
pub proof fn lemma_lex_after_prefix<A>(a: Seq<A>, b: Seq<A>, k: int, lt: spec_fn(A, A) -> bool)
    requires
        0 <= k <= a.len(),
        k <= b.len(),
        a.subrange(0, k) == b.subrange(0, k),
    ensures
        lex_lt(a, b, lt) == lex_lt(a.subrange(k, a.len() as int), b.subrange(k, b.len() as int), lt),
    decreases k,
{
    if k > 0 {
        assert(a[0] == a.subrange(0, k)[0]);
        assert(b[0] == b.subrange(0, k)[0]);
        assert(a.drop_first().subrange(0, k - 1) =~= a.subrange(0, k).drop_first());
        assert(b.drop_first().subrange(0, k - 1) =~= b.subrange(0, k).drop_first());
        lemma_lex_after_prefix(a.drop_first(), b.drop_first(), k - 1, lt);
        assert(a.drop_first().subrange(k - 1, a.len() - 1) =~= a.subrange(k, a.len() as int));
        assert(b.drop_first().subrange(k - 1, b.len() - 1) =~= b.subrange(k, b.len() as int));
    } else {
        assert(a.subrange(0, a.len() as int) =~= a);
        assert(b.subrange(0, b.len() as int) =~= b);
    }
}

/// Two sequences sorted strictly by the same strict order and holding the
/// same elements are the same sequence.
pub proof fn lemma_strictly_sorted_unique<A>(s: Seq<A>, t: Seq<A>, lt: spec_fn(A, A) -> bool)
    requires
        irreflexive(lt),
        transitive(lt),
        strictly_sorted(s, lt),
        strictly_sorted(t, lt),
        s.to_set() == t.to_set(),
    ensures
        s == t,
    decreases s.len(),
{
    if s.len() == 0 {
        if t.len() > 0 {
            assert(t.to_set().contains(t[0]));
        }
        assert(s =~= t);
    } else {
        assert(s.to_set().contains(s[0]));
        assert(t.len() > 0);
        assert(t.to_set().contains(t[0]));
        let i = choose|i: int| 0 <= i < t.len() && t[i] == s[0];
        let j = choose|j: int| 0 <= j < s.len() && s[j] == t[0];
        if i > 0 && j > 0 {
            assert(lt(t[0], t[i]) && lt(s[0], s[j]));
            assert(lt(t[0], t[0]));
        } else if i > 0 {
            assert(lt(t[0], t[i]));
        } else if j > 0 {
            assert(lt(s[0], s[j]));
        }
        assert(s[0] == t[0]);
        let s1 = s.drop_first();
        let t1 = t.drop_first();
        assert forall|x: A| s1.to_set().contains(x) <==> t1.to_set().contains(x) by {
            if s1.to_set().contains(x) {
                let a = choose|a: int| 0 <= a < s1.len() && s1[a] == x;
                assert(s.to_set().contains(x));
                let b = choose|b: int| 0 <= b < t.len() && t[b] == x;
                if b == 0 {
                    assert(lt(s[0], s[a + 1]));
                }
                assert(t1[b - 1] == x);
            }
            if t1.to_set().contains(x) {
                let a = choose|a: int| 0 <= a < t1.len() && t1[a] == x;
                assert(t.to_set().contains(x));
                let b = choose|b: int| 0 <= b < s.len() && s[b] == x;
                if b == 0 {
                    assert(lt(t[0], t[a + 1]));
                }
                assert(s1[b - 1] == x);
            }
        }
        assert(s1.to_set() =~= t1.to_set());
        assert(strictly_sorted(s1, lt)) by {
            assert forall|a: int, b: int| 0 <= a < b < s1.len() implies lt(#[trigger] s1[a], #[trigger] s1[b]) by {
                assert(s1[a] == s[a + 1] && s1[b] == s[b + 1]);
            }
        }
        assert(strictly_sorted(t1, lt)) by {
            assert forall|a: int, b: int| 0 <= a < b < t1.len() implies lt(#[trigger] t1[a], #[trigger] t1[b]) by {
                assert(t1[a] == t[a + 1] && t1[b] == t[b + 1]);
            }
        }
        lemma_strictly_sorted_unique(s1, t1, lt);
        assert(s =~= seq![s[0]] + s1);
        assert(t =~= seq![t[0]] + t1);
    }
}

/// The order of characters by code point.
pub open spec fn char_lt() -> spec_fn(char, char) -> bool {
    |x: char, y: char| (x as int) < (y as int)
}

/// `a` comes strictly before `b`: the order of Rust's `str`, by code points.
pub open spec fn text_lt(a: Seq<char>, b: Seq<char>) -> bool {
    lex_lt(a, b, char_lt())
}

/// The order of texts as a function.
pub open spec fn text_order() -> spec_fn(Seq<char>, Seq<char>) -> bool {
    |a: Seq<char>, b: Seq<char>| text_lt(a, b)
}

/// Each text is no greater than the ones after it.
pub open spec fn sorted_texts(xs: Seq<Seq<char>>) -> bool {
    forall|i: int, j: int| 0 <= i < j < xs.len() ==> !text_lt(#[trigger] xs[j], #[trigger] xs[i])
}

/// The order of texts is a strict order.
pub proof fn lemma_text_order()
    ensures
        irreflexive(text_order()),
        transitive(text_order()),
{
    lemma_lex_order(char_lt());
    let f = |a: Seq<char>, b: Seq<char>| lex_lt(a, b, char_lt());
    assert forall|x: Seq<char>| !#[trigger] text_order()(x, x) by {
        assert(!f(x, x));
    }
    assert forall|x: Seq<char>, y: Seq<char>, z: Seq<char>|
        #[trigger] text_order()(x, y) && #[trigger] text_order()(y, z) implies text_order()(x, z) by {
        assert(f(x, y) && f(y, z));
    }
}

pub proof fn lemma_text_lt_irreflexive(a: Seq<char>)
    ensures
        !text_lt(a, a),
{
    lemma_lex_irreflexive(a, char_lt());
}

pub proof fn lemma_text_lt_transitive(a: Seq<char>, b: Seq<char>, c: Seq<char>)
    requires
        text_lt(a, b),
        text_lt(b, c),
    ensures
        text_lt(a, c),
{
    lemma_lex_transitive(a, b, c, char_lt());
}

proof fn lemma_first_match_at(s: Seq<char>, sep: Seq<char>, i: int, k: int)
    requires
        0 <= i <= k,
        matches_at(s, sep, k),
        forall|p: int| i <= p < k ==> !#[trigger] matches_at(s, sep, p),
    ensures
        first_match_from(s, sep, i) == Some(k),
    decreases k - i,
{
    if i < k {
        lemma_first_match_at(s, sep, i + 1, k);
    }
}

proof fn lemma_no_match(s: Seq<char>, sep: Seq<char>, i: int)
    requires
        0 <= i,
        forall|p: int| i <= p ==> !#[trigger] matches_at(s, sep, p),
    ensures
        first_match_from(s, sep, i) is None,
    decreases s.len() + 1 - i,
{
    if i + sep.len() <= s.len() {
        lemma_no_match(s, sep, i + 1);
    }
}

/// Splitting `x`, `sep`, `rest` splits off `x` first.
proof fn lemma_split_front(x: Seq<char>, sep: Seq<char>, rest: Seq<char>)
    requires
        sep.len() > 0,
        sep_free(x, sep),
    ensures
        split(x + sep + rest, sep) == seq![x] + split(rest, sep),
{
    let s = x + sep + rest;
    assert forall|p: int| 0 <= p < x.len() implies !#[trigger] matches_at(s, sep, p) by {
        assert(!matches_at(x + sep, sep, p));
        assert(s.subrange(p, p + sep.len()) =~= (x + sep).subrange(p, p + sep.len()));
    }
    assert(s.subrange(x.len() as int, (x.len() + sep.len()) as int) =~= sep);
    lemma_first_match_at(s, sep, 0, x.len() as int);
    assert(s.subrange(0, x.len() as int) =~= x);
    assert(s.subrange((x.len() + sep.len()) as int, s.len() as int) =~= rest);
}

/// A text in which `sep` cannot be found is one piece.
proof fn lemma_split_single(x: Seq<char>, sep: Seq<char>)
    requires
        sep.len() > 0,
        sep_free(x, sep),
    ensures
        split(x, sep) == seq![x],
{
    assert forall|p: int| 0 <= p implies !#[trigger] matches_at(x, sep, p) by {
        if matches_at(x, sep, p) {
            assert(!matches_at(x + sep, sep, p));
            assert(x.subrange(p, p + sep.len()) =~= (x + sep).subrange(p, p + sep.len()));
        }
    }
    lemma_no_match(x, sep, 0);
}

proof fn lemma_join_front(xs: Seq<Seq<char>>, sep: Seq<char>)
    requires
        xs.len() >= 2,
    ensures
        join(xs, sep) == xs[0] + sep + join(xs.drop_first(), sep),
    decreases xs.len(),
{
    if xs.len() > 2 {
        let dd = xs.drop_last().drop_first();
        lemma_join_front(xs.drop_last(), sep);
        assert(dd =~= xs.drop_first().drop_last());
        assert(xs.drop_last()[0] == xs[0]);
        assert(xs.drop_first().last() == xs.last());
        assert(join(xs, sep) == join(xs.drop_last(), sep) + sep + xs.last());
        assert(join(xs.drop_first(), sep) == join(dd, sep) + sep + xs.last());
        assert((xs[0] + sep + join(dd, sep)) + sep + xs.last() =~= xs[0] + sep + (join(dd, sep)
            + sep + xs.last()));
    } else {
        assert(xs.drop_first() =~= seq![xs[1]]);
        assert(xs.drop_last() =~= seq![xs[0]]);
        assert(join(xs.drop_last(), sep) == xs[0]);
        assert(join(xs.drop_first(), sep) == xs[1]);
        assert(join(xs, sep) == join(xs.drop_last(), sep) + sep + xs.last());
    }
}

/// Splitting pieces joined with `sep` gives the pieces back, when `sep`
/// cannot be found in any of them, nor across the end of one.
pub proof fn lemma_split_join(xs: Seq<Seq<char>>, sep: Seq<char>)
    requires
        sep.len() > 0,
        xs.len() > 0,
        forall|i: int| 0 <= i < xs.len() ==> sep_free(#[trigger] xs[i], sep),
    ensures
        split(join(xs, sep), sep) == xs,
    decreases xs.len(),
{
    if xs.len() == 1 {
        lemma_split_single(xs[0], sep);
        assert(seq![xs[0]] =~= xs);
    } else {
        lemma_join_front(xs, sep);
        lemma_split_join(xs.drop_first(), sep);
        lemma_split_front(xs[0], sep, join(xs.drop_first(), sep));
        assert(seq![xs[0]] + xs.drop_first() =~= xs);
    }
}

/// Whether `sep` occurs in `s` at index `i`, by comparing characters.
fn matches_here(s: &str, n: usize, sep: &str, m: usize, i: usize) -> (r: bool)
    requires
        n == s@.len(),
        m == sep@.len(),
        i + m <= n,
    ensures
        r == matches_at(s@, sep@, i as int),
{
    let mut j: usize = 0;
    while j < m
        invariant
            n == s@.len(),
            m == sep@.len(),
            i + m <= n,
            j <= m,
            forall|k: int| 0 <= k < j ==> s@[i + k] == sep@[k],
        decreases m - j,
    {
        if s.get_char(i + j) != sep.get_char(j) {
            assert(s@.subrange(i as int, i + m)[j as int] != sep@[j as int]);
            return false;
        }
        j = j + 1;
    }
    assert(s@.subrange(i as int, i + m) =~= sep@);
    true
}

proof fn lemma_matches_shift(s: Seq<char>, sep: Seq<char>, start: int, p: int)
    requires
        0 <= start <= s.len(),
        0 <= p,
    ensures
        matches_at(s.subrange(start, s.len() as int), sep, p) == matches_at(s, sep, start + p),
{
    let t = s.subrange(start, s.len() as int);
    if p + sep.len() <= t.len() {
        assert(t.subrange(p, p + sep.len()) =~= s.subrange(start + p, start + p + sep.len()));
    }
}

/// Splits `s` at each occurrence of `sep`, as `str::split` does.
pub fn split_text(s: &str, sep: &str) -> (r: Vec<String>)
    requires
        sep@.len() > 0,
    ensures
        r.deep_view() == split(s@, sep@),
{
    let n = s.unicode_len();
    let m = sep.unicode_len();
    let mut r: Vec<String> = Vec::new();
    let mut start: usize = 0;
    let mut i: usize = 0;
    assert(s@.subrange(0, n as int) =~= s@);
    while m <= n - i
        invariant
            n == s@.len(),
            m == sep@.len(),
            m > 0,
            start <= i <= n,
            forall|p: int| start <= p < i ==> !#[trigger] matches_at(s@, sep@, p),
            r.deep_view() + split(s@.subrange(start as int, n as int), sep@) == split(s@, sep@),
        decreases n - i,
    {
        if matches_here(s, n, sep, m, i) {
            let piece = String::from_str(s.substring_char(start, i));
            proof {
                let t = s@.subrange(start as int, n as int);
                assert forall|p: int| 0 <= p < i - start implies !#[trigger] matches_at(
                    t,
                    sep@,
                    p,
                ) by {
                    lemma_matches_shift(s@, sep@, start as int, p);
                }
                lemma_matches_shift(s@, sep@, start as int, i - start);
                lemma_first_match_at(t, sep@, 0, i - start);
                assert(t.subrange(0, i - start) =~= s@.subrange(start as int, i as int));
                assert(t.subrange(i - start + m, t.len() as int) =~= s@.subrange(
                    i + m,
                    n as int,
                ));
                assert(r.deep_view().push(piece@) + split(s@.subrange(i + m, n as int), sep@)
                    =~= r.deep_view() + split(t, sep@));
            }
            r.push(piece);
            i = i + m;
            start = i;
        } else {
            i = i + 1;
        }
    }
    let last = String::from_str(s.substring_char(start, n));
    proof {
        let t = s@.subrange(start as int, n as int);
        assert forall|p: int| 0 <= p implies !#[trigger] matches_at(t, sep@, p) by {
            lemma_matches_shift(s@, sep@, start as int, p);
        }
        lemma_no_match(t, sep@, 0);
        assert(r.deep_view().push(last@) =~= r.deep_view() + split(t, sep@));
    }
    r.push(last);
    r
}

/// Joins `xs` with `sep` between each two, as `[String]::join` does.
pub fn join_texts(xs: &Vec<String>, sep: &str) -> (r: String)
    ensures
        r@ == join(xs.deep_view(), sep@),
{
    let mut r = String::new();
    let mut k: usize = 0;
    while k < xs.len()
        invariant
            k <= xs.len(),
            r@ == join(xs.deep_view().subrange(0, k as int), sep@),
        decreases xs.len() - k,
    {
        let ghost before = xs.deep_view().subrange(0, k as int);
        if k > 0 {
            r.append(sep);
        }
        r.append(xs[k].as_str());
        proof {
            let after = xs.deep_view().subrange(0, k + 1);
            assert(after.drop_last() =~= before);
            if k == 0 {
                assert(join(before, sep@) =~= Seq::<char>::empty());
            }
        }
        k = k + 1;
    }
    assert(xs.deep_view().subrange(0, xs.len() as int) =~= xs.deep_view());
    r
}

/// Compares two texts in the order of `str`.
pub fn text_cmp(a: &str, b: &str) -> (r: std::cmp::Ordering)
    ensures
        (r == std::cmp::Ordering::Less) == text_lt(a@, b@),
        (r == std::cmp::Ordering::Greater) == text_lt(b@, a@),
        (r == std::cmp::Ordering::Equal) == (a@ == b@),
{
    let n = a.unicode_len();
    let m = b.unicode_len();
    let mut k: usize = 0;
    while k < n && k < m && a.get_char(k) == b.get_char(k)
        invariant
            n == a@.len(),
            m == b@.len(),
            k <= n,
            k <= m,
            a@.subrange(0, k as int) == b@.subrange(0, k as int),
        decreases n - k,
    {
        assert(a@.subrange(0, k + 1) =~= a@.subrange(0, k as int).push(a@[k as int]));
        assert(b@.subrange(0, k + 1) =~= b@.subrange(0, k as int).push(b@[k as int]));
        k = k + 1;
    }
    proof {
        lemma_lex_after_prefix(a@, b@, k as int, char_lt());
        lemma_lex_after_prefix(b@, a@, k as int, char_lt());
        lemma_text_lt_irreflexive(a@);
    }
    if k < n && k < m {
        let (x, y) = (a.get_char(k), b.get_char(k));
        assert(a@.subrange(k as int, n as int)[0] == x);
        assert(b@.subrange(k as int, m as int)[0] == y);
        assert(a@[k as int] != b@[k as int]);
        assert(a@ != b@);
        if x < y {
            std::cmp::Ordering::Less
        } else {
            std::cmp::Ordering::Greater
        }
    } else if k == n && k < m {
        assert(a@.len() != b@.len());
        std::cmp::Ordering::Less
    } else if k == m && k < n {
        assert(a@.len() != b@.len());
        std::cmp::Ordering::Greater
    } else {
        assert(a@ =~= a@.subrange(0, k as int));
        assert(b@ =~= b@.subrange(0, k as int));
        std::cmp::Ordering::Equal
    }
}

/// Whether `a` comes strictly before `b` in the order of `str`.
pub fn text_less(a: &str, b: &str) -> (r: bool)
    ensures
        r == text_lt(a@, b@),
{
    match text_cmp(a, b) {
        std::cmp::Ordering::Less => true,
        _ => false,
    }
}

} // verus!
