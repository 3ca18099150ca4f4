//! Completed intervals, the set that holds them, and the totals drawn from it.
use crate::clock::{clock_text, date_text, seconds_between, Date, DateTime, MAX_DAY, MIN_DAY};
use crate::kinds::{kinds_lt, kinds_order, lemma_path_order, renders_kinds, Kinds};
use crate::text::{
    irreflexive, join, join_texts, lemma_strictly_sorted_unique, strictly_sorted, transitive,
};
use std::cmp::Ordering;
use vstd::prelude::*;

verus! {

/// An interval as a mathematical value.
pub struct Interval {
    pub start: DateTime,
    pub end: DateTime,
    pub kinds: Set<Seq<Seq<char>>>,
}

impl Interval {
    pub open spec fn wf(self) -> bool {
        self.start.wf() && self.end.wf()
    }

    /// Seconds from start to end.
    pub open spec fn duration(self) -> int {
        self.end.seconds() - self.start.seconds()
    }
}

/// No interval between valid date-times lasts this many seconds or more.
pub open spec fn max_span() -> int {
    0x2000_0000_0000
}

/// `r` shows the interval: `YYYY-MM-DD HH:MM:SS-HH:MM:SS` and its categories.
pub open spec fn renders_log(v: Interval, r: Seq<char>) -> bool {
    exists|kt: Seq<char>|
        #![trigger renders_kinds(v.kinds, kt)]
        renders_kinds(v.kinds, kt) && r == date_text(v.start.date.days as int) + seq![' ']
            + clock_text(v.start.time.secs as int) + seq!['-'] + clock_text(
            v.end.time.secs as int,
        ) + seq![' '] + kt
}

/// `a` comes strictly before `b`: an earlier day, or the same day and an
/// earlier time.
pub open spec fn datetime_lt(a: DateTime, b: DateTime) -> bool {
    a.date.days < b.date.days || (a.date.days == b.date.days && a.time.secs < b.time.secs)
}

/// Intervals ordered by start, then by end, then by their categories.
pub open spec fn interval_lt(a: Interval, b: Interval) -> bool {
    datetime_lt(a.start, b.start) || (a.start == b.start && (datetime_lt(a.end, b.end) || (a.end
        == b.end && kinds_lt(a.kinds, b.kinds))))
}

pub open spec fn interval_order() -> spec_fn(Interval, Interval) -> bool {
    |a: Interval, b: Interval| interval_lt(a, b)
}

/// The order of intervals is a strict order.
pub proof fn lemma_interval_order()
    ensures
        irreflexive(interval_order()),
        transitive(interval_order()),
{
    lemma_path_order();
    assert forall|x: Interval| !#[trigger] interval_order()(x, x) by {
        assert(!kinds_order()(x.kinds, x.kinds));
    }
    assert forall|x: Interval, y: Interval, z: Interval|
        #[trigger] interval_order()(x, y) && #[trigger] interval_order()(y, z) implies interval_order()(
        x,
        z,
    ) by {
        if x.start == y.start && y.start == z.start && x.end == y.end && y.end == z.end {
            assert(kinds_order()(x.kinds, y.kinds) && kinds_order()(y.kinds, z.kinds));
        }
    }
}

/// A span of time and the categories worked on during it.
#[derive(Debug)]
pub struct Log {
    pub start: DateTime,
    pub end: DateTime,
    pub kinds: Kinds,
}

impl Log {
    pub open spec fn view(&self) -> Interval {
        Interval { start: self.start, end: self.end, kinds: self.kinds.view() }
    }

    pub fn new(start: DateTime, end: DateTime, kinds: Kinds) -> (r: Log)
        ensures
            r.view() == (Interval { start, end, kinds: kinds.view() }),
    {
        Log { start, end, kinds }
    }

    /// Whether both have the same start, end and categories.
    pub fn same(&self, other: &Log) -> (r: bool)
        ensures
            r == (self.view() == other.view()),
    {
        self.start == other.start && self.end == other.end && self.kinds.same(&other.kinds)
    }

    /// Compares by start, then end, then categories.
    pub fn cmp_log(&self, other: &Log) -> (r: Ordering)
        ensures
            (r == Ordering::Less) == interval_lt(self.view(), other.view()),
            (r == Ordering::Greater) == interval_lt(other.view(), self.view()),
            (r == Ordering::Equal) == (self.view() == other.view()),
    {
        match cmp_datetime(&self.start, &other.start) {
            Ordering::Equal => match cmp_datetime(&self.end, &other.end) {
                Ordering::Equal => self.kinds.cmp_kinds(&other.kinds),
                c => c,
            },
            c => c,
        }
    }

    /// `YYYY-MM-DD HH:MM:SS-HH:MM:SS` followed by the categories.
    pub fn to_text(&self) -> (r: String)
        requires
            self.view().wf(),
        ensures
            renders_log(self.view(), r@),
    {
        let mut s = self.start.to_text();
        s.append("-");
        let e = self.end.time.to_text();
        s.append(e.as_str());
        s.append(" ");
        let k = self.kinds.to_text();
        s.append(k.as_str());
        proof {
            reveal_strlit("-");
            reveal_strlit(" ");
            assert("-"@ =~= seq!['-']);
            assert(" "@ =~= seq![' ']);
            assert(renders_kinds(self.kinds.view(), k@));
            assert(s@ =~= date_text(self.start.date.days as int) + seq![' '] + clock_text(
                self.start.time.secs as int,
            ) + seq!['-'] + clock_text(self.end.time.secs as int) + seq![' '] + k@);
            let v = self.view();
            assert(v.kinds == self.kinds.view());
            assert(renders_kinds(v.kinds, k@));
            assert(s@ == date_text(v.start.date.days as int) + seq![' '] + clock_text(
                v.start.time.secs as int,
            ) + seq!['-'] + clock_text(v.end.time.secs as int) + seq![' '] + k@);
        }
        s
    }
}

/// `after` is `before` with `v` added: unchanged when an equal interval was
/// already held, else one interval longer.
pub open spec fn inserted(before: Logs, after: Logs, v: Interval) -> bool {
    &&& after@ == before@.insert(v)
    &&& before@.contains(v) ==> after.intervals() == before.intervals()
    &&& !before@.contains(v) ==> after.intervals().len() == before.intervals().len() + 1
}

fn cmp_datetime(a: &DateTime, b: &DateTime) -> (r: Ordering)
    ensures
        (r == Ordering::Less) == datetime_lt(*a, *b),
        (r == Ordering::Greater) == datetime_lt(*b, *a),
        (r == Ordering::Equal) == (*a == *b),
{
    if a.date.days < b.date.days {
        Ordering::Less
    } else if a.date.days > b.date.days {
        Ordering::Greater
    } else if a.time.secs < b.time.secs {
        Ordering::Less
    } else if a.time.secs > b.time.secs {
        Ordering::Greater
    } else {
        Ordering::Equal
    }
}

/// Sorted by start, each no later than the next.
pub open spec fn sorted_by_start(s: Seq<Interval>) -> bool {
    forall|i: int, j: int|
        0 <= i < j < s.len() ==> (#[trigger] s[i]).start.seconds() <= (#[trigger] s[j]).start.seconds()
}

/// The completed intervals, each held once, ordered by start, then by end,
/// then by categories.
#[derive(Debug)]
pub struct Logs {
    logs: Vec<Log>,
}

impl Logs {
    /// The intervals in the order they are shown.
    pub closed spec fn intervals(&self) -> Seq<Interval> {
        self.logs@.map_values(|l: Log| l.view())
    }

    pub open spec fn view(&self) -> Set<Interval> {
        self.intervals().to_set()
    }

    pub open spec fn wf(&self) -> bool {
        &&& strictly_sorted(self.intervals(), interval_order())
        &&& sorted_by_start(self.intervals())
        &&& self.intervals().no_duplicates()
        &&& forall|i: int| 0 <= i < self.intervals().len() ==> (#[trigger] self.intervals()[i]).wf()
    }

    pub fn new() -> (r: Logs)
        ensures
            r.wf(),
            r.intervals() == Seq::<Interval>::empty(),
    {
        let r = Logs { logs: Vec::new() };
        assert(r.intervals() =~= Seq::<Interval>::empty());
        r
    }

    pub fn len(&self) -> (r: usize)
        ensures
            r == self.intervals().len(),
    {
        self.logs.len()
    }

    /// Adds an interval unless an equal one is already held.
    pub fn insert(&mut self, log: Log)
        requires
            old(self).wf(),
            log.view().wf(),
        ensures
            final(self).wf(),
            inserted(*old(self), *final(self), log.view()),
    {
        let ghost old_iv = self.intervals();
        let ghost v = log.view();
        let n = self.logs.len();
        proof {
            lemma_interval_order();
        }
        let mut p: usize = 0;
        let mut found = false;
        let mut after = false;
        while p < n && !found && !after
            invariant
                n == self.logs.len(),
                old_iv == self.intervals(),
                v == log.view(),
                p <= n,
                forall|j: int| 0 <= j < p ==> interval_lt(#[trigger] old_iv[j], v),
                found ==> p < n && old_iv[p as int] == v,
                after ==> p < n && interval_lt(v, old_iv[p as int]),
            decreases n - p + (if found || after { 0int } else { 1int }),
        {
            assert(old_iv[p as int] == self.logs@[p as int].view());
            match self.logs[p].cmp_log(&log) {
                Ordering::Less => {
                    p = p + 1;
                },
                Ordering::Equal => {
                    found = true;
                },
                Ordering::Greater => {
                    after = true;
                },
            }
        }
        if found {
            proof {
                assert(old_iv.contains(v));
                assert(self@ =~= self@.insert(v));
            }
            return;
        }
        self.logs.insert(p, log);
        proof {
            let s = self.intervals();
            assert(s =~= old_iv.insert(p as int, v));
            assert forall|a: int, b: int| 0 <= a < b < s.len() implies interval_order()(
                #[trigger] s[a],
                #[trigger] s[b],
            ) by {
                if b == p {
                    assert(interval_lt(old_iv[a], v));
                } else if a == p {
                    if b - 1 > p {
                        assert(interval_order()(old_iv[p as int], old_iv[b - 1]));
                    }
                    assert(interval_order()(v, old_iv[p as int]));
                } else {
                    let oa = if a < p { a } else { a - 1 };
                    let ob = if b < p { b } else { b - 1 };
                    assert(s[a] == old_iv[oa] && s[b] == old_iv[ob]);
                }
            }
            assert forall|j: int| 0 <= j < s.len() implies (#[trigger] s[j]).wf() by {
                if j < p {
                    assert(s[j] == old_iv[j]);
                } else if j > p {
                    assert(s[j] == old_iv[j - 1]);
                }
            }
            lemma_ordered_by_start(s);
            assert forall|x: Interval| s.contains(x) <==> old_iv.contains(x) || x == v by {
                if s.contains(x) {
                    let j = choose|j: int| 0 <= j < s.len() && s[j] == x;
                    if j < p {
                        assert(old_iv[j] == x);
                    } else if j > p {
                        assert(old_iv[j - 1] == x);
                    }
                }
                if old_iv.contains(x) {
                    let j = choose|j: int| 0 <= j < old_iv.len() && old_iv[j] == x;
                    if j < p {
                        assert(s[j] == x);
                    } else {
                        assert(s[j + 1] == x);
                    }
                }
                if x == v {
                    assert(s[p as int] == v);
                }
            }
            assert(s.to_set() =~= old_iv.to_set().insert(v));
            assert(!old_iv.contains(v)) by {
                if old_iv.contains(v) {
                    let j = choose|j: int| 0 <= j < old_iv.len() && old_iv[j] == v;
                    if j < p {
                        assert(interval_order()(v, v));
                    } else {
                        if j > p {
                            assert(interval_order()(old_iv[p as int], old_iv[j]));
                        }
                        assert(interval_order()(v, v));
                    }
                }
            }
        }
    }

    /// The intervals ordered by start, then by end, then by categories.
    pub fn sorted_logs(&self) -> (r: &Vec<Log>)
        ensures
            r@.map_values(|l: Log| l.view()) == self.intervals(),
    {
        &self.logs
    }

    /// Each interval written on a line of its own, in the order of `sorted_logs`.
    pub fn to_plain_text(&self) -> (r: String)
        requires
            self.wf(),
        ensures
            exists|lines: Seq<Seq<char>>|
                #![trigger lines.len()]
                lines.len() == self.intervals().len() && (forall|i: int|
                    0 <= i < lines.len() ==> renders_log(self.intervals()[i], #[trigger] lines[i]))
                    && r@ == join(lines, seq!['\n']),
    {
        let mut lines: Vec<String> = Vec::new();
        let mut k: usize = 0;
        while k < self.logs.len()
            invariant
                self.wf(),
                k <= self.logs.len(),
                lines.len() == k,
                forall|i: int| 0 <= i < k ==> renders_log(self.intervals()[i], #[trigger] lines.deep_view()[i]),
            decreases self.logs.len() - k,
        {
            assert(self.intervals()[k as int] == self.logs@[k as int].view());
            let t = self.logs[k].to_text();
            let ghost before = lines.deep_view();
            lines.push(t);
            assert(lines.deep_view() =~= before.push(t@));
            k = k + 1;
        }
        proof {
            reveal_strlit("\n");
            assert("\n"@ =~= seq!['\n']);
        }
        let r = join_texts(&lines, "\n");
        assert(lines.deep_view().len() == self.intervals().len());
        r
    }
}


/// Summed duration of the intervals of `s` that start on day `d`.
pub open spec fn day_total(s: Seq<Interval>, d: int) -> int
    decreases s.len(),
{
    if s.len() == 0 {
        0
    } else {
        day_total(s.drop_last(), d) + if s.last().start.date.days == d {
            s.last().duration()
        } else {
            0
        }
    }
}

/// Some interval of `s` starts on day `d`.
pub open spec fn starts_on(s: Seq<Interval>, d: int) -> bool {
    exists|j: int| 0 <= j < s.len() && (#[trigger] s[j]).start.date.days == d
}

/// `t` lists, by ascending date, each day on which an interval of `s`
/// starts, with the summed duration of the intervals starting that day.
pub open spec fn is_day_totals(s: Seq<Interval>, t: Seq<(Date, int)>) -> bool {
    &&& forall|i: int, j: int| 0 <= i < j < t.len() ==> (#[trigger] t[i]).0.days < (#[trigger] t[j]).0.days
    &&& forall|i: int|
        0 <= i < t.len() ==> (#[trigger] t[i]).0.wf() && t[i].1 == day_total(s, t[i].0.days as int)
            && starts_on(s, t[i].0.days as int)
    &&& forall|j: int|
        0 <= j < s.len() ==> exists|i: int| 0 <= i < t.len() && (#[trigger] t[i]).0 == (#[trigger] s[j]).start.date
}

pub open spec fn totals_view(r: Seq<(Date, i128)>) -> Seq<(Date, int)> {
    r.map_values(|x: (Date, i128)| (x.0, x.1 as int))
}

/// The sum of the first `n` day totals.
pub open spec fn prefix_sum(t: Seq<(Date, int)>, n: int) -> int
    decreases n,
{
    if n <= 0 {
        0
    } else {
        prefix_sum(t, n - 1) + t[n - 1].1
    }
}

/// Running actual minus running target after the first `i + 1` days.
pub open spec fn delta_at(t: Seq<(Date, int)>, target: int, i: int) -> int {
    prefix_sum(t, i + 1) - (i + 1) * target
}

pub open spec fn abs(x: int) -> int {
    if x < 0 {
        -x
    } else {
        x
    }
}

/// The sum of the sizes of the day totals.
pub open spec fn abs_sum(t: Seq<(Date, int)>) -> int
    decreases t.len(),
{
    if t.len() == 0 {
        0
    } else {
        abs_sum(t.drop_last()) + abs(t.last().1)
    }
}

proof fn lemma_day_total_absent(s: Seq<Interval>, d: int)
    requires
        !starts_on(s, d),
    ensures
        day_total(s, d) == 0,
    decreases s.len(),
{
    if s.len() > 0 {
        assert(!starts_on(s.drop_last(), d)) by {
            if starts_on(s.drop_last(), d) {
                let j = choose|j: int| 0 <= j < s.len() - 1 && (#[trigger] s.drop_last()[j]).start.date.days == d;
                assert(s[j] == s.drop_last()[j]);
            }
        }
        assert(s.last() == s[s.len() - 1]);
        lemma_day_total_absent(s.drop_last(), d);
    }
}

proof fn lemma_prefix_sum_bound(t: Seq<(Date, int)>, n: int)
    requires
        0 <= n <= t.len(),
    ensures
        abs(prefix_sum(t, n)) <= abs_sum(t.subrange(0, n)),
    decreases n,
{
    if n > 0 {
        lemma_prefix_sum_bound(t, n - 1);
        assert(t.subrange(0, n).drop_last() =~= t.subrange(0, n - 1));
    }
}

proof fn lemma_abs_sum_prefix(t: Seq<(Date, int)>, n: int)
    requires
        0 <= n <= t.len(),
    ensures
        abs_sum(t.subrange(0, n)) <= abs_sum(t),
    decreases t.len() - n,
{
    if n < t.len() {
        lemma_abs_sum_prefix(t, n + 1);
        assert(t.subrange(0, n + 1).drop_last() =~= t.subrange(0, n));
    } else {
        assert(t.subrange(0, n) =~= t);
    }
}

/// Days listed in strictly ascending order are no more than the calendar holds.
proof fn lemma_days_fit(t: Seq<(Date, int)>)
    requires
        forall|i: int, j: int| 0 <= i < j < t.len() ==> (#[trigger] t[i]).0.days < (#[trigger] t[j]).0.days,
        forall|i: int| 0 <= i < t.len() ==> (#[trigger] t[i]).0.wf(),
    ensures
        t.len() <= MAX_DAY - MIN_DAY + 1,
{
    if t.len() > 0 {
        assert forall|i: int| 0 <= i < t.len() implies (#[trigger] t[i]).0.days >= t[0].0.days + i by {
            lemma_days_step(t, i);
        }
        assert(t[t.len() - 1].0.days >= t[0].0.days + t.len() - 1);
    }
}

proof fn lemma_days_step(t: Seq<(Date, int)>, i: int)
    requires
        0 <= i < t.len(),
        forall|a: int, b: int| 0 <= a < b < t.len() ==> (#[trigger] t[a]).0.days < (#[trigger] t[b]).0.days,
    ensures
        t[i].0.days >= t[0].0.days + i,
    decreases i,
{
    if i > 0 {
        lemma_days_step(t, i - 1);
        assert(t[i - 1].0.days < t[i].0.days);
    }
}

proof fn lemma_scaled_target(k: int, target: int)
    requires
        0 <= k <= 0x1000_0000,
        -0x8000_0000_0000_0000 <= target < 0x8000_0000_0000_0000,
    ensures
        -0x8_0000_0000_0000_0000_0000_0000 <= k * target <= 0x8_0000_0000_0000_0000_0000_0000,
{
    assert(-0x8_0000_0000_0000_0000_0000_0000 <= k * target <= 0x8_0000_0000_0000_0000_0000_0000) by (nonlinear_arith)
        requires
            0 <= k <= 0x1000_0000,
            -0x8000_0000_0000_0000 <= target < 0x8000_0000_0000_0000,
    ;
}

impl Logs {
    /// The day totals together with a bound on their sizes.
    fn day_totals(&self) -> (r: Vec<(Date, i128)>)
        requires
            self.wf(),
        ensures
            is_day_totals(self.intervals(), totals_view(r@)),
            abs_sum(totals_view(r@)) <= self.intervals().len() * max_span(),
    {
        let ghost s = self.intervals();
        let mut r: Vec<(Date, i128)> = Vec::new();
        let mut k: usize = 0;
        while k < self.logs.len()
            invariant
                self.wf(),
                s == self.intervals(),
                k <= self.logs.len(),
                is_day_totals(s.subrange(0, k as int), totals_view(r@)),
                k == 0 ==> r.len() == 0,
                k > 0 ==> r.len() > 0 && r@.last().0 == s[k - 1].start.date,
                abs_sum(totals_view(r@)) <= k * max_span(),
            decreases self.logs.len() - k,
        {
            let ghost pre = s.subrange(0, k as int);
            let ghost post = s.subrange(0, k + 1);
            let ghost tv = totals_view(r@);
            let log = &self.logs[k];
            assert(s[k as int] == log.view());
            let ghost x = s[k as int];
            let d = log.start.date;
            let dur = seconds_between(&log.start, &log.end);
            assert(post.drop_last() =~= pre);
            assert(post.last() == x);
            assert(-max_span() < dur < max_span());
            proof {
                lemma_abs_sum_last(tv);
            }
            if r.len() > 0 && r[r.len() - 1].0.days == d.days {
                let last = r.len() - 1;
                let prev = r[last].1;
                r.set(last, (d, prev + dur as i128));
                proof {
                    let nt = totals_view(r@);
                    assert(nt =~= tv.update(last as int, (d, tv[last as int].1 + dur)));
                    assert(nt.drop_last() =~= tv.drop_last());
                    assert forall|i: int| 0 <= i < nt.len() implies (#[trigger] nt[i]).0.wf()
                        && nt[i].1 == day_total(post, nt[i].0.days as int) && starts_on(
                        post,
                        nt[i].0.days as int,
                    ) by {
                        assert(starts_on(pre, tv[i].0.days as int));
                        let j = choose|j: int| 0 <= j < pre.len() && (#[trigger] pre[j]).start.date.days == tv[i].0.days;
                        assert(post[j] == pre[j]);
                        if i < last {
                            assert(tv[i].0.days < tv[last as int].0.days);
                        }
                    }
                    assert forall|j: int| 0 <= j < post.len() implies exists|i: int|
                        0 <= i < nt.len() && (#[trigger] nt[i]).0 == (#[trigger] post[j]).start.date by {
                        if j < k {
                            assert(post[j] == pre[j]);
                            let i = choose|i: int| 0 <= i < tv.len() && (#[trigger] tv[i]).0 == (#[trigger] pre[j]).start.date;
                            assert(nt[i].0 == tv[i].0);
                        } else {
                            assert(nt[last as int].0 == d);
                        }
                    }
                }
            } else {
                r.push((d, dur as i128));
                proof {
                    let nt = totals_view(r@);
                    assert(nt =~= tv.push((d, dur as int)));
                    assert(nt.drop_last() =~= tv);
                    if k > 0 {
                        assert(s[k - 1].start.seconds() <= s[k as int].start.seconds());
                        assert(tv.last().0.days < d.days);
                    }
                    assert(!starts_on(pre, d.days as int)) by {
                        if starts_on(pre, d.days as int) {
                            let j = choose|j: int| 0 <= j < pre.len() && (#[trigger] pre[j]).start.date.days == d.days;
                            let i = choose|i: int| 0 <= i < tv.len() && (#[trigger] tv[i]).0 == (#[trigger] pre[j]).start.date;
                            if i < tv.len() - 1 {
                                assert(tv[i].0.days < tv[tv.len() - 1].0.days);
                            }
                        }
                    }
                    lemma_day_total_absent(pre, d.days as int);
                    assert forall|i: int| 0 <= i < nt.len() implies (#[trigger] nt[i]).0.wf()
                        && nt[i].1 == day_total(post, nt[i].0.days as int) && starts_on(
                        post,
                        nt[i].0.days as int,
                    ) by {
                        if i < tv.len() {
                            assert(starts_on(pre, tv[i].0.days as int));
                            let j = choose|j: int| 0 <= j < pre.len() && (#[trigger] pre[j]).start.date.days == tv[i].0.days;
                            assert(post[j] == pre[j]);
                            if i < tv.len() - 1 {
                                assert(tv[i].0.days < tv[tv.len() - 1].0.days);
                            }
                        } else {
                            assert(post[k as int] == x);
                        }
                    }
                    assert forall|a: int, b: int| 0 <= a < b < nt.len() implies (#[trigger] nt[a]).0.days
                        < (#[trigger] nt[b]).0.days by {
                        if b == tv.len() && a < tv.len() - 1 {
                            assert(tv[a].0.days < tv[tv.len() - 1].0.days);
                        }
                    }
                    assert forall|j: int| 0 <= j < post.len() implies exists|i: int|
                        0 <= i < nt.len() && (#[trigger] nt[i]).0 == (#[trigger] post[j]).start.date by {
                        if j < k {
                            assert(post[j] == pre[j]);
                            let i = choose|i: int| 0 <= i < tv.len() && (#[trigger] tv[i]).0 == (#[trigger] pre[j]).start.date;
                            assert(nt[i].0 == tv[i].0);
                        } else {
                            assert(nt[tv.len() as int].0 == d);
                        }
                    }
                }
            }
            k = k + 1;
        }
        assert(s.subrange(0, s.len() as int) =~= s);
        r
    }

    /// For each day on which an interval starts, ascending, the summed
    /// duration in seconds of the intervals starting that day.
    pub fn total_by_day(&self) -> (r: Vec<(Date, i128)>)
        requires
            self.wf(),
        ensures
            is_day_totals(self.intervals(), totals_view(r@)),
    {
        self.day_totals()
    }

    /// For each day of `total_by_day`: the date, the day's total, and the
    /// running total minus `target` seconds for each day so far.
    pub fn accumulated_vs_target(&self, target: i64) -> (r: Vec<(Date, i128, i128)>)
        requires
            self.wf(),
        ensures
            is_day_totals(self.intervals(), rows_totals(r@)),
            forall|i: int|
                0 <= i < r.len() ==> (#[trigger] r[i]).2 == delta_at(rows_totals(r@), target as int, i),
    {
        let totals = self.day_totals();
        let ghost tv = totals_view(totals@);
        proof {
            lemma_days_fit(tv);
        }
        let mut r: Vec<(Date, i128, i128)> = Vec::new();
        let mut running: i128 = 0;
        let mut running_target: i128 = 0;
        let mut k: usize = 0;
        while k < totals.len()
            invariant
                tv == totals_view(totals@),
                tv.len() <= MAX_DAY - MIN_DAY + 1,
                abs_sum(tv) <= self.intervals().len() * max_span(),
                k <= totals.len(),
                r.len() == k,
                rows_totals(r@) == tv.subrange(0, k as int),
                running == prefix_sum(tv, k as int),
                running_target == k * target,
                forall|i: int| 0 <= i < k ==> (#[trigger] r[i]).2 == delta_at(tv, target as int, i),
            decreases totals.len() - k,
        {
            let (d, t) = totals[k];
            proof {
                assert(tv[k as int].1 == t as int);
                lemma_prefix_sum_bound(tv, k + 1);
                lemma_abs_sum_prefix(tv, k + 1);
                lemma_scaled_target(k + 1, target as int);
                assert(self.intervals().len() == self.logs.len());
                let n = self.intervals().len();
                assert(n * max_span() <= 0x1_0000_0000_0000_0000 * max_span()) by (nonlinear_arith)
                    requires
                        n <= 0x1_0000_0000_0000_0000,
                ;
                assert((k + 1) * target == k * target + target) by (nonlinear_arith);
            }
            running = running + t;
            running_target = running_target + target as i128;
            let ghost before = r@;
            r.push((d, t, running - running_target));
            proof {
                assert(rows_totals(r@) =~= tv.subrange(0, k + 1));
            }
            k = k + 1;
        }
        proof {
            assert(tv.subrange(0, tv.len() as int) =~= tv);
            assert(rows_totals(r@) == tv);
        }
        r
    }
}

pub open spec fn rows_totals(r: Seq<(Date, i128, i128)>) -> Seq<(Date, int)> {
    r.map_values(|x: (Date, i128, i128)| (x.0, x.1 as int))
}

proof fn lemma_abs_sum_last(t: Seq<(Date, int)>)
    ensures
        t.len() > 0 ==> abs(t.last().1) <= abs_sum(t) && abs_sum(t.drop_last()) + abs(t.last().1)
            == abs_sum(t),
        abs_sum(t) >= 0,
    decreases t.len(),
{
    if t.len() > 0 {
        lemma_abs_sum_last(t.drop_last());
    }
}


/// Adding the same interval twice holds it once: the second addition changes
/// nothing, and into an empty set the two leave exactly one interval.
pub proof fn lemma_insert_twice(before: Logs, once: Logs, twice: Logs, v: Interval)
    requires
        inserted(before, once, v),
        inserted(once, twice, v),
    ensures
        twice@ == once@,
        twice.intervals() == once.intervals(),
        before@.is_empty() ==> twice@.len() == 1 && twice.intervals().len() == 1,
{
    assert(once@.contains(v));
    if before@.is_empty() {
        if before.intervals().len() > 0 {
            assert(before@.contains(before.intervals()[0]));
        }
        assert(twice@ =~= Set::<Interval>::empty().insert(v));
        assert(Set::<Interval>::empty().insert(v).len() == 1);
    }
}

/// The listed intervals come by non-decreasing start, hold exactly the set's
/// intervals, and are the same list on every call for the same set.
pub proof fn lemma_sorted_logs_ordered(l: Logs, first: Seq<Interval>, second: Seq<Interval>)
    requires
        l.wf(),
        first == l.intervals(),
        second == l.intervals(),
    ensures
        first == second,
        sorted_by_start(first),
        first.to_set() == l@,
        first.no_duplicates(),
{
}

/// Each day moves the running delta by its total minus the target; the first
/// day's delta is its total minus the target.
pub proof fn lemma_delta_step(t: Seq<(Date, int)>, target: int, i: int)
    requires
        0 < i < t.len(),
    ensures
        delta_at(t, target, 0) == t[0].1 - target,
        delta_at(t, target, i) == delta_at(t, target, i - 1) + t[i].1 - target,
{
    assert(prefix_sum(t, 1) == prefix_sum(t, 0) + t[0].1);
    assert((i + 1) * target == i * target + target) by (nonlinear_arith);
}

/// Days that log exactly the target leave the delta where it was: an
/// excess or shortfall carries over until other days offset it.
pub proof fn lemma_delta_persists(t: Seq<(Date, int)>, target: int, i: int, j: int)
    requires
        0 <= i <= j < t.len(),
        forall|m: int| i < m <= j ==> (#[trigger] t[m]).1 == target,
    ensures
        delta_at(t, target, j) == delta_at(t, target, i),
    decreases j - i,
{
    if j > i {
        lemma_delta_persists(t, target, i, j - 1);
        lemma_delta_step(t, target, j);
    }
}

/// When every day so far logs exactly the target, the delta is zero.
pub proof fn lemma_on_target(t: Seq<(Date, int)>, target: int, i: int)
    requires
        0 <= i < t.len(),
        forall|m: int| 0 <= m <= i ==> (#[trigger] t[m]).1 == target,
    ensures
        delta_at(t, target, i) == 0,
{
    if i > 0 {
        lemma_delta_step(t, target, i);
    }
    assert(prefix_sum(t, 1) == prefix_sum(t, 0) + t[0].1);
    lemma_delta_persists(t, target, 0, i);
}

/// How many rows a balance report shows when it walks them newest first: the
/// newest always, then each older one down to and including the first whose
/// delta is exactly zero.
pub fn rows_to_show(rows: &Vec<(Date, i128, i128)>) -> (n: usize)
    ensures
        n <= rows.len(),
        rows.len() > 0 ==> n >= 1,
        forall|i: int| 1 <= i < n - 1 ==> (#[trigger] rows[rows.len() - 1 - i]).2 != 0,
        n == rows.len() || (n >= 2 && rows[rows.len() - n].2 == 0),
{
    let len = rows.len();
    let mut n: usize = 0;
    while n < len
        invariant
            len == rows.len(),
            n <= len,
            forall|i: int| 1 <= i < n ==> (#[trigger] rows[len - 1 - i]).2 != 0,
        decreases len - n,
    {
        let delta = rows[len - 1 - n].2;
        n = n + 1;
        if delta == 0 && n > 1 {
            return n;
        }
    }
    n
}


/// Intervals strictly ordered and within range come by non-decreasing start,
/// each once.
proof fn lemma_ordered_by_start(s: Seq<Interval>)
    requires
        strictly_sorted(s, interval_order()),
        forall|j: int| 0 <= j < s.len() ==> (#[trigger] s[j]).wf(),
    ensures
        sorted_by_start(s),
        s.no_duplicates(),
{
    lemma_interval_order();
    assert forall|i: int, j: int| 0 <= i < j < s.len() implies (#[trigger] s[i]).start.seconds()
        <= (#[trigger] s[j]).start.seconds() by {
        assert(interval_order()(s[i], s[j]));
    }
    assert forall|i: int, j: int| 0 <= i < j < s.len() implies s[i] != s[j] by {
        assert(interval_order()(s[i], s[j]));
    }
}

/// The listing is fixed by the set alone: two sets of intervals holding the
/// same intervals list them in the same order, ties in start broken by end
/// and then by categories, so their plain texts are built from the same list.
pub proof fn lemma_logs_determined(a: Logs, b: Logs)
    requires
        a.wf(),
        b.wf(),
        a@ == b@,
    ensures
        a.intervals() == b.intervals(),
{
    lemma_interval_order();
    lemma_strictly_sorted_unique(a.intervals(), b.intervals(), interval_order());
}
} // verus!
