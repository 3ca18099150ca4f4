//! The interval builder: walks the log's events in order and collects the
//! completed intervals and the events it had to ignore.
use crate::clock::{clock_text, DateTime, Time};
use crate::kinds::{copy_path, Kinds};
use crate::logs::{Interval, Log, Logs};
use crate::md::{
    events_view, log_events, markdown_blocks, parse_log_nodes, parse_markdown, path_sep, Event,
    LogNode,
};
use crate::text::{join, join_texts};
use vstd::prelude::*;

verus! {

/// An event the builder ignored, and why.
#[derive(Clone, Debug)]
pub enum LogError {
    /// A time came before any day.
    OrphanTime(Time),
    /// A category came while no interval was open.
    OrphanCategory(Vec<String>),
}

/// An ignored event as a mathematical value.
pub enum Notice {
    OrphanTime(Time),
    OrphanCategory(Seq<Seq<char>>),
}

impl LogError {
    pub open spec fn view(&self) -> Notice {
        match self {
            LogError::OrphanTime(t) => Notice::OrphanTime(*t),
            LogError::OrphanCategory(p) => Notice::OrphanCategory(p.deep_view()),
        }
    }
}

pub open spec fn notices_view(errors: Seq<LogError>) -> Seq<Notice> {
    errors.map_values(|e: LogError| e.view())
}

/// What the builder holds between two events.
pub struct BuildState {
    pub day: Option<crate::clock::Date>,
    pub start: Option<DateTime>,
    pub pending: Set<Seq<Seq<char>>>,
    pub logs: Set<Interval>,
    pub errors: Seq<Notice>,
}

pub open spec fn initial_state() -> BuildState {
    BuildState {
        day: None,
        start: None,
        pending: Set::empty(),
        logs: Set::empty(),
        errors: Seq::empty(),
    }
}

/// One event's effect.
/// - A day becomes the current day.
/// - A time with no interval open opens one on the current day, or is
///   ignored with an error when no day came yet.
/// - A time with an interval open closes it: the interval is kept when some
///   category came since it opened, and the time opens the next one.
/// - A category joins the open interval's categories, or is ignored with an
///   error when no interval is open.
pub open spec fn step(st: BuildState, e: Event) -> BuildState {
    match e {
        Event::Day(d) => BuildState { day: Some(d), ..st },
        Event::Time(t) => match st.start {
            None => match st.day {
                Some(d) => BuildState { start: Some(DateTime { date: d, time: t }), ..st },
                None => BuildState { errors: st.errors.push(Notice::OrphanTime(t)), ..st },
            },
            Some(s) => {
                let end = DateTime { date: st.day->Some_0, time: t };
                if st.pending == Set::<Seq<Seq<char>>>::empty() {
                    BuildState { start: Some(end), ..st }
                } else {
                    BuildState {
                        start: Some(end),
                        pending: Set::empty(),
                        logs: st.logs.insert(Interval { start: s, end, kinds: st.pending }),
                        ..st
                    }
                }
            },
        },
        Event::Category(p) => match st.start {
            Some(_) => BuildState { pending: st.pending.insert(p), ..st },
            None => BuildState { errors: st.errors.push(Notice::OrphanCategory(p)), ..st },
        },
    }
}

/// The state after the events, taken in order.
pub open spec fn run(es: Seq<Event>) -> BuildState
    decreases es.len(),
{
    if es.len() == 0 {
        initial_state()
    } else {
        step(run(es.drop_last()), es.last())
    }
}

/// Runs the events in order: the completed intervals, without repeats, and
/// the events that had to be ignored, in order. The builder never fails.
pub fn build_logs(events: &Vec<LogNode>) -> (r: (Logs, Vec<LogError>))
    requires
        forall|i: int| 0 <= i < events.len() ==> (#[trigger] events[i]).wf(),
    ensures
        r.0.wf(),
        r.0@ == run(events_view(events@)).logs,
        notices_view(r.1@) == run(events_view(events@)).errors,
{
    let ghost es = events_view(events@);
    let mut current_day: Option<crate::clock::Date> = None;
    let mut start_time: Option<DateTime> = None;
    let mut kinds: Vec<Vec<String>> = Vec::new();
    let mut logs = Logs::new();
    let mut errors: Vec<LogError> = Vec::new();
    let mut k: usize = 0;
    assert(kinds.deep_view().to_set() =~= Set::<Seq<Seq<char>>>::empty());
    assert(logs@ =~= Set::<Interval>::empty());
    assert(notices_view(errors@) =~= Seq::<Notice>::empty());
    while k < events.len()
        invariant
            es == events_view(events@),
            forall|i: int| 0 <= i < events.len() ==> (#[trigger] events[i]).wf(),
            k <= events.len(),
            current_day == run(es.subrange(0, k as int)).day,
            start_time == run(es.subrange(0, k as int)).start,
            kinds.deep_view().to_set() == run(es.subrange(0, k as int)).pending,
            logs.wf(),
            logs@ == run(es.subrange(0, k as int)).logs,
            notices_view(errors@) == run(es.subrange(0, k as int)).errors,
            start_time is Some ==> current_day is Some,
            current_day matches Some(d) ==> d.wf(),
            start_time matches Some(s) ==> s.wf(),
        decreases events.len() - k,
    {
        let ghost pre = es.subrange(0, k as int);
        let ghost st = run(pre);
        proof {
            let post = es.subrange(0, k + 1);
            assert(post.drop_last() =~= pre);
            assert(post.last() == events@[k as int].view());
        }
        let ghost old_errors = errors@;
        match &events[k] {
            LogNode::DayHeader(h) => {
                current_day = Some(h.date);
            },
            LogNode::TimeHeader(h) => {
                match start_time {
                    None => match current_day {
                        Some(d) => {
                            start_time = Some(DateTime::new(d, h.time));
                        },
                        None => {
                            errors.push(LogError::OrphanTime(h.time));
                            assert(notices_view(errors@) =~= notices_view(old_errors).push(
                                Notice::OrphanTime(h.time),
                            ));
                        },
                    },
                    Some(s) => {
                        let end = DateTime::new(current_day.unwrap(), h.time);
                        if kinds.len() > 0 {
                            proof {
                                assert(st.pending.contains(kinds.deep_view()[0]));
                            }
                            let taken = kinds;
                            kinds = Vec::new();
                            let log = Log::new(s, end, Kinds::new(taken));
                            logs.insert(log);
                            assert(kinds.deep_view().to_set() =~= Set::<Seq<Seq<char>>>::empty());
                        } else {
                            assert(kinds.deep_view().to_set() =~= Set::<Seq<Seq<char>>>::empty());
                        }
                        start_time = Some(end);
                    },
                }
            },
            LogNode::KindHeader(h) => {
                match start_time {
                    Some(_) => {
                        let ghost before = kinds.deep_view();
                        kinds.push(copy_path(&h.path));
                        assert(kinds.deep_view() =~= before.push(h.path.deep_view()));
                        proof {
                            before.lemma_push_to_set_commute(h.path.deep_view());
                        }
                        assert(kinds.deep_view().to_set() =~= before.to_set().insert(
                            h.path.deep_view(),
                        ));
                    },
                    None => {
                        let p = copy_path(&h.path);
                        errors.push(LogError::OrphanCategory(p));
                        assert(notices_view(errors@) =~= notices_view(old_errors).push(
                            Notice::OrphanCategory(h.path.deep_view()),
                        ));
                    },
                }
            },
        }
        k = k + 1;
    }
    assert(es.subrange(0, events.len() as int) =~= es);
    (logs, errors)
}

/// How an ignored event is reported.
pub open spec fn notice_text(n: Notice) -> Seq<char> {
    match n {
        Notice::OrphanTime(t) => "Unexpected time "@ + clock_text(t.secs as int)
            + " without preceding day header"@,
        Notice::OrphanCategory(p) => "Unexpected category "@ + join(p, path_sep())
            + " without start time set"@,
    }
}

impl LogError {
    pub fn to_text(&self) -> (r: String)
        requires
            match self {
                LogError::OrphanTime(t) => t.wf(),
                LogError::OrphanCategory(_) => true,
            },
        ensures
            r@ == notice_text(self.view()),
    {
        match self {
            LogError::OrphanTime(t) => {
                let mut s = String::from_str("Unexpected time ");
                let c = t.to_text();
                s.append(c.as_str());
                s.append(" without preceding day header");
                s
            },
            LogError::OrphanCategory(p) => {
                let mut s = String::from_str("Unexpected category ");
                proof {
                    reveal_strlit(" / ");
                    assert(" / "@ =~= path_sep());
                }
                let c = join_texts(p, " / ");
                s.append(c.as_str());
                s.append(" without start time set");
                s
            },
        }
    }
}

/// The report when the text cannot be read as markdown.
pub open spec fn unreadable_text() -> Seq<char> {
    "The log could not be read as markdown"@
}

/// Reads a log written in markdown: its completed intervals, and a message
/// for each event that had to be ignored.
pub fn parse_log(s: &str) -> (r: (Logs, Vec<String>))
    ensures
        r.0.wf(),
        match markdown_blocks(s@) {
            Some(blocks) => {
                &&& r.0@ == run(log_events(blocks)).logs
                &&& r.1.len() == run(log_events(blocks)).errors.len()
                &&& forall|i: int|
                    0 <= i < r.1.len() ==> (#[trigger] r.1[i])@ == notice_text(
                        run(log_events(blocks)).errors[i],
                    )
            },
            None => r.0@ == Set::<Interval>::empty() && r.1.len() == 1 && r.1[0]@ == unreadable_text(),
        },
{
    match parse_markdown(s) {
        Some(root) => {
            let nodes = parse_log_nodes(&root);
            let (logs, errors) = build_logs(&nodes);
            let ghost st = run(events_view(nodes@));
            proof {
                lemma_run_wf(events_view(nodes@), nodes@);
            }
            let mut texts: Vec<String> = Vec::new();
            let mut i: usize = 0;
            while i < errors.len()
                invariant
                    i <= errors.len(),
                    texts.len() == i,
                    notices_view(errors@) == st.errors,
                    forall|j: int| 0 <= j < st.errors.len() ==> notice_ok(#[trigger] st.errors[j]),
                    forall|j: int| 0 <= j < i ==> (#[trigger] texts[j])@ == notice_text(st.errors[j]),
                decreases errors.len() - i,
            {
                assert(errors@[i as int].view() == st.errors[i as int]);
                texts.push(errors[i].to_text());
                i = i + 1;
            }
            (logs, texts)
        },
        None => {
            let logs = Logs::new();
            assert(logs@ =~= Set::<Interval>::empty());
            (logs, vec![String::from_str("The log could not be read as markdown")])
        },
    }
}

/// A reported time lies within the day.
pub open spec fn notice_ok(n: Notice) -> bool {
    match n {
        Notice::OrphanTime(t) => t.wf(),
        Notice::OrphanCategory(_) => true,
    }
}

proof fn lemma_run_wf(es: Seq<Event>, nodes: Seq<LogNode>)
    requires
        es == events_view(nodes),
        forall|i: int| 0 <= i < nodes.len() ==> (#[trigger] nodes[i]).wf(),
    ensures
        forall|j: int| 0 <= j < run(es).errors.len() ==> notice_ok(#[trigger] run(es).errors[j]),
    decreases es.len(),
{
    if es.len() > 0 {
        assert(events_view(nodes.drop_last()) =~= es.drop_last());
        lemma_run_wf(es.drop_last(), nodes.drop_last());
        assert(es.last() == nodes.last().view());
        assert(nodes.last() == nodes[nodes.len() - 1]);
    }
}


/// Between any two times of `es` there is no category.
pub open spec fn no_category_between_times(es: Seq<Event>) -> bool {
    forall|i: int, j: int, k: int|
        0 <= i < j < k < es.len() && (#[trigger] es[i]) is Time && (#[trigger] es[k]) is Time
            ==> !((#[trigger] es[j]) is Category)
}

proof fn lemma_no_category_invariant(es: Seq<Event>)
    requires
        no_category_between_times(es),
    ensures
        run(es).logs == Set::<Interval>::empty(),
        run(es).start is Some ==> exists|i: int| 0 <= i < es.len() && (#[trigger] es[i]) is Time,
        run(es).pending != Set::<Seq<Seq<char>>>::empty() ==> exists|i: int, j: int|
            0 <= i < j < es.len() && (#[trigger] es[i]) is Time && (#[trigger] es[j]) is Category,
    decreases es.len(),
{
    if es.len() > 0 {
        let pre = es.drop_last();
        let n = es.len() - 1;
        assert forall|i: int, j: int, k: int|
            0 <= i < j < k < pre.len() && (#[trigger] pre[i]) is Time && (#[trigger] pre[k]) is Time
                implies !((#[trigger] pre[j]) is Category) by {
            assert(es[i] == pre[i] && es[j] == pre[j] && es[k] == pre[k]);
        }
        lemma_no_category_invariant(pre);
        let st = run(pre);
        assert(es.last() == es[n]);
        if st.start is Some {
            let i = choose|i: int| 0 <= i < pre.len() && (#[trigger] pre[i]) is Time;
            assert(es[i] == pre[i]);
        }
        if st.pending != Set::<Seq<Seq<char>>>::empty() {
            let (i, j) = choose|i: int, j: int|
                0 <= i < j < pre.len() && (#[trigger] pre[i]) is Time && (#[trigger] pre[j]) is Category;
            assert(es[i] == pre[i] && es[j] == pre[j]);
        }
        match es[n] {
            Event::Category(_) => {
                if st.start is Some {
                    let i = choose|i: int| 0 <= i < pre.len() && (#[trigger] pre[i]) is Time;
                    assert(es[i] == pre[i]);
                    assert(0 <= i < n && es[i] is Time && es[n] is Category);
                }
            },
            Event::Time(_) => {
                if st.pending != Set::<Seq<Seq<char>>>::empty() {
                    let (i, j) = choose|i: int, j: int|
                        0 <= i < j < pre.len() && (#[trigger] pre[i]) is Time && (#[trigger] pre[j]) is Category;
                    assert(es[i] == pre[i] && es[j] == pre[j]);
                    assert(es[i] is Time && es[n] is Time);
                }
                assert(es[n] is Time);
            },
            Event::Day(_) => {},
        }
    }
}

/// When no category stands between two times, the builder completes no
/// interval: a time only closes an interval that a category came into.
pub proof fn lemma_no_category_no_interval(es: Seq<Event>)
    requires
        no_category_between_times(es),
    ensures
        run(es).logs == Set::<Interval>::empty(),
{
    lemma_no_category_invariant(es);
}

/// No events give no intervals and no errors.
pub proof fn lemma_run_empty()
    ensures
        run(Seq::empty()).logs == Set::<Interval>::empty(),
        run(Seq::empty()).errors == Seq::<Notice>::empty(),
{
}

/// Errors are only ever added: those after the first `n` events begin the list
/// of those after all of them.
pub proof fn lemma_errors_grow(es: Seq<Event>, n: int)
    requires
        0 <= n <= es.len(),
    ensures
        run(es.subrange(0, n)).errors.len() <= run(es).errors.len(),
        run(es).errors.subrange(0, run(es.subrange(0, n)).errors.len() as int) == run(
            es.subrange(0, n),
        ).errors,
    decreases es.len() - n,
{
    if n < es.len() {
        lemma_errors_grow(es, n + 1);
        let a = es.subrange(0, n);
        let b = es.subrange(0, n + 1);
        assert(b.drop_last() =~= a);
        let ea = run(a).errors;
        let eb = run(b).errors;
        assert(eb.subrange(0, ea.len() as int) =~= ea);
        assert(run(es).errors.subrange(0, ea.len() as int) =~= eb.subrange(0, ea.len() as int));
    } else {
        assert(es.subrange(0, n) =~= es);
        assert(run(es).errors.subrange(0, run(es).errors.len() as int) =~= run(es).errors);
    }
}

/// A sequence that starts with a category reports that category first, as a
/// category with no open interval; alone, it gives that one error and no interval.
pub proof fn lemma_leading_category(es: Seq<Event>, p: Seq<Seq<char>>)
    requires
        es.len() > 0,
        es[0] == Event::Category(p),
    ensures
        run(es).errors.len() >= 1,
        run(es).errors[0] == Notice::OrphanCategory(p),
        es.len() == 1 ==> run(es).errors == seq![Notice::OrphanCategory(p)] && run(es).logs
            == Set::<Interval>::empty(),
{
    let first = es.subrange(0, 1);
    assert(first.drop_last() =~= Seq::<Event>::empty());
    assert(first.last() == Event::Category(p));
    assert(run(first.drop_last()) == initial_state());
    assert(run(first) == step(initial_state(), Event::Category(p)));
    assert(Seq::<Notice>::empty().push(Notice::OrphanCategory(p)) =~= seq![Notice::OrphanCategory(p)]);
    assert(run(first).errors =~= seq![Notice::OrphanCategory(p)]);
    lemma_errors_grow(es, 1);
    assert(run(es).errors.subrange(0, 1)[0] == run(es).errors[0]);
    if es.len() == 1 {
        assert(first =~= es);
    }
}
} // verus!
