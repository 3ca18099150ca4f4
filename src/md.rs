//! The log's headings: what a markdown document holds at its top level, and
//! how a heading becomes a day, a time or a category event.
use crate::clock::{date_of_text, time_of_text, Date, Time};
use crate::text::{split, split_text};
use markdown::mdast;
use vstd::prelude::*;

verus! {

/// What a top-level block of a markdown document shows to the log: a heading
/// with its depth and the value of its first child when that child is text.
#[derive(Clone, Debug)]
pub enum Node {
    Heading { depth: u8, text: Option<String> },
    Other,
}

/// A block as a depth (0 for a block that is no heading) and an optional text.
pub type NodeView = (int, Option<Seq<char>>);

impl Node {
    pub open spec fn view(&self) -> NodeView {
        match self {
            Node::Heading { depth, text } => (
                *depth as int,
                match text {
                    Some(t) => Some(t@),
                    None => None,
                },
            ),
            Node::Other => (0, None),
        }
    }
}

pub open spec fn nodes_view(nodes: Seq<Node>) -> Seq<NodeView> {
    nodes.map_values(|n: Node| n.view())
}

/// The top-level blocks of a parsed document.
#[derive(Clone, Debug)]
pub struct Root {
    pub children: Vec<Node>,
}

/// What markdown's parser makes of a text, block by block.
pub uninterp spec fn markdown_blocks(s: Seq<char>) -> Option<Seq<NodeView>>;

/// Relies on markdown's `to_mdast` with default options, which yields a root
/// node; each of its children is kept as its heading depth and first text.
#[verifier::external_body]
fn top_level_blocks(s: &str) -> (r: Option<Vec<Node>>)
    ensures
        r matches Some(v) ==> markdown_blocks(s@) == Some(nodes_view(v@)),
        r is None <==> markdown_blocks(s@) is None,
{
    match markdown::to_mdast(s, &markdown::ParseOptions::default()) {
        Ok(mdast::Node::Root(root)) => Some(root.children.iter().map(|n| match n {
            mdast::Node::Heading(h) => Node::Heading { depth: h.depth, text: match h.children.first() {
                Some(mdast::Node::Text(t)) => Some(t.value.clone()),
                _ => None,
            } },
            _ => Node::Other,
        }).collect()),
        _ => None,
    }
}

/// Parses a markdown document into its top-level blocks.
pub fn parse_markdown(s: &str) -> (r: Option<Root>)
    ensures
        r matches Some(root) ==> markdown_blocks(s@) == Some(nodes_view(root.children@)),
        r is None <==> markdown_blocks(s@) is None,
{
    match top_level_blocks(s) {
        Some(children) => Some(Root { children }),
        None => None,
    }
}

#[derive(Clone, Copy, Debug, PartialEq, Eq, Structural)]
pub struct DayHeader {
    pub date: Date,
}

#[derive(Clone, Copy, Debug, PartialEq, Eq, Structural)]
pub struct TimeHeader {
    pub time: Time,
}

#[derive(Clone, Debug, PartialEq, Eq)]
pub struct KindHeader {
    pub path: Vec<String>,
}

/// A heading of the log, classified.
#[derive(Clone, Debug)]
pub enum LogNode {
    DayHeader(DayHeader),
    TimeHeader(TimeHeader),
    KindHeader(KindHeader),
}

/// An event of the log as a mathematical value.
pub enum Event {
    Day(Date),
    Time(Time),
    Category(Seq<Seq<char>>),
}

impl LogNode {
    pub open spec fn view(&self) -> Event {
        match self {
            LogNode::DayHeader(h) => Event::Day(h.date),
            LogNode::TimeHeader(h) => Event::Time(h.time),
            LogNode::KindHeader(h) => Event::Category(h.path.deep_view()),
        }
    }

    /// Dates and times lie in the ranges that chrono gives them.
    pub open spec fn wf(&self) -> bool {
        match self {
            LogNode::DayHeader(h) => h.date.wf(),
            LogNode::TimeHeader(h) => h.time.wf(),
            LogNode::KindHeader(_) => true,
        }
    }
}

pub open spec fn events_view(nodes: Seq<LogNode>) -> Seq<Event> {
    nodes.map_values(|n: LogNode| n.view())
}

/// The separator between the segments of a category path.
pub open spec fn path_sep() -> Seq<char> {
    seq![' ', '/', ' ']
}

/// A category path: at least one segment, and no segment empty.
pub open spec fn segments_nonempty(p: Seq<Seq<char>>) -> bool {
    p.len() > 0 && forall|i: int| 0 <= i < p.len() ==> (#[trigger] p[i]).len() > 0
}

/// The text of a heading of the given depth whose first child is text.
pub open spec fn heading_text(n: NodeView, depth: int) -> Option<Seq<char>> {
    if n.0 == depth {
        n.1
    } else {
        None
    }
}

/// How a block classifies: a depth-1 date is a day, a depth-2 `HH:MM` a time,
/// a depth-3 text whose ` / `-separated segments are all non-empty a category
/// path; the first that applies wins.
pub open spec fn classify(n: NodeView) -> Option<Event> {
    if heading_text(n, 1) is Some && date_of_text(heading_text(n, 1)->Some_0) is Some {
        Some(Event::Day(Date { days: date_of_text(heading_text(n, 1)->Some_0)->Some_0 }))
    } else if heading_text(n, 2) is Some && time_of_text(heading_text(n, 2)->Some_0) is Some {
        Some(Event::Time(Time { secs: time_of_text(heading_text(n, 2)->Some_0)->Some_0 }))
    } else if heading_text(n, 3) is Some && segments_nonempty(
        split(heading_text(n, 3)->Some_0, path_sep()),
    ) {
        Some(Event::Category(split(heading_text(n, 3)->Some_0, path_sep())))
    } else {
        None
    }
}

/// The events of a sequence of blocks, in order, skipping the blocks that
/// are no event.
pub open spec fn log_events(nodes: Seq<NodeView>) -> Seq<Event>
    decreases nodes.len(),
{
    if nodes.len() == 0 {
        Seq::empty()
    } else {
        log_events(nodes.drop_last()) + match classify(nodes.last()) {
            Some(e) => seq![e],
            None => Seq::empty(),
        }
    }
}

impl Node {
    pub fn get_first_text_value_of_header_of_depth(&self, header_depth: u8) -> (r: Option<String>)
        ensures
            match r {
                Some(t) => heading_text(self.view(), header_depth as int) == Some(t@),
                None => heading_text(self.view(), header_depth as int) is None,
            },
    {
        match self {
            Node::Heading { depth, text } => {
                if *depth == header_depth {
                    match text {
                        Some(t) => Some(t.clone()),
                        None => None,
                    }
                } else {
                    None
                }
            },
            Node::Other => None,
        }
    }

    pub fn to_day_header(&self) -> (r: Option<DayHeader>)
        ensures
            match r {
                Some(h) => h.date.wf() && heading_text(self.view(), 1) is Some && date_of_text(
                    heading_text(self.view(), 1)->Some_0,
                ) == Some(h.date.days),
                None => heading_text(self.view(), 1) is None || date_of_text(
                    heading_text(self.view(), 1)->Some_0,
                ) is None,
            },
    {
        match self.get_first_text_value_of_header_of_depth(1) {
            Some(t) => match Date::parse(t.as_str()) {
                Some(date) => Some(DayHeader { date }),
                None => None,
            },
            None => None,
        }
    }

    pub fn to_time_header(&self) -> (r: Option<TimeHeader>)
        ensures
            match r {
                Some(h) => h.time.wf() && heading_text(self.view(), 2) is Some && time_of_text(
                    heading_text(self.view(), 2)->Some_0,
                ) == Some(h.time.secs),
                None => heading_text(self.view(), 2) is None || time_of_text(
                    heading_text(self.view(), 2)->Some_0,
                ) is None,
            },
    {
        match self.get_first_text_value_of_header_of_depth(2) {
            Some(t) => match Time::parse(t.as_str()) {
                Some(time) => Some(TimeHeader { time }),
                None => None,
            },
            None => None,
        }
    }

    pub fn to_kind_header(&self) -> (r: Option<KindHeader>)
        ensures
            match r {
                Some(h) => heading_text(self.view(), 3) is Some && h.path.deep_view() == split(
                    heading_text(self.view(), 3)->Some_0,
                    path_sep(),
                ) && segments_nonempty(h.path.deep_view()),
                None => heading_text(self.view(), 3) is None || !segments_nonempty(
                    split(heading_text(self.view(), 3)->Some_0, path_sep()),
                ),
            },
    {
        match self.get_first_text_value_of_header_of_depth(3) {
            Some(t) => {
                proof {
                    reveal_strlit(" / ");
                    assert(" / "@ =~= path_sep());
                }
                let path = split_text(t.as_str(), " / ");
                let mut i: usize = 0;
                while i < path.len()
                    invariant
                        i <= path.len(),
                        path.deep_view() == split(t@, path_sep()),
                        heading_text(self.view(), 3) == Some(t@),
                        forall|j: int| 0 <= j < i ==> (#[trigger] path.deep_view()[j]).len() > 0,
                    decreases path.len() - i,
                {
                    if path[i].as_str().unicode_len() == 0 {
                        assert(path.deep_view()[i as int].len() == 0);
                        return None;
                    }
                    i = i + 1;
                }
                assert(path.deep_view().len() > 0);
                Some(KindHeader { path })
            },
            None => None,
        }
    }

    pub fn to_log_node(&self) -> (r: Option<LogNode>)
        ensures
            match r {
                Some(e) => e.wf() && classify(self.view()) == Some(e.view()),
                None => classify(self.view()) is None,
            },
    {
        match self.to_day_header() {
            Some(h) => Some(LogNode::DayHeader(h)),
            None => match self.to_time_header() {
                Some(h) => Some(LogNode::TimeHeader(h)),
                None => match self.to_kind_header() {
                    Some(h) => Some(LogNode::KindHeader(h)),
                    None => None,
                },
            },
        }
    }
}

/// The events of a document's top-level blocks, in order.
pub fn parse_log_nodes(md: &Root) -> (r: Vec<LogNode>)
    ensures
        events_view(r@) == log_events(nodes_view(md.children@)),
        forall|i: int| 0 <= i < r.len() ==> (#[trigger] r[i]).wf(),
{
    let mut r: Vec<LogNode> = Vec::new();
    let mut k: usize = 0;
    while k < md.children.len()
        invariant
            k <= md.children.len(),
            events_view(r@) == log_events(nodes_view(md.children@.subrange(0, k as int))),
            forall|i: int| 0 <= i < r.len() ==> (#[trigger] r[i]).wf(),
        decreases md.children.len() - k,
    {
        let ghost before = r@;
        let e = md.children[k].to_log_node();
        proof {
            let pre = nodes_view(md.children@.subrange(0, k + 1));
            assert(pre.drop_last() =~= nodes_view(md.children@.subrange(0, k as int)));
            assert(pre.last() == md.children@[k as int].view());
        }
        match e {
            Some(n) => {
                r.push(n);
                assert(events_view(r@) =~= events_view(before) + seq![n.view()]);
            },
            None => {
                assert(events_view(r@) =~= events_view(before) + Seq::<Event>::empty());
            },
        }
        k = k + 1;
    }
    assert(md.children@.subrange(0, md.children.len() as int) =~= md.children@);
    r
}

} // verus!
