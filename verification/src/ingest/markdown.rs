//! Markdown files turned into a heading tree: a section node per heading
//! (nested under the nearest shallower heading), and chunk nodes for the
//! paragraphs and code blocks under each.
//!
//! The parse is `pulldown_cmark`'s; the tree is built by a state machine over
//! its events, stated here as `md_step`.
use vstd::prelude::*;
use pulldown_cmark::{Event, Tag, TagEnd};
use crate::graph::{
    chunk_name, chunk_node, code_chunk_name, document_node, edge_views, make_chunk_node,
    make_document_node, no_props, node_views, numbered_name, plain, plain_edge, ContentKind,
    ContentType, Edge, EdgeKind, EdgeModel, EdgeProperties, Node, NodeKind, NodeModel,
    NodeProperties, PropsModel,
};
use crate::ingest::{file_name_of, path_file_name};
use crate::text::{
    chars_of, concat, has_prefix, lines, lines_of, starts_with, string_of, trim, trim_chars,
    views,
};

verus! {

broadcast use vstd::string::group_string_axioms;

/// The events of the markdown parse that the tree is built from.
pub enum MdEvent {
    /// A heading of the given level (1 to 6) begins.
    HeadingStart(u32),
    HeadingEnd,
    CodeBlockStart,
    CodeBlockEnd,
    Text(String),
    /// A soft or hard line break.
    LineBreak,
    ParagraphEnd,
    /// A link to the given destination begins.
    LinkStart(String),
    /// Any other event.
    Other,
}

/// The mathematical value of a markdown event.
pub ghost enum MdEv {
    HeadingStart(u32),
    HeadingEnd,
    CodeBlockStart,
    CodeBlockEnd,
    Text(Seq<char>),
    LineBreak,
    ParagraphEnd,
    LinkStart(Seq<char>),
    Other,
}

impl View for MdEvent {
    type V = MdEv;

    open spec fn view(&self) -> MdEv {
        match self {
            MdEvent::HeadingStart(l) => MdEv::HeadingStart(*l),
            MdEvent::HeadingEnd => MdEv::HeadingEnd,
            MdEvent::CodeBlockStart => MdEv::CodeBlockStart,
            MdEvent::CodeBlockEnd => MdEv::CodeBlockEnd,
            MdEvent::Text(t) => MdEv::Text(t@),
            MdEvent::LineBreak => MdEv::LineBreak,
            MdEvent::ParagraphEnd => MdEv::ParagraphEnd,
            MdEvent::LinkStart(u) => MdEv::LinkStart(u@),
            MdEvent::Other => MdEv::Other,
        }
    }
}

/// The views of a list of events.
pub open spec fn md_event_views(v: Seq<MdEvent>) -> Seq<MdEv> {
    v.map_values(|e: MdEvent| e@)
}

/// The event stream `pulldown_cmark::Parser::new` yields for a text, as
/// `MdEvent`s.
pub uninterp spec fn markdown_event_stream(content: Seq<char>) -> Seq<MdEv>;

/// Runs `pulldown_cmark::Parser::new` (default options) over `content` and
/// converts each event to an `MdEvent`, one for one. Trusted: the result is
/// the named `markdown_event_stream` of the text, and a heading's level is
/// the number of its `HeadingLevel` (1 to 6).
#[verifier::external_body]
fn parse_markdown(content: &str) -> (r: Vec<MdEvent>)
    ensures
        md_event_views(r@) == markdown_event_stream(content@),
        forall|i: int| 0 <= i < r.len() ==> (#[trigger] r@[i]@ matches MdEv::HeadingStart(l) ==> 1 <= l <= 6),
{
    pulldown_cmark::Parser::new(content).map(|e| match e {
        Event::Start(Tag::Heading { level, .. }) => MdEvent::HeadingStart(level as u32),
        Event::End(TagEnd::Heading(_)) => MdEvent::HeadingEnd,
        Event::Start(Tag::CodeBlock(_)) => MdEvent::CodeBlockStart,
        Event::End(TagEnd::CodeBlock) => MdEvent::CodeBlockEnd,
        Event::Text(t) => MdEvent::Text(t.to_string()),
        Event::SoftBreak | Event::HardBreak => MdEvent::LineBreak,
        Event::End(TagEnd::Paragraph) => MdEvent::ParagraphEnd,
        Event::Start(Tag::Link { dest_url, .. }) => MdEvent::LinkStart(dest_url.to_string()),
        _ => MdEvent::Other,
    }).collect()
}

// ───────────────────────── the title ─────────────────────────

/// The title of a markdown text: the rest of the first line that, trimmed,
/// starts with `"# "`, trimmed; `None` where no line does.
pub open spec fn title_from(ls: Seq<Seq<char>>, i: int) -> Option<Seq<char>>
    decreases ls.len() - i,
{
    if i < 0 || i >= ls.len() {
        None
    } else if starts_with(trim(ls[i]), "# "@) {
        Some(trim(trim(ls[i]).skip(2)))
    } else {
        title_from(ls, i + 1)
    }
}

/// The title of a markdown text.
pub open spec fn markdown_title(content: Seq<char>) -> Option<Seq<char>> {
    title_from(lines(content), 0)
}

/// The title of a markdown text: its first `# ` heading line.
pub fn extract_title(content: &str) -> (r: Option<String>)
    ensures
        opt_view(r) == markdown_title(content@),
{
    let cs = chars_of(content);
    let ls = lines_of(&cs);
    let mut hash: Vec<char> = Vec::new();
    hash.push('#');
    hash.push(' ');
    proof {
        reveal_strlit("# ");
        assert(hash@ =~= "# "@);
    }
    let mut i: usize = 0;
    while i < ls.len()
        invariant
            i <= ls.len(),
            hash@ == "# "@,
            hash@.len() == 2,
            views(ls@) == lines(content@),
            markdown_title(content@) == title_from(views(ls@), i as int),
        decreases ls.len() - i,
    {
        proof {
            assert(views(ls@)[i as int] == ls@[i as int]@);
        }
        let t = trim_chars(&ls[i]);
        if has_prefix(&t, &hash) {
            let rest = crate::text::slice_chars(&t, 2, t.len());
            proof {
                assert(rest@ =~= t@.skip(2));
            }
            return Some(string_of(&trim_chars(&rest)));
        }
        i += 1;
    }
    None
}

/// The text of an optional string.
pub open spec fn opt_view(o: Option<String>) -> Option<Seq<char>> {
    match o {
        Some(s) => Some(s@),
        None => None,
    }
}

// ───────────────────────── the state machine ─────────────────────────

/// The state of the tree builder between events.
pub ghost struct MdState {
    pub nodes: Seq<NodeModel>,
    pub edges: Seq<EdgeModel>,
    /// The next free node id.
    pub next: int,
    /// The open headings, outermost first: (section id, level).
    pub stack: Seq<(u64, u32)>,
    pub heading: Seq<char>,
    pub level: u32,
    pub in_heading: bool,
    pub chunk: Seq<char>,
    pub in_code: bool,
    pub code: Seq<char>,
    /// The last section seen at each level (index 0 unused).
    pub last_at_depth: Seq<Option<u64>>,
    /// The current line (1-based), counted from the newlines seen.
    pub line: int,
}

/// The state before the first event.
pub open spec fn md_start(doc_id: u64) -> MdState {
    MdState {
        nodes: Seq::empty(),
        edges: Seq::empty(),
        next: doc_id + 1,
        stack: Seq::empty(),
        heading: Seq::empty(),
        level: 0,
        in_heading: false,
        chunk: Seq::empty(),
        in_code: false,
        code: Seq::empty(),
        last_at_depth: Seq::new(7, |i: int| None),
        line: 1,
    }
}

/// The node that new content belongs under: the innermost open heading, or
/// the document.
pub open spec fn md_parent(st: MdState, doc_id: u64) -> u64 {
    if st.stack.len() > 0 {
        st.stack.last().0
    } else {
        doc_id
    }
}

/// The pending prose, trimmed, becomes a chunk under the current parent when
/// it is not blank (a blank buffer is kept as it is).
pub open spec fn md_flush(st: MdState, doc_id: u64) -> MdState {
    let t = trim(st.chunk);
    if t.len() > 0 {
        let id = st.next as u64;
        let parent = md_parent(st, doc_id);
        MdState {
            nodes: st.nodes.push(chunk_node(id, chunk_name(id), t, parent)),
            edges: st.edges.push(plain(parent, id, EdgeKind::Contains)),
            next: st.next + 1,
            chunk: Seq::empty(),
            ..st
        }
    } else {
        st
    }
}

/// The open headings without those at `level` or deeper.
pub open spec fn pop_to(stack: Seq<(u64, u32)>, level: u32) -> Seq<(u64, u32)>
    decreases stack.len(),
{
    if stack.len() > 0 && stack.last().1 >= level {
        pop_to(stack.drop_last(), level)
    } else {
        stack
    }
}

/// The number of newlines in a text.
pub open spec fn newline_count(s: Seq<char>) -> nat
    decreases s.len(),
{
    if s.len() == 0 {
        0
    } else {
        newline_count(s.drop_last()) + if s.last() == '\n' {
            1nat
        } else {
            0nat
        }
    }
}

/// A link target that is kept in the text: not a web address or an anchor.
pub open spec fn is_local_link(url: Seq<char>) -> bool {
    !starts_with(url, "http://"@) && !starts_with(url, "https://"@) && !starts_with(url, "#"@)
}

/// The section node a finished heading becomes.
pub open spec fn heading_node(id: u64, text: Seq<char>, level: u32, line: int) -> NodeModel {
    NodeModel {
        id,
        kind: NodeKind::Section,
        name: text,
        props: PropsModel {
            depth: Some(level),
            section_kind: Some("heading"@),
            title: Some(text),
            text: Some(text),
            start_line: Some(line as u32),
            ..no_props()
        },
    }
}

/// A `Follows` edge between consecutive sections at one level, with the level
/// as its order.
pub open spec fn level_follows(from: u64, to: u64, level: int) -> EdgeModel {
    EdgeModel {
        from,
        to,
        kind: EdgeKind::Follows,
        weight: 1,
        ref_type: None,
        count: None,
        order: Some(level as u32),
    }
}

/// The state after a heading ends.
pub open spec fn md_heading_end(st: MdState, doc_id: u64) -> MdState {
    let sid = st.next as u64;
    let stack = pop_to(st.stack, st.level);
    let parent = if stack.len() > 0 {
        stack.last().0
    } else {
        doc_id
    };
    let t = trim(st.heading);
    let d = st.level as int;
    let edges = st.edges.push(plain(parent, sid, EdgeKind::Contains));
    let (edges, last) = if d < 7 {
        (
            match st.last_at_depth[d] {
                Some(prev) => edges.push(level_follows(prev, sid, d)),
                None => edges,
            },
            st.last_at_depth.update(d, Some(sid)),
        )
    } else {
        (edges, st.last_at_depth)
    };
    MdState {
        nodes: st.nodes.push(heading_node(sid, t, st.level, st.line)),
        edges,
        next: st.next + 1,
        stack: stack.push((sid, st.level)),
        in_heading: false,
        last_at_depth: last,
        ..st
    }
}

/// The state after a code block ends: its text, trimmed, becomes a code
/// chunk when it is not blank.
pub open spec fn md_code_end(st: MdState, doc_id: u64) -> MdState {
    let t = trim(st.code);
    let st2 = MdState { in_code: false, code: Seq::empty(), ..st };
    if t.len() > 0 {
        let id = st.next as u64;
        let parent = md_parent(st, doc_id);
        let node = NodeModel {
            id,
            kind: NodeKind::Chunk,
            name: code_chunk_name(id),
            props: PropsModel {
                text: Some(t),
                parent_section_id: Some(parent),
                section_kind: Some("code"@),
                ..no_props()
            },
        };
        MdState {
            nodes: st.nodes.push(node),
            edges: st.edges.push(plain(parent, id, EdgeKind::Contains)),
            next: st.next + 1,
            ..st2
        }
    } else {
        st2
    }
}

/// One step of the tree builder.
pub open spec fn md_step(st: MdState, ev: MdEv, doc_id: u64) -> MdState {
    match ev {
        MdEv::HeadingStart(l) => MdState {
            in_heading: true,
            heading: Seq::empty(),
            level: l,
            ..md_flush(st, doc_id)
        },
        MdEv::HeadingEnd => md_heading_end(st, doc_id),
        MdEv::CodeBlockStart => MdState { in_code: true, code: Seq::empty(), ..st },
        MdEv::CodeBlockEnd => md_code_end(st, doc_id),
        MdEv::Text(t) => {
            let line = st.line + newline_count(t);
            if st.in_heading {
                MdState { heading: st.heading + t, line, ..st }
            } else if st.in_code {
                MdState { code: st.code + t, line, ..st }
            } else {
                MdState { chunk: st.chunk + t, line, ..st }
            }
        },
        MdEv::LineBreak => MdState {
            chunk: if st.in_heading {
                st.chunk
            } else {
                st.chunk.push('\n')
            },
            line: st.line + 1,
            ..st
        },
        MdEv::ParagraphEnd => md_flush(st, doc_id),
        MdEv::LinkStart(url) => if is_local_link(url) {
            MdState { chunk: st.chunk + "[link:"@ + url + "]"@, ..st }
        } else {
            st
        },
        MdEv::Other => st,
    }
}

/// The state after the first `k` events.
pub open spec fn md_run(evs: Seq<MdEv>, doc_id: u64, k: int) -> MdState
    decreases k,
{
    if k <= 0 {
        md_start(doc_id)
    } else {
        md_step(md_run(evs, doc_id, k - 1), evs[k - 1], doc_id)
    }
}

/// The state after all events and the final flush of pending prose.
pub open spec fn md_final(evs: Seq<MdEv>, doc_id: u64) -> MdState {
    md_flush(md_run(evs, doc_id, evs.len() as int), doc_id)
}

/// The events can be run without the id or line counters overflowing.
pub open spec fn md_fits(evs: Seq<MdEv>, doc_id: u64) -> bool {
    &&& md_final(evs, doc_id).next <= u64::MAX
    &&& md_final(evs, doc_id).line <= u32::MAX
}

/// The nodes of a markdown file: the document, then the sections and chunks
/// in the order their events end.
pub open spec fn markdown_nodes(
    name: Seq<char>,
    path: Seq<char>,
    content: Seq<char>,
    evs: Seq<MdEv>,
    doc_id: u64,
) -> Seq<NodeModel> {
    seq![
        document_node(doc_id, name, path, ContentKind::Markdown, markdown_title(content), content),
    ] + md_final(evs, doc_id).nodes
}

proof fn lemma_md_bounded(evs: Seq<MdEv>, doc_id: u64, j: int)
    requires
        0 <= j <= evs.len(),
    ensures
        md_run(evs, doc_id, j).next <= md_final(evs, doc_id).next,
        md_run(evs, doc_id, j).line <= md_final(evs, doc_id).line,
    decreases evs.len() - j,
{
    if j < evs.len() {
        lemma_md_bounded(evs, doc_id, j + 1);
    }
}

// ───────────────────────── the executable builder ─────────────────────────

/// The builder's state.
pub struct MdScan {
    pub nodes: Vec<Node>,
    pub edges: Vec<Edge>,
    pub next: u64,
    pub stack: Vec<(u64, u32)>,
    pub heading: Vec<char>,
    pub level: u32,
    pub in_heading: bool,
    pub chunk: Vec<char>,
    pub in_code: bool,
    pub code: Vec<char>,
    pub last_at_depth: Vec<Option<u64>>,
    pub line: u32,
}

impl View for MdScan {
    type V = MdState;

    open spec fn view(&self) -> MdState {
        MdState {
            nodes: node_views(self.nodes@),
            edges: edge_views(self.edges@),
            next: self.next as int,
            stack: self.stack@,
            heading: self.heading@,
            level: self.level,
            in_heading: self.in_heading,
            chunk: self.chunk@,
            in_code: self.in_code,
            code: self.code@,
            last_at_depth: self.last_at_depth@,
            line: self.line as int,
        }
    }
}

fn scan_parent(st: &MdScan, doc_id: u64) -> (r: u64)
    ensures
        r == md_parent(st@, doc_id),
{
    if st.stack.len() > 0 {
        st.stack[st.stack.len() - 1].0
    } else {
        doc_id
    }
}

fn scan_flush(st: &mut MdScan, doc_id: u64)
    requires
        md_flush(old(st)@, doc_id).next <= u64::MAX,
    ensures
        final(st)@ == md_flush(old(st)@, doc_id),
{
    let t = trim_chars(&st.chunk);
    if t.len() > 0 {
        let id = st.next;
        let parent = scan_parent(st, doc_id);
        let ghost before = st@;
        st.nodes.push(make_chunk_node(id, numbered_name("chunk_", id), string_of(&t), parent));
        st.edges.push(plain_edge(parent, id, EdgeKind::Contains));
        st.next = id + 1;
        st.chunk = Vec::new();
        proof {
            assert(st@.nodes =~= before.nodes.push(chunk_node(id, chunk_name(id), t@, parent)));
            assert(st@.edges =~= before.edges.push(plain(parent, id, EdgeKind::Contains)));
            assert(st@ =~= md_flush(before, doc_id));
        }
    }
}

fn count_newlines(s: &Vec<char>) -> (r: u64)
    requires
        s.len() <= u64::MAX,
    ensures
        r == newline_count(s@),
{
    let mut n: u64 = 0;
    let mut i: usize = 0;
    while i < s.len()
        invariant
            i <= s.len() <= u64::MAX,
            n == newline_count(s@.take(i as int)),
            n <= i,
        decreases s.len() - i,
    {
        proof {
            assert(s@.take(i + 1).drop_last() =~= s@.take(i as int));
        }
        if s[i] == '\n' {
            n = n + 1;
        }
        i += 1;
    }
    proof {
        assert(s@.take(s.len() as int) =~= s@);
    }
    n
}

fn pop_stack(stack: &mut Vec<(u64, u32)>, level: u32)
    ensures
        final(stack)@ == pop_to(old(stack)@, level),
{
    while stack.len() > 0 && stack[stack.len() - 1].1 >= level
        invariant
            pop_to(stack@, level) == pop_to(old(stack)@, level),
        decreases stack.len(),
    {
        stack.pop();
    }
}

fn make_heading_node(id: u64, text: &Vec<char>, level: u32, line: u32) -> (r: Node)
    ensures
        r@ == heading_node(id, text@, level, line as int),
{
    let mut props = NodeProperties::empty();
    props.depth = Some(level);
    props.section_kind = Some("heading".to_string());
    props.title = Some(string_of(text));
    props.text = Some(string_of(text));
    props.start_line = Some(line);
    Node { id, kind: NodeKind::Section, name: string_of(text), properties: props }
}

fn scan_heading_end(st: &mut MdScan, doc_id: u64)
    requires
        old(st).last_at_depth.len() == 7,
        old(st).next < u64::MAX,
    ensures
        final(st)@ == md_heading_end(old(st)@, doc_id),
        final(st).last_at_depth.len() == 7,
{
    let ghost before = st@;
    let sid = st.next;
    pop_stack(&mut st.stack, st.level);
    let parent = if st.stack.len() > 0 {
        st.stack[st.stack.len() - 1].0
    } else {
        doc_id
    };
    let t = trim_chars(&st.heading);
    let level = st.level;
    st.nodes.push(make_heading_node(sid, &t, level, st.line));
    st.edges.push(plain_edge(parent, sid, EdgeKind::Contains));
    let ghost edges1 = edge_views(st.edges@);
    if level < 7 {
        let d = level as usize;
        match st.last_at_depth[d] {
            Some(prev) => {
                let mut props = EdgeProperties::empty();
                props.order = Some(level);
                st.edges.push(Edge { from: prev, to: sid, kind: EdgeKind::Follows, weight: 1, properties: props });
                proof {
                    assert(edge_views(st.edges@) =~= edges1.push(level_follows(prev, sid, d as int)));
                }
            },
            None => {},
        }
        st.last_at_depth.set(d, Some(sid));
    }
    st.stack.push((sid, level));
    st.next = sid + 1;
    st.in_heading = false;
    proof {
        assert(node_views(st.nodes@) =~= before.nodes.push(heading_node(sid, t@, level, before.line)));
        assert(edges1 =~= before.edges.push(plain(parent, sid, EdgeKind::Contains)));
        assert(st@ =~= md_heading_end(before, doc_id));
    }
}

fn scan_code_end(st: &mut MdScan, doc_id: u64)
    requires
        md_code_end(old(st)@, doc_id).next <= u64::MAX,
    ensures
        final(st)@ == md_code_end(old(st)@, doc_id),
        final(st).last_at_depth == old(st).last_at_depth,
{
    let ghost before = st@;
    let t = trim_chars(&st.code);
    if t.len() > 0 {
        let id = st.next;
        let parent = scan_parent(st, doc_id);
        let mut props = NodeProperties::empty();
        props.text = Some(string_of(&t));
        props.parent_section_id = Some(parent);
        props.section_kind = Some("code".to_string());
        let node = Node { id, kind: NodeKind::Chunk, name: numbered_name("code_chunk_", id), properties: props };
        let ghost nm = node@;
        st.nodes.push(node);
        st.edges.push(plain_edge(parent, id, EdgeKind::Contains));
        st.next = id + 1;
        proof {
            assert(st@.nodes =~= before.nodes.push(nm));
            assert(st@.edges =~= before.edges.push(plain(parent, id, EdgeKind::Contains)));
        }
    }
    st.in_code = false;
    st.code = Vec::new();
    proof {
        assert(st@ =~= md_code_end(before, doc_id));
    }
}

/// Whether a link target is kept in the text.
fn local_link(url: &Vec<char>) -> (r: bool)
    ensures
        r == is_local_link(url@),
{
    !has_prefix(url, &chars_of("http://")) && !has_prefix(url, &chars_of("https://"))
        && !has_prefix(url, &chars_of("#"))
}

fn scan_step(st: &mut MdScan, ev: &MdEvent, doc_id: u64)
    requires
        old(st).last_at_depth.len() == 7,
        md_step(old(st)@, ev@, doc_id).next <= u64::MAX,
        md_step(old(st)@, ev@, doc_id).line <= u32::MAX,
    ensures
        final(st)@ == md_step(old(st)@, ev@, doc_id),
        final(st).last_at_depth.len() == 7,
{
    let ghost before = st@;
    match ev {
        MdEvent::HeadingStart(l) => {
            scan_flush(st, doc_id);
            st.in_heading = true;
            st.heading = Vec::new();
            st.level = *l;
            proof {
                assert(st@ =~= md_step(before, ev@, doc_id));
            }
        },
        MdEvent::HeadingEnd => {
            scan_heading_end(st, doc_id);
        },
        MdEvent::CodeBlockStart => {
            st.in_code = true;
            st.code = Vec::new();
            proof {
                assert(st@ =~= md_step(before, ev@, doc_id));
            }
        },
        MdEvent::CodeBlockEnd => {
            scan_code_end(st, doc_id);
        },
        MdEvent::Text(t) => {
            let tc = chars_of(t.as_str());
            let n = count_newlines(&tc);
            st.line = (st.line as u64 + n) as u32;
            if st.in_heading {
                st.heading = concat(&st.heading, &tc);
            } else if st.in_code {
                st.code = concat(&st.code, &tc);
            } else {
                st.chunk = concat(&st.chunk, &tc);
            }
            proof {
                assert(st@ =~= md_step(before, ev@, doc_id));
            }
        },
        MdEvent::LineBreak => {
            if !st.in_heading {
                st.chunk.push('\n');
            }
            st.line = st.line + 1;
            proof {
                assert(st@ =~= md_step(before, ev@, doc_id));
            }
        },
        MdEvent::ParagraphEnd => {
            scan_flush(st, doc_id);
        },
        MdEvent::LinkStart(u) => {
            let uc = chars_of(u.as_str());
            if local_link(&uc) {
                let c1 = concat(&st.chunk, &chars_of("[link:"));
                let c2 = concat(&c1, &uc);
                st.chunk = concat(&c2, &chars_of("]"));
            }
            proof {
                assert(st@ =~= md_step(before, ev@, doc_id));
            }
        },
        MdEvent::Other => {},
    }
}

/// Whether an event takes a node id in the given state.
pub open spec fn md_takes_id(st: MdState, ev: MdEv) -> bool {
    match ev {
        MdEv::HeadingStart(_) => trim(st.chunk).len() > 0,
        MdEv::HeadingEnd => true,
        MdEv::CodeBlockEnd => trim(st.code).len() > 0,
        MdEv::ParagraphEnd => trim(st.chunk).len() > 0,
        _ => false,
    }
}

/// The number of lines an event advances the counter by.
pub open spec fn md_line_delta(ev: MdEv) -> nat {
    match ev {
        MdEv::Text(t) => newline_count(t),
        MdEv::LineBreak => 1,
        _ => 0,
    }
}

fn takes_id(st: &MdScan, ev: &MdEvent) -> (r: bool)
    ensures
        r == md_takes_id(st@, ev@),
{
    match ev {
        MdEvent::HeadingStart(_) => trim_chars(&st.chunk).len() > 0,
        MdEvent::HeadingEnd => true,
        MdEvent::CodeBlockEnd => trim_chars(&st.code).len() > 0,
        MdEvent::ParagraphEnd => trim_chars(&st.chunk).len() > 0,
        _ => false,
    }
}

fn line_delta(ev: &MdEvent) -> (r: u64)
    ensures
        r == md_line_delta(ev@),
{
    match ev {
        MdEvent::Text(t) => {
            let tc = chars_of(t.as_str());
            count_newlines(&tc)
        },
        MdEvent::LineBreak => 1,
        _ => 0,
    }
}

/// Builds the sections and chunks of a markdown file from its parse events;
/// the document node comes first, and ids are taken from `next_id` on.
/// `None` (with `next_id` unchanged) where the id or line counter would
/// overflow.
pub fn extract_from_events(
    path: &str,
    content: &str,
    events: &Vec<MdEvent>,
    next_id: &mut u64,
) -> (r: Option<(Vec<Node>, Vec<Edge>)>)
    ensures
        match r {
            Some((nodes, edges)) => {
                &&& md_fits(md_event_views(events@), *old(next_id))
                &&& node_views(nodes@) == markdown_nodes(
                    path_file_name(path@),
                    path@,
                    content@,
                    md_event_views(events@),
                    *old(next_id),
                )
                &&& edge_views(edges@) == md_final(md_event_views(events@), *old(next_id)).edges
                &&& *final(next_id) == md_final(md_event_views(events@), *old(next_id)).next
            },
            None => !md_fits(md_event_views(events@), *old(next_id)) && *final(next_id) == *old(
                next_id,
            ),
        },
{
    let doc_id = *next_id;
    let ghost evs = md_event_views(events@);
    if doc_id == u64::MAX {
        proof {
            lemma_md_bounded(evs, doc_id, 0);
        }
        return None;
    }
    let mut last: Vec<Option<u64>> = Vec::new();
    let mut k: usize = 0;
    while k < 7
        invariant
            k <= 7,
            last@ == Seq::new(k as nat, |i: int| None::<u64>),
        decreases 7 - k,
    {
        last.push(None);
        proof {
            assert(last@ =~= Seq::new((k + 1) as nat, |i: int| None::<u64>));
        }
        k += 1;
    }
    let mut st = MdScan {
        nodes: Vec::new(),
        edges: Vec::new(),
        next: doc_id + 1,
        stack: Vec::new(),
        heading: Vec::new(),
        level: 0,
        in_heading: false,
        chunk: Vec::new(),
        in_code: false,
        code: Vec::new(),
        last_at_depth: last,
        line: 1,
    };
    proof {
        assert(node_views(st.nodes@) =~= Seq::<NodeModel>::empty());
        assert(edge_views(st.edges@) =~= Seq::<EdgeModel>::empty());
        assert(st@ =~= md_run(evs, doc_id, 0));
    }
    let mut i: usize = 0;
    while i < events.len()
        invariant
            evs == md_event_views(events@),
            i <= events.len(),
            st@ == md_run(evs, doc_id, i as int),
            st.last_at_depth.len() == 7,
            *next_id == doc_id,
        decreases events.len() - i,
    {
        proof {
            assert(evs[i as int] == events@[i as int]@);
            lemma_md_bounded(evs, doc_id, i + 1);
        }
        let need = takes_id(&st, &events[i]);
        let dl = line_delta(&events[i]);
        if (need && st.next == u64::MAX) || dl > (u32::MAX - st.line) as u64 {
            return None;
        }
        scan_step(&mut st, &events[i], doc_id);
        i += 1;
    }
    if trim_chars(&st.chunk).len() > 0 && st.next == u64::MAX {
        return None;
    }
    scan_flush(&mut st, doc_id);
    let file_name = file_name_of(path);
    let title = extract_title(content);
    let doc = make_document_node(doc_id, file_name, path, ContentType::Markdown, title, content);
    let mut nodes: Vec<Node> = Vec::new();
    nodes.push(doc);
    let mut rest = st.nodes;
    nodes.append(&mut rest);
    *next_id = st.next;
    proof {
        assert(node_views(nodes@) =~= markdown_nodes(path_file_name(path@), path@, content@, evs, doc_id));
    }
    Some((nodes, st.edges))
}

/// Extracts a markdown file into a document node and its heading tree of
/// sections and chunks (see `extract_from_events`), from the events of its
/// parse. `None` (with `next_id` unchanged) where the id or line counter
/// would overflow.
pub fn extract(path: &str, content: &str, next_id: &mut u64) -> (r: Option<(Vec<Node>, Vec<Edge>)>)
    ensures
        match r {
            Some((nodes, edges)) => {
                &&& md_fits(markdown_event_stream(content@), *old(next_id))
                &&& node_views(nodes@) == markdown_nodes(
                    path_file_name(path@),
                    path@,
                    content@,
                    markdown_event_stream(content@),
                    *old(next_id),
                )
                &&& edge_views(edges@) == md_final(markdown_event_stream(content@), *old(next_id)).edges
                &&& *final(next_id) == md_final(markdown_event_stream(content@), *old(next_id)).next
            },
            None => !md_fits(markdown_event_stream(content@), *old(next_id)) && *final(next_id)
                == *old(next_id),
        },
{
    let events = parse_markdown(content);
    extract_from_events(path, content, &events, next_id)
}


/// The nodes, edges and next free id of a markdown file, or `None` where the
/// id or line counter would overflow.
pub open spec fn markdown_graph(path: Seq<char>, content: Seq<char>, doc_id: u64) -> Option<
    (Seq<NodeModel>, Seq<EdgeModel>, int),
> {
    let evs = markdown_event_stream(content);
    if md_fits(evs, doc_id) {
        Some(
            (
                markdown_nodes(path_file_name(path), path, content, evs, doc_id),
                md_final(evs, doc_id).edges,
                md_final(evs, doc_id).next,
            ),
        )
    } else {
        None
    }
}

} // verus!
