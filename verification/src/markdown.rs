//! Markdown structure (headings, links, blocks with their source offsets), the windows of
//! a document to re-parse after an edit, and a line-based lint.
use vstd::prelude::*;
use crate::editor::{byte_len, char_width};
use crate::text::{views, chars_of, string_of, push_str, push_all, trim, trim_chars, slice_of, str_len_bytes, decimal, decimal_chars, lines_of, lines, has_prefix, starts_with_str};
use crate::sorted::{lex_lt, string_less, lemma_lex_total, lemma_lex_transitive, lemma_lex_irreflexive};
use pulldown_cmark::{Options, Parser};
use pulldown_cmark::Event::{Code, End, Start, Text};
use pulldown_cmark::Tag::{Heading, Link};
use crate::markdown::CmarkEvent as Ev;

verus! {

#[derive(Clone, Copy, Debug, PartialEq, Eq, Structural)]
pub enum MarkdownBlockKind {
    Heading(u8),
    Paragraph,
    CodeFence,
    Quote,
    List,
}

#[derive(Clone, Debug, PartialEq, Eq)]
pub struct MarkdownBlock {
    pub kind: MarkdownBlockKind,
    pub start_offset: usize,
    pub end_offset: usize,
    pub text: String,
}

pub struct BlockModel {
    pub kind: MarkdownBlockKind,
    pub start: int,
    pub end: int,
    pub text: Seq<char>,
}

impl View for MarkdownBlock {
    type V = BlockModel;

    open spec fn view(&self) -> BlockModel {
        BlockModel { kind: self.kind, start: self.start_offset as int, end: self.end_offset as int, text: self.text@ }
    }
}

#[derive(Clone, Debug, PartialEq, Eq)]
pub struct MarkdownSummary {
    pub headings: Vec<(u8, String)>,
    pub links: Vec<String>,
    pub code_fence_count: usize,
    pub block_count: usize,
}

#[derive(Clone, Debug, PartialEq, Eq)]
pub struct MarkdownParseResult {
    pub summary: MarkdownSummary,
    pub blocks: Vec<MarkdownBlock>,
}

#[derive(Clone, Copy, Debug, PartialEq, Eq, PartialOrd, Ord)]
pub enum MarkdownDiagnosticSeverity {
    Info,
    Warning,
    Error,
}

/// The rank of a severity (`Info` < `Warning` < `Error`).
pub open spec fn severity_rank(s: MarkdownDiagnosticSeverity) -> int {
    match s {
        MarkdownDiagnosticSeverity::Info => 0,
        MarkdownDiagnosticSeverity::Warning => 1,
        MarkdownDiagnosticSeverity::Error => 2,
    }
}

fn severity_rank_exec(s: MarkdownDiagnosticSeverity) -> (r: u8)
    ensures
        r as int == severity_rank(s),
{
    match s {
        MarkdownDiagnosticSeverity::Info => 0,
        MarkdownDiagnosticSeverity::Warning => 1,
        MarkdownDiagnosticSeverity::Error => 2,
    }
}

#[derive(Clone, Debug, PartialEq, Eq)]
pub struct MarkdownDiagnostic {
    pub line: usize,
    pub severity: MarkdownDiagnosticSeverity,
    pub message: String,
}

/// A source of further diagnostics for a document.
pub trait MarkdownDiagnosticsProvider {
    /// The diagnostics this provider may give for `text`: any, unless it says more.
    open spec fn provides(&self, text: Seq<char>, out: Seq<MarkdownDiagnostic>) -> bool {
        true
    }

    fn provide(&self, text: &str) -> (r: Vec<MarkdownDiagnostic>)
        ensures
            self.provides(text@, r@),
    ;
}

// ---------------------------------------------------------------------------
// Invalidation windows
// ---------------------------------------------------------------------------
/// A byte range of a document that needs parsing again; `start <= end`.
#[derive(Clone, Debug, PartialEq, Eq)]
pub struct MarkdownInvalidationWindow {
    pub start: usize,
    pub end: usize,
}

impl MarkdownInvalidationWindow {
    /// The window between two offsets, in either order.
    pub fn new(start: usize, end: usize) -> (w: MarkdownInvalidationWindow)
        ensures
            w.start == if start <= end { start } else { end },
            w.end == if start <= end { end } else { start },
    {
        if start <= end {
            MarkdownInvalidationWindow { start, end }
        } else {
            MarkdownInvalidationWindow { start: end, end: start }
        }
    }

    /// The window an edit invalidates: from `context_bytes` before the edit to
    /// `context_bytes` after the inserted text, within the new document.
    pub fn from_edit(
        edit_range: std::ops::Range<usize>,
        inserted_len: usize,
        new_document_len: usize,
        context_bytes: usize,
    ) -> (w: MarkdownInvalidationWindow)
        ensures
            ({
                let start = if edit_range.start >= context_bytes { edit_range.start - context_bytes } else { 0 };
                let raw_end = if edit_range.start + inserted_len + context_bytes <= usize::MAX {
                    edit_range.start + inserted_len + context_bytes
                } else {
                    usize::MAX as int
                };
                let end = if raw_end <= new_document_len { raw_end } else { new_document_len as int };
                let s = if start <= new_document_len { start } else { new_document_len as int };
                w.start == if s <= end { s } else { end } && w.end == if s <= end { end } else { s }
            }),
    {
        let start = if edit_range.start >= context_bytes {
            edit_range.start - context_bytes
        } else {
            0
        };
        let raw_end = edit_range.start.saturating_add(inserted_len).saturating_add(context_bytes);
        let end = if raw_end <= new_document_len {
            raw_end
        } else {
            new_document_len
        };
        let s = if start <= new_document_len {
            start
        } else {
            new_document_len
        };
        MarkdownInvalidationWindow::new(s, end)
    }

    /// Widens this window to cover `other` as well.
    pub fn merge(&mut self, other: &MarkdownInvalidationWindow)
        ensures
            final(self).start == if old(self).start <= other.start { old(self).start } else { other.start },
            final(self).end == if old(self).end >= other.end { old(self).end } else { other.end },
    {
        if other.start < self.start {
            self.start = other.start;
        }
        if other.end > self.end {
            self.end = other.end;
        }
    }

    pub fn len(&self) -> (n: usize)
        ensures
            n == if self.end >= self.start { self.end - self.start } else { 0 },
    {
        if self.end >= self.start {
            self.end - self.start
        } else {
            0
        }
    }

    pub fn is_empty(&self) -> (b: bool)
        ensures
            b == (self.end <= self.start),
    {
        self.len() == 0
    }

    pub fn as_range(&self) -> (r: std::ops::Range<usize>)
        ensures
            r.start == self.start,
            r.end == self.end,
    {
        self.start..self.end
    }
}

/// Merging two windows gives one that covers both.
pub proof fn law_merge_covers_both(a: MarkdownInvalidationWindow, b: MarkdownInvalidationWindow, m: MarkdownInvalidationWindow)
    requires
        m.start == if a.start <= b.start { a.start } else { b.start },
        m.end == if a.end >= b.end { a.end } else { b.end },
    ensures
        m.start <= a.start && m.start <= b.start,
        m.end >= a.end && m.end >= b.end,
{
}

// ---------------------------------------------------------------------------
// Parsing
// ---------------------------------------------------------------------------
/// What the parser reports, as far as the structure here needs it.
pub enum MdEvent {
    Heading(u8),
    Paragraph,
    CodeBlock,
    Quote,
    List,
    Link(String),
    CloseHeading,
    Close,
    Text(String),
    Break,
    Other,
}

pub enum MdEventModel {
    Heading(u8),
    Paragraph,
    CodeBlock,
    Quote,
    List,
    Link(Seq<char>),
    CloseHeading,
    Close,
    Text(Seq<char>),
    Break,
    Other,
}

impl View for MdEvent {
    type V = MdEventModel;

    open spec fn view(&self) -> MdEventModel {
        match self {
            MdEvent::Heading(l) => MdEventModel::Heading(*l),
            MdEvent::Paragraph => MdEventModel::Paragraph,
            MdEvent::CodeBlock => MdEventModel::CodeBlock,
            MdEvent::Quote => MdEventModel::Quote,
            MdEvent::List => MdEventModel::List,
            MdEvent::Link(u) => MdEventModel::Link(u@),
            MdEvent::CloseHeading => MdEventModel::CloseHeading,
            MdEvent::Close => MdEventModel::Close,
            MdEvent::Text(t) => MdEventModel::Text(t@),
            MdEvent::Break => MdEventModel::Break,
            MdEvent::Other => MdEventModel::Other,
        }
    }
}

pub open spec fn event_views(v: Seq<(MdEvent, usize, usize)>) -> Seq<(MdEventModel, usize, usize)> {
    v.map_values(|e: (MdEvent, usize, usize)| (e.0@, e.1, e.2))
}

/// The events with their ranges as pairs of offsets.
pub open spec fn offset_views(v: Seq<(MdEventModel, std::ops::Range<usize>)>) -> Seq<(MdEventModel, usize, usize)> {
    v.map_values(|e: (MdEventModel, std::ops::Range<usize>)| (e.0, e.1.start, e.1.end))
}

/// One event of the parser: a heading start keeps its level and a link start its
/// destination; any other start or end tag is carried by the parser's debug text of the tag;
/// text and inline code keep their content; every other event is carried by its debug text.
pub enum CmarkEvent {
    StartHeading(u8),
    StartLink(String),
    Start(String),
    End(String),
    Text(String),
    Code(String),
    Other(String),
}

pub enum CmarkEventModel {
    StartHeading(u8),
    StartLink(Seq<char>),
    Start(Seq<char>),
    End(Seq<char>),
    Text(Seq<char>),
    Code(Seq<char>),
    Other(Seq<char>),
}

impl View for CmarkEvent {
    type V = CmarkEventModel;

    open spec fn view(&self) -> CmarkEventModel {
        match self {
            CmarkEvent::StartHeading(l) => CmarkEventModel::StartHeading(*l),
            CmarkEvent::StartLink(u) => CmarkEventModel::StartLink(u@),
            CmarkEvent::Start(t) => CmarkEventModel::Start(t@),
            CmarkEvent::End(t) => CmarkEventModel::End(t@),
            CmarkEvent::Text(t) => CmarkEventModel::Text(t@),
            CmarkEvent::Code(t) => CmarkEventModel::Code(t@),
            CmarkEvent::Other(t) => CmarkEventModel::Other(t@),
        }
    }
}

pub open spec fn cmark_views(v: Seq<(CmarkEvent, std::ops::Range<usize>)>) -> Seq<(CmarkEventModel, std::ops::Range<usize>)> {
    v.map_values(|e: (CmarkEvent, std::ops::Range<usize>)| (e.0@, e.1))
}

/// The events, with their source byte ranges, that pulldown-cmark reports for `text` with
/// strikethrough, tables, task lists and footnotes enabled.
pub uninterp spec fn cmark_events(text: Seq<char>) -> Seq<(CmarkEventModel, std::ops::Range<usize>)>;

/// `Parser::new_ext(text, ..).into_offset_iter()`: the events of `text`, each with the byte
/// range of the source it covers (so within the text), each event taken variant for
/// variant (see `CmarkEvent`).
#[verifier::external_body]
fn markdown_events(text: &str) -> (r: Vec<(CmarkEvent, std::ops::Range<usize>)>)
    ensures
        cmark_views(r@) == cmark_events(text@),
        forall|i: int| 0 <= i < r.len() ==> #[trigger] r@[i].1.start <= r@[i].1.end && r@[i].1.end <= byte_len(text@),
{
    Parser::new_ext(text, Options::ENABLE_STRIKETHROUGH | Options::ENABLE_TABLES | Options::ENABLE_TASKLISTS | Options::ENABLE_FOOTNOTES)
        .into_offset_iter().map(|(e, r)| (match e {
            Start(Heading { level, .. }) => Ev::StartHeading(level as u8),
            Start(Link { dest_url, .. }) => Ev::StartLink(dest_url.to_string()),
            Start(t) => Ev::Start(format!("{t:?}")),
            End(t) => Ev::End(format!("{t:?}")),
            Text(t) => Ev::Text(t.to_string()),
            Code(t) => Ev::Code(t.to_string()),
            e => Ev::Other(format!("{e:?}")),
        }, r)).collect()
}

/// What one parser event means for the structure here: the starts of headings, paragraphs,
/// code blocks, quotes, lists and links; the end of a heading; the end of a paragraph, code
/// block, quote or list (which closes the block); text and inline code; line breaks.
pub open spec fn condensed(e: CmarkEventModel) -> MdEventModel {
    match e {
        CmarkEventModel::StartHeading(l) => MdEventModel::Heading(l),
        CmarkEventModel::StartLink(u) => MdEventModel::Link(u),
        CmarkEventModel::Start(t) => if t == "Paragraph"@ {
            MdEventModel::Paragraph
        } else if has_prefix(t, "CodeBlock("@) {
            MdEventModel::CodeBlock
        } else if has_prefix(t, "BlockQuote("@) {
            MdEventModel::Quote
        } else if has_prefix(t, "List("@) {
            MdEventModel::List
        } else {
            MdEventModel::Other
        },
        CmarkEventModel::End(t) => if has_prefix(t, "Heading("@) {
            MdEventModel::CloseHeading
        } else if t == "Paragraph"@ || t == "CodeBlock"@ || has_prefix(t, "BlockQuote("@) || has_prefix(t, "List("@) {
            MdEventModel::Close
        } else {
            MdEventModel::Other
        },
        CmarkEventModel::Text(t) => MdEventModel::Text(t),
        CmarkEventModel::Code(t) => MdEventModel::Text(t),
        CmarkEventModel::Other(t) => if t == "SoftBreak"@ || t == "HardBreak"@ {
            MdEventModel::Break
        } else {
            MdEventModel::Other
        },
    }
}

/// The parser's events for `text`, condensed (see `condensed`), with their ranges.
pub open spec fn md_events(text: Seq<char>) -> Seq<(MdEventModel, std::ops::Range<usize>)> {
    cmark_events(text).map_values(|e: (CmarkEventModel, std::ops::Range<usize>)| (condensed(e.0), e.1))
}

fn condense(e: CmarkEvent) -> (r: MdEvent)
    ensures
        r@ == condensed(e@),
{
    match e {
        CmarkEvent::StartHeading(l) => MdEvent::Heading(l),
        CmarkEvent::StartLink(u) => MdEvent::Link(u),
        CmarkEvent::Start(t) => {
            let c = chars_of(t.as_str());
            if crate::text::eq_str(&c, "Paragraph") {
                MdEvent::Paragraph
            } else if starts_with_str(&c, "CodeBlock(") {
                MdEvent::CodeBlock
            } else if starts_with_str(&c, "BlockQuote(") {
                MdEvent::Quote
            } else if starts_with_str(&c, "List(") {
                MdEvent::List
            } else {
                MdEvent::Other
            }
        },
        CmarkEvent::End(t) => {
            let c = chars_of(t.as_str());
            if starts_with_str(&c, "Heading(") {
                MdEvent::CloseHeading
            } else if crate::text::eq_str(&c, "Paragraph") || crate::text::eq_str(&c, "CodeBlock") || starts_with_str(&c, "BlockQuote(")
                || starts_with_str(&c, "List(") {
                MdEvent::Close
            } else {
                MdEvent::Other
            }
        },
        CmarkEvent::Text(t) => MdEvent::Text(t),
        CmarkEvent::Code(t) => MdEvent::Text(t),
        CmarkEvent::Other(t) => {
            let c = chars_of(t.as_str());
            if crate::text::eq_str(&c, "SoftBreak") || crate::text::eq_str(&c, "HardBreak") {
                MdEvent::Break
            } else {
                MdEvent::Other
            }
        },
    }
}

/// The parser's events with their byte ranges as pairs of offsets.
fn offset_events(text: &str) -> (r: Vec<(MdEvent, usize, usize)>)
    ensures
        event_views(r@) == offset_views(md_events(text@)),
        forall|i: int| 0 <= i < r.len() ==> #[trigger] r@[i].1 <= r@[i].2 && r@[i].2 <= byte_len(text@),
{
    let evs = markdown_events(text);
    let mut out: Vec<(MdEvent, usize, usize)> = Vec::new();
    let mut evs = evs;
    let ghost all = evs@;
    let ghost mut i: int = 0;
    while evs.len() > 0
        invariant
            0 <= i <= all.len(),
            evs@ == all.skip(i),
            cmark_views(all) == cmark_events(text@),
            forall|k: int| 0 <= k < all.len() ==> #[trigger] all[k].1.start <= all[k].1.end && all[k].1.end <= byte_len(text@),
            event_views(out@) == offset_views(md_events(text@)).take(i),
            forall|k: int| 0 <= k < out.len() ==> #[trigger] out@[k].1 <= out@[k].2 && out@[k].2 <= byte_len(text@),
        decreases evs.len(),
    {
        let (e, r) = evs.remove(0);
        proof {
            assert(all[i] == (e, r));
            assert(evs@ =~= all.skip(i + 1));
        }
        let ghost before = event_views(out@);
        let m = condense(e);
        out.push((m, r.start, r.end));
        proof {
            assert(md_events(text@)[i] == (condensed(all[i].0@), all[i].1));
            assert(event_views(out@) =~= before.push((condensed(all[i].0@), r.start, r.end)));
            assert(offset_views(md_events(text@)).take(i + 1) =~= offset_views(md_events(text@)).take(i).push(offset_views(md_events(text@))[i]));
            i = i + 1;
        }
    }
    proof {
        assert(offset_views(md_events(text@)).take(i) =~= offset_views(md_events(text@)));
    }
    out
}

/// A block whose end has not been reached yet.
pub struct OpenModel {
    pub kind: MarkdownBlockKind,
    pub start: int,
    pub text: Seq<char>,
}

pub struct ParseState {
    pub headings: Seq<(u8, Seq<char>)>,
    pub links: Seq<Seq<char>>,
    pub fences: nat,
    pub blocks: Seq<BlockModel>,
    pub stack: Seq<OpenModel>,
}

pub open spec fn initial_state() -> ParseState {
    ParseState { headings: Seq::empty(), links: Seq::empty(), fences: 0, blocks: Seq::empty(), stack: Seq::empty() }
}

/// Text joined to a block's text, with a space between.
pub open spec fn append_text(t: Seq<char>, add: Seq<char>) -> Seq<char> {
    if t.len() == 0 {
        add
    } else {
        t.push(' ') + add
    }
}

pub open spec fn open_block(st: ParseState, kind: MarkdownBlockKind, start: int) -> ParseState {
    ParseState { stack: st.stack.push(OpenModel { kind, start, text: Seq::empty() }), ..st }
}

/// One event: starts open blocks, a close finishes the innermost open block (a heading
/// with non-blank text is recorded), text goes to the innermost open block.
pub open spec fn parse_step(st: ParseState, ev: (MdEventModel, usize, usize), base: int) -> ParseState {
    let start = base + ev.1;
    match ev.0 {
        MdEventModel::Heading(l) => open_block(st, MarkdownBlockKind::Heading(l), start),
        MdEventModel::Paragraph => open_block(st, MarkdownBlockKind::Paragraph, start),
        MdEventModel::CodeBlock => open_block(ParseState { fences: st.fences + 1, ..st }, MarkdownBlockKind::CodeFence, start),
        MdEventModel::Quote => open_block(st, MarkdownBlockKind::Quote, start),
        MdEventModel::List => open_block(st, MarkdownBlockKind::List, start),
        MdEventModel::Link(u) => ParseState { links: st.links.push(u), ..st },
        MdEventModel::Close | MdEventModel::CloseHeading => if st.stack.len() == 0 {
            st
        } else {
            let o = st.stack.last();
            let t = trim(o.text);
            ParseState {
                headings: match o.kind {
                    MarkdownBlockKind::Heading(l) => if t.len() > 0 {
                        st.headings.push((l, t))
                    } else {
                        st.headings
                    },
                    _ => st.headings,
                },
                blocks: st.blocks.push(BlockModel { kind: o.kind, start: o.start, end: base + ev.2, text: t }),
                stack: st.stack.drop_last(),
                ..st
            }
        },
        MdEventModel::Text(t) => if st.stack.len() == 0 {
            st
        } else {
            let o = st.stack.last();
            ParseState { stack: st.stack.update(st.stack.len() - 1, OpenModel { text: append_text(o.text, t), ..o }), ..st }
        },
        MdEventModel::Break => if st.stack.len() == 0 {
            st
        } else {
            let o = st.stack.last();
            ParseState { stack: st.stack.update(st.stack.len() - 1, OpenModel { text: o.text.push(' '), ..o }), ..st }
        },
        MdEventModel::Other => st,
    }
}

pub open spec fn parse_events(evs: Seq<(MdEventModel, usize, usize)>, base: int) -> ParseState
    decreases evs.len(),
{
    if evs.len() == 0 {
        initial_state()
    } else {
        parse_step(parse_events(evs.drop_last(), base), evs.last(), base)
    }
}

pub open spec fn heading_views(v: Seq<(u8, String)>) -> Seq<(u8, Seq<char>)> {
    v.map_values(|h: (u8, String)| (h.0, h.1@))
}

pub open spec fn string_views(v: Seq<String>) -> Seq<Seq<char>> {
    v.map_values(|s: String| s@)
}

pub open spec fn block_views(v: Seq<MarkdownBlock>) -> Seq<BlockModel> {
    v.map_values(|b: MarkdownBlock| b@)
}

/// The result describes the parse state: its headings, links, fences and finished blocks.
pub open spec fn describes(r: MarkdownParseResult, st: ParseState) -> bool {
    heading_views(r.summary.headings@) == st.headings && string_views(r.summary.links@) == st.links
        && r.summary.code_fence_count == st.fences && block_views(r.blocks@) == st.blocks
        && r.summary.block_count == st.blocks.len()
}

struct OpenBlock {
    kind: MarkdownBlockKind,
    start_offset: usize,
    text: Vec<char>,
}

spec fn open_views(v: Seq<OpenBlock>) -> Seq<OpenModel> {
    v.map_values(|o: OpenBlock| OpenModel { kind: o.kind, start: o.start_offset as int, text: o.text@ })
}

/// Builds the structure from the parser's events, with offsets shifted by `base`.
pub fn collect_structure(events: &Vec<(MdEvent, usize, usize)>, base: usize) -> (r: MarkdownParseResult)
    requires
        forall|i: int| 0 <= i < events.len() ==> #[trigger] events@[i].1 <= events@[i].2 && base + events@[i].2 <= usize::MAX,
    ensures
        describes(r, parse_events(event_views(events@), base as int)),
{
    let ghost ev = event_views(events@);
    let mut headings: Vec<(u8, String)> = Vec::new();
    let mut links: Vec<String> = Vec::new();
    let mut fences: usize = 0;
    let mut blocks: Vec<MarkdownBlock> = Vec::new();
    let mut stack: Vec<OpenBlock> = Vec::new();
    let mut i: usize = 0;
    assert(ev.take(0) =~= Seq::<(MdEventModel, usize, usize)>::empty());
    assert(heading_views(headings@) =~= Seq::<(u8, Seq<char>)>::empty());
    assert(string_views(links@) =~= Seq::<Seq<char>>::empty());
    assert(block_views(blocks@) =~= Seq::<BlockModel>::empty());
    assert(open_views(stack@) =~= Seq::<OpenModel>::empty());
    while i < events.len()
        invariant
            i <= events.len(),
            ev == event_views(events@),
            fences <= i,
            forall|k: int| 0 <= k < events.len() ==> #[trigger] events@[k].1 <= events@[k].2 && base + events@[k].2 <= usize::MAX,
            parse_events(ev.take(i as int), base as int) == (ParseState {
                headings: heading_views(headings@),
                links: string_views(links@),
                fences: fences as nat,
                blocks: block_views(blocks@),
                stack: open_views(stack@),
            }),
        decreases events.len() - i,
    {
        proof {
            assert(ev.take(i + 1).drop_last() =~= ev.take(i as int));
            assert(ev.take(i + 1).last() == ev[i as int]);
            assert(ev[i as int] == (events@[i as int].0@, events@[i as int].1, events@[i as int].2));
        }
        let ghost hv = heading_views(headings@);
        let ghost lv = string_views(links@);
        let ghost bv = block_views(blocks@);
        let ghost sv = open_views(stack@);
        let start = base + events[i].1;
        let end = base + events[i].2;
        match &events[i].0 {
            MdEvent::Heading(l) => {
                stack.push(OpenBlock { kind: MarkdownBlockKind::Heading(*l), start_offset: start, text: Vec::new() });
                assert(open_views(stack@) =~= sv.push(OpenModel { kind: MarkdownBlockKind::Heading(*l), start: start as int, text: Seq::empty() }));
            },
            MdEvent::Paragraph => {
                stack.push(OpenBlock { kind: MarkdownBlockKind::Paragraph, start_offset: start, text: Vec::new() });
                assert(open_views(stack@) =~= sv.push(OpenModel { kind: MarkdownBlockKind::Paragraph, start: start as int, text: Seq::empty() }));
            },
            MdEvent::CodeBlock => {
                fences = fences + 1;
                stack.push(OpenBlock { kind: MarkdownBlockKind::CodeFence, start_offset: start, text: Vec::new() });
                assert(open_views(stack@) =~= sv.push(OpenModel { kind: MarkdownBlockKind::CodeFence, start: start as int, text: Seq::empty() }));
            },
            MdEvent::Quote => {
                stack.push(OpenBlock { kind: MarkdownBlockKind::Quote, start_offset: start, text: Vec::new() });
                assert(open_views(stack@) =~= sv.push(OpenModel { kind: MarkdownBlockKind::Quote, start: start as int, text: Seq::empty() }));
            },
            MdEvent::List => {
                stack.push(OpenBlock { kind: MarkdownBlockKind::List, start_offset: start, text: Vec::new() });
                assert(open_views(stack@) =~= sv.push(OpenModel { kind: MarkdownBlockKind::List, start: start as int, text: Seq::empty() }));
            },
            MdEvent::Link(u) => {
                links.push(u.clone());
                assert(string_views(links@) =~= lv.push(u@));
            },
            MdEvent::Close | MdEvent::CloseHeading => {
                if stack.len() > 0 {
                    let o = stack.pop().unwrap();
                    assert(open_views(stack@) =~= sv.drop_last());
                    let t = trim_chars(&o.text);
                    match o.kind {
                        MarkdownBlockKind::Heading(l) => {
                            if t.len() > 0 {
                                headings.push((l, string_of(&t)));
                                assert(heading_views(headings@) =~= hv.push((l, t@)));
                            }
                        },
                        _ => {},
                    }
                    blocks.push(MarkdownBlock { kind: o.kind, start_offset: o.start_offset, end_offset: end, text: string_of(&t) });
                    assert(block_views(blocks@) =~= bv.push(BlockModel { kind: o.kind, start: o.start_offset as int, end: end as int, text: t@ }));
                }
            },
            MdEvent::Text(t) => {
                if stack.len() > 0 {
                    let n = stack.len() - 1;
                    let mut o = stack.pop().unwrap();
                    if o.text.len() > 0 {
                        o.text.push(' ');
                    }
                    push_str(&mut o.text, t.as_str());
                    stack.push(o);
                    assert(open_views(stack@) =~= sv.update(n as int, OpenModel { text: append_text(sv[n as int].text, t@), ..sv[n as int] }));
                }
            },
            MdEvent::Break => {
                if stack.len() > 0 {
                    let n = stack.len() - 1;
                    let mut o = stack.pop().unwrap();
                    o.text.push(' ');
                    stack.push(o);
                    assert(open_views(stack@) =~= sv.update(n as int, OpenModel { text: sv[n as int].text.push(' '), ..sv[n as int] }));
                }
            },
            MdEvent::Other => {},
        }
        i += 1;
    }
    assert(ev.take(events.len() as int) =~= ev);
    let block_count = blocks.len();
    MarkdownParseResult {
        summary: MarkdownSummary { headings, links, code_fence_count: fences, block_count },
        blocks,
    }
}

/// The structure of a whole document.
pub fn parse_markdown(text: &str) -> (r: MarkdownParseResult)
    ensures
        describes(r, parse_events(offset_views(md_events(text@)), 0)),
{
    let events = offset_events(text);
    collect_structure(&events, 0)
}

/// What the summary pass keeps: headings, links, fences, blocks started, open headings.
pub struct SummaryState {
    pub headings: Seq<(u8, Seq<char>)>,
    pub links: Seq<Seq<char>>,
    pub fences: nat,
    pub blocks: nat,
    pub open: Seq<(u8, Seq<char>)>,
}

pub open spec fn summary_step(st: SummaryState, ev: MdEventModel) -> SummaryState {
    match ev {
        MdEventModel::Heading(l) => SummaryState { blocks: st.blocks + 1, open: st.open.push((l, Seq::empty())), ..st },
        MdEventModel::Paragraph | MdEventModel::Quote | MdEventModel::List => SummaryState { blocks: st.blocks + 1, ..st },
        MdEventModel::CodeBlock => SummaryState { blocks: st.blocks + 1, fences: st.fences + 1, ..st },
        MdEventModel::Link(u) => SummaryState { links: st.links.push(u), ..st },
        MdEventModel::Text(t) => if st.open.len() == 0 {
            st
        } else {
            SummaryState { open: st.open.update(st.open.len() - 1, (st.open.last().0, append_text(st.open.last().1, t))), ..st }
        },
        MdEventModel::Break => if st.open.len() == 0 {
            st
        } else {
            SummaryState { open: st.open.update(st.open.len() - 1, (st.open.last().0, st.open.last().1.push(' '))), ..st }
        },
        MdEventModel::CloseHeading => if st.open.len() == 0 {
            st
        } else {
            let t = trim(st.open.last().1);
            SummaryState {
                headings: if t.len() > 0 { st.headings.push((st.open.last().0, t)) } else { st.headings },
                open: st.open.drop_last(),
                ..st
            }
        },
        _ => st,
    }
}

pub open spec fn summarize_events(evs: Seq<(MdEventModel, usize, usize)>) -> SummaryState
    decreases evs.len(),
{
    if evs.len() == 0 {
        SummaryState { headings: Seq::empty(), links: Seq::empty(), fences: 0, blocks: 0, open: Seq::empty() }
    } else {
        summary_step(summarize_events(evs.drop_last()), evs.last().0)
    }
}

spec fn open_heading_views(v: Seq<(u8, Vec<char>)>) -> Seq<(u8, Seq<char>)> {
    v.map_values(|h: (u8, Vec<char>)| (h.0, h.1@))
}

/// Headings, links and counts of a document, without the blocks.
pub fn parse_markdown_summary(text: &str) -> (r: MarkdownSummary)
    ensures
        ({
            let st = summarize_events(offset_views(md_events(text@)));
            heading_views(r.headings@) == st.headings && string_views(r.links@) == st.links
                && r.code_fence_count == st.fences && r.block_count == st.blocks
        }),
{
    let events = offset_events(text);
    let ghost ev = event_views(events@);
    let mut headings: Vec<(u8, String)> = Vec::new();
    let mut links: Vec<String> = Vec::new();
    let mut fences: usize = 0;
    let mut blocks: usize = 0;
    let mut open: Vec<(u8, Vec<char>)> = Vec::new();
    let mut i: usize = 0;
    assert(ev.take(0) =~= Seq::<(MdEventModel, usize, usize)>::empty());
    assert(heading_views(headings@) =~= Seq::<(u8, Seq<char>)>::empty());
    assert(string_views(links@) =~= Seq::<Seq<char>>::empty());
    assert(open_heading_views(open@) =~= Seq::<(u8, Seq<char>)>::empty());
    while i < events.len()
        invariant
            i <= events.len(),
            ev == event_views(events@),
            ev == offset_views(md_events(text@)),
            fences <= i,
            blocks <= i,
            summarize_events(ev.take(i as int)) == (SummaryState {
                headings: heading_views(headings@),
                links: string_views(links@),
                fences: fences as nat,
                blocks: blocks as nat,
                open: open_heading_views(open@),
            }),
        decreases events.len() - i,
    {
        proof {
            assert(ev.take(i + 1).drop_last() =~= ev.take(i as int));
            assert(ev.take(i + 1).last() == ev[i as int]);
            assert(ev[i as int].0 == events@[i as int].0@);
        }
        let ghost hv = heading_views(headings@);
        let ghost lv = string_views(links@);
        let ghost ov = open_heading_views(open@);
        match &events[i].0 {
            MdEvent::Heading(l) => {
                blocks = blocks + 1;
                open.push((*l, Vec::new()));
                assert(open_heading_views(open@) =~= ov.push((*l, Seq::empty())));
            },
            MdEvent::Paragraph | MdEvent::Quote | MdEvent::List => {
                blocks = blocks + 1;
            },
            MdEvent::CodeBlock => {
                blocks = blocks + 1;
                fences = fences + 1;
            },
            MdEvent::Link(u) => {
                links.push(u.clone());
                assert(string_views(links@) =~= lv.push(u@));
            },
            MdEvent::Text(t) => {
                if open.len() > 0 {
                    let n = open.len() - 1;
                    let (lvl, mut txt) = open.pop().unwrap();
                    if txt.len() > 0 {
                        txt.push(' ');
                    }
                    push_str(&mut txt, t.as_str());
                    open.push((lvl, txt));
                    assert(open_heading_views(open@) =~= ov.update(n as int, (ov.last().0, append_text(ov.last().1, t@))));
                }
            },
            MdEvent::Break => {
                if open.len() > 0 {
                    let n = open.len() - 1;
                    let (lvl, mut txt) = open.pop().unwrap();
                    txt.push(' ');
                    open.push((lvl, txt));
                    assert(open_heading_views(open@) =~= ov.update(n as int, (ov.last().0, ov.last().1.push(' '))));
                }
            },
            MdEvent::CloseHeading => {
                if open.len() > 0 {
                    let (lvl, txt) = open.pop().unwrap();
                    assert(open_heading_views(open@) =~= ov.drop_last());
                    let t = trim_chars(&txt);
                    if t.len() > 0 {
                        headings.push((lvl, string_of(&t)));
                        assert(heading_views(headings@) =~= hv.push((lvl, t@)));
                    }
                }
            },
            _ => {},
        }
        i += 1;
    }
    assert(ev.take(events.len() as int) =~= ev);
    MarkdownSummary { headings, links, code_fence_count: fences, block_count: blocks }
}

/// How many whole characters of `s` fit in its first `idx` bytes.
pub open spec fn chars_within(s: Seq<char>, idx: int) -> nat
    decreases s.len(),
{
    if s.len() == 0 || char_width(s[0]) > idx {
        0
    } else {
        1 + chars_within(s.drop_first(), idx - char_width(s[0]))
    }
}

/// The character index of the first character boundary at or after byte `idx`.
pub open spec fn chars_covering(s: Seq<char>, idx: int) -> nat {
    let k = chars_within(s, idx);
    if byte_len(s.take(k as int)) < idx && k < s.len() {
        k + 1
    } else {
        k
    }
}

fn char_width_exec(c: char) -> (w: usize)
    ensures
        w == char_width(c),
{
    let u = c as u32;
    if u < 0x80 {
        1
    } else if u < 0x800 {
        2
    } else if u < 0x10000 {
        3
    } else {
        4
    }
}

proof fn lemma_take_push_bytes(s: Seq<char>, k: int)
    requires
        0 <= k < s.len(),
    ensures
        byte_len(s.take(k + 1)) == byte_len(s.take(k)) + char_width(s[k]),
{
    assert(s.take(k + 1) =~= s.take(k) + seq![s[k]]);
    crate::editor::lemma_byte_len_concat(s.take(k), seq![s[k]]);
    assert(seq![s[k]].drop_first() =~= Seq::<char>::empty());
    assert(byte_len(Seq::<char>::empty()) == 0);
    assert(byte_len(seq![s[k]]) == char_width(s[k]) + byte_len(seq![s[k]].drop_first()));
}

proof fn lemma_bytes_monotone(s: Seq<char>, x: int, y: int)
    requires
        0 <= x <= y <= s.len(),
    ensures
        byte_len(s.take(x)) <= byte_len(s.take(y)),
{
    assert(s.take(y) =~= s.take(x) + s.subrange(x, y));
    crate::editor::lemma_byte_len_concat(s.take(x), s.subrange(x, y));
}

/// The character index and byte offset of the last character boundary at or before `idx`.
fn floor_boundary(s: &[char], idx: usize) -> (r: (usize, usize))
    ensures
        r.0 == chars_within(s@, idx as int),
        r.1 == byte_len(s@.take(r.0 as int)),
        r.0 <= s.len(),
        r.1 <= idx,
{
    let mut k: usize = 0;
    let mut pos: usize = 0;
    assert(s@.skip(0) =~= s@);
    assert(s@.take(0) =~= Seq::<char>::empty());
    while k < s.len() && char_width_exec(s[k]) <= idx - pos
        invariant
            k <= s.len(),
            pos <= idx,
            pos == byte_len(s@.take(k as int)),
            chars_within(s@, idx as int) == k + chars_within(s@.skip(k as int), idx - pos),
        decreases s.len() - k,
    {
        proof {
            lemma_take_push_bytes(s@, k as int);
            assert(s@.skip(k as int).drop_first() =~= s@.skip(k + 1));
            assert(s@.skip(k as int)[0] == s@[k as int]);
        }
        pos = pos + char_width_exec(s[k]);
        k = k + 1;
    }
    proof {
        if k < s.len() {
            assert(s@.skip(k as int)[0] == s@[k as int]);
        }
    }
    (k, pos)
}

/// The structure of the part of `text` that `window` covers, widened to whole characters,
/// with offsets into the whole text; nothing for an empty window.
pub fn parse_markdown_window(text: &str, window: &MarkdownInvalidationWindow) -> (r: MarkdownParseResult)
    ensures
        ({
            let s = text@;
            let n = byte_len(s) as int;
            let a = chars_within(s, if window.start <= n { window.start as int } else { n });
            let b = chars_covering(s, if window.end <= n { window.end as int } else { n });
            let pa = byte_len(s.take(a as int));
            let pb = byte_len(s.take(b as int));
            if pa >= pb {
                describes(r, initial_state())
            } else {
                describes(r, parse_events(offset_views(md_events(s.subrange(a as int, b as int))), pa as int))
            }
        }),
{
    let chars = chars_of(text);
    let n = str_len_bytes(text);
    let ws = if window.start <= n { window.start } else { n };
    let we = if window.end <= n { window.end } else { n };
    let (a, pa) = floor_boundary(&chars, ws);
    let (k, pk) = floor_boundary(&chars, we);
    proof {
        crate::editor::lemma_take_full(chars@);
    }
    let (b, pb) = if pk < we && k < chars.len() {
        proof {
            lemma_take_push_bytes(chars@, k as int);
            lemma_bytes_monotone(chars@, k + 1, chars@.len() as int);
        }
        (k + 1, pk + char_width_exec(chars[k]))
    } else {
        (k, pk)
    };
    if pa >= pb {
        let r = MarkdownParseResult {
            summary: MarkdownSummary { headings: Vec::new(), links: Vec::new(), code_fence_count: 0, block_count: 0 },
            blocks: Vec::new(),
        };
        assert(heading_views(r.summary.headings@) =~= Seq::<(u8, Seq<char>)>::empty());
        assert(string_views(r.summary.links@) =~= Seq::<Seq<char>>::empty());
        assert(block_views(r.blocks@) =~= Seq::<BlockModel>::empty());
        return r;
    }
    proof {
        if b < a {
            lemma_bytes_monotone(chars@, b as int, a as int);
        }
        assert(chars@.take(b as int) =~= chars@.take(a as int) + chars@.subrange(a as int, b as int));
        crate::editor::lemma_byte_len_concat(chars@.take(a as int), chars@.subrange(a as int, b as int));
    }
    let part = slice_of(&chars, a, b);
    let slice = string_of(&part);
    let events = offset_events(slice.as_str());
    assert(slice@ == chars@.subrange(a as int, b as int));
    assert(pa + byte_len(slice@) <= usize::MAX);
    assert forall|i: int| 0 <= i < events.len() implies #[trigger] events@[i].1 <= events@[i].2 && pa + events@[i].2 <= usize::MAX by {
        let e1 = events@[i].1;
        assert(e1 <= events@[i].2);
        assert(events@[i].2 <= byte_len(slice@));
    }
    collect_structure(&events, pa)
}

// ---------------------------------------------------------------------------
// Lint
// ---------------------------------------------------------------------------
pub struct DiagModel {
    pub line: int,
    pub severity: MarkdownDiagnosticSeverity,
    pub message: Seq<char>,
}

impl View for MarkdownDiagnostic {
    type V = DiagModel;

    open spec fn view(&self) -> DiagModel {
        DiagModel { line: self.line as int, severity: self.severity, message: self.message@ }
    }
}

pub open spec fn diag_views(v: Seq<MarkdownDiagnostic>) -> Seq<DiagModel> {
    v.map_values(|d: MarkdownDiagnostic| d@)
}

/// The number of leading `#` of `s`.
pub open spec fn leading_hashes(s: Seq<char>) -> nat
    decreases s.len(),
{
    if s.len() > 0 && s[0] == '#' {
        1 + leading_hashes(s.drop_first())
    } else {
        0
    }
}

/// The level of an ATX heading line: one to six `#` and then a space.
pub open spec fn heading_level(line: Seq<char>) -> Option<u8> {
    let c = leading_hashes(line);
    if 1 <= c <= 6 && line.len() > c && line[c as int] == ' ' {
        Some(c as u8)
    } else {
        None
    }
}

fn heading_level_of(line: &[char]) -> (r: Option<u8>)
    ensures
        r == heading_level(line@),
{
    let mut c: usize = 0;
    assert(line@.skip(0) =~= line@);
    while c < line.len() && c < 7 && line[c] == '#'
        invariant
            c <= line.len(),
            c <= 7,
            leading_hashes(line@) == c + leading_hashes(line@.skip(c as int)),
        decreases line.len() - c,
    {
        assert(line@.skip(c as int).drop_first() =~= line@.skip(c + 1));
        c += 1;
    }
    proof {
        if c < line.len() && c < 7 {
            assert(line@.skip(c as int)[0] == line@[c as int]);
        }
        if c == 7 {
            assert(leading_hashes(line@) >= 7);
        }
    }
    if c >= 1 && c <= 6 && c < line.len() && line[c] == ' ' {
        Some(c as u8)
    } else {
        None
    }
}

/// What the lint pass carries from line to line.
pub struct LintState {
    pub diags: Seq<DiagModel>,
    pub first_h1: Option<int>,
    pub previous_level: Option<u8>,
    pub open_fence: Option<int>,
}

pub open spec fn multiple_h1_message(first: int) -> Seq<char> {
    "multiple H1 headings (first at line "@ + decimal(first as nat) + ")"@
}

pub open spec fn level_jump_message(prev: u8, level: u8) -> Seq<char> {
    "heading level jump from H"@ + decimal(prev as nat) + " to H"@ + decimal(level as nat)
}

/// One line (numbered `n`): a line starting with three backticks opens or closes a fence;
/// a second H1 and a heading more than one level below the previous heading are warned
/// about; a line of over 200 characters is noted.
pub open spec fn lint_step(st: LintState, line: Seq<char>, n: int) -> LintState {
    let t = trim(line);
    let fence = if has_prefix(t, "```"@) {
        if st.open_fence is Some { None } else { Some(n) }
    } else {
        st.open_fence
    };
    let (d1, h1, prev) = match heading_level(t) {
        None => (st.diags, st.first_h1, st.previous_level),
        Some(level) => {
            let (da, h1) = if level == 1 {
                match st.first_h1 {
                    Some(f) => (st.diags.push(DiagModel { line: n, severity: MarkdownDiagnosticSeverity::Warning, message: multiple_h1_message(f) }), st.first_h1),
                    None => (st.diags, Some(n)),
                }
            } else {
                (st.diags, st.first_h1)
            };
            let db = match st.previous_level {
                Some(p) => if level > p + 1 {
                    da.push(DiagModel { line: n, severity: MarkdownDiagnosticSeverity::Warning, message: level_jump_message(p, level) })
                } else {
                    da
                },
                None => da,
            };
            (db, h1, Some(level))
        },
    };
    let d2 = if line.len() > 200 {
        d1.push(DiagModel { line: n, severity: MarkdownDiagnosticSeverity::Info, message: "long line (> 200 chars)"@ })
    } else {
        d1
    };
    LintState { diags: d2, first_h1: h1, previous_level: prev, open_fence: fence }
}

pub open spec fn lint_lines(ls: Seq<Seq<char>>) -> LintState
    decreases ls.len(),
{
    if ls.len() == 0 {
        LintState { diags: Seq::empty(), first_h1: None, previous_level: None, open_fence: None }
    } else {
        lint_step(lint_lines(ls.drop_last()), ls.last(), ls.len() as int)
    }
}

/// The diagnostics of a document before ordering: those of its lines, then an unclosed
/// fence at the line that opened it.
pub open spec fn lint_diagnostics(text: Seq<char>) -> Seq<DiagModel> {
    let st = lint_lines(lines_of(text));
    match st.open_fence {
        Some(l) => st.diags.push(DiagModel { line: l, severity: MarkdownDiagnosticSeverity::Error, message: "unclosed code fence"@ }),
        None => st.diags,
    }
}

/// How many of the lines `ls` start, once trimmed, with three backticks.
pub open spec fn fence_lines(ls: Seq<Seq<char>>) -> nat {
    ls.filter(|l: Seq<char>| has_prefix(trim(l), "```"@)).len()
}

proof fn lemma_lint_lines_fences(ls: Seq<Seq<char>>)
    ensures
        (lint_lines(ls).open_fence is None) == (fence_lines(ls) % 2 == 0),
        forall|i: int| 0 <= i < lint_lines(ls).diags.len() ==> !(#[trigger] lint_lines(ls).diags[i].severity is Error),
        lint_lines(ls).open_fence matches Some(l) ==> 1 <= l <= ls.len() && has_prefix(trim(ls[l - 1]), "```"@) && forall|k: int|
            l <= k < ls.len() ==> !has_prefix(trim(#[trigger] ls[k]), "```"@),
    decreases ls.len(),
{
    reveal(Seq::filter);
    if ls.len() > 0 {
        let p = ls.drop_last();
        lemma_lint_lines_fences(p);
        assert(ls.last() == ls[ls.len() - 1]);
        let st = lint_lines(p);
        let s2 = lint_lines(ls);
        assert forall|i: int| 0 <= i < s2.diags.len() implies !(#[trigger] s2.diags[i].severity is Error) by {
            if i < st.diags.len() {
                assert(s2.diags[i] == st.diags[i]);
            }
        }
        if s2.open_fence is Some {
            let l = s2.open_fence->0;
            if l < ls.len() {
                assert(ls[l - 1] == p[l - 1]);
                assert forall|k: int| l <= k < ls.len() implies !has_prefix(trim(#[trigger] ls[k]), "```"@) by {
                    if k < ls.len() - 1 {
                        assert(ls[k] == p[k]);
                    }
                }
            }
        }
    }
}

/// Code fences pair up: each line that starts with three backticks opens a fence, or closes
/// the open one. A document with an even number of such lines has no unclosed fence and no
/// error at all; with an odd number, the fence opened by its last such line is reported as
/// unclosed, at that line.
pub proof fn law_lint_fences_pair_up(text: Seq<char>)
    ensures
        fence_lines(lines_of(text)) % 2 == 0 ==> forall|i: int|
            0 <= i < lint_diagnostics(text).len() ==> !(#[trigger] lint_diagnostics(text)[i].severity is Error),
        fence_lines(lines_of(text)) % 2 == 1 ==> exists|l: int|
            1 <= l <= lines_of(text).len() && has_prefix(trim(lines_of(text)[l - 1]), "```"@) && (forall|k: int|
                l <= k < lines_of(text).len() ==> !has_prefix(trim(#[trigger] lines_of(text)[k]), "```"@))
                && #[trigger] lint_diagnostics(text).contains(
                DiagModel { line: l, severity: MarkdownDiagnosticSeverity::Error, message: "unclosed code fence"@ },
            ),
{
    let ls = lines_of(text);
    lemma_lint_lines_fences(ls);
    let st = lint_lines(ls);
    let d = lint_diagnostics(text);
    if st.open_fence is Some {
        let l = st.open_fence->0;
        let e = DiagModel { line: l, severity: MarkdownDiagnosticSeverity::Error, message: "unclosed code fence"@ };
        assert(d == st.diags.push(e));
        assert(d[d.len() - 1] == e);
        assert(d.contains(e));
    } else {
        assert(d == st.diags);
    }
}

/// The level of the last heading among the lines `ls`, if there is one.
pub open spec fn last_heading_level(ls: Seq<Seq<char>>) -> Option<u8>
    decreases ls.len(),
{
    if ls.len() == 0 {
        None
    } else {
        match heading_level(trim(ls.last())) {
            Some(l) => Some(l),
            None => last_heading_level(ls.drop_last()),
        }
    }
}

/// The 1-based number of the first H1 heading among the lines `ls`, if there is one.
pub open spec fn first_h1_line(ls: Seq<Seq<char>>) -> Option<int>
    decreases ls.len(),
{
    if ls.len() == 0 {
        None
    } else {
        match first_h1_line(ls.drop_last()) {
            Some(f) => Some(f),
            None => if heading_level(trim(ls.last())) == Some(1u8) {
                Some(ls.len() as int)
            } else {
                None
            },
        }
    }
}

proof fn lemma_lint_step_extends(st: LintState, line: Seq<char>, n: int)
    ensures
        lint_step(st, line, n).diags.len() >= st.diags.len(),
        forall|i: int| 0 <= i < st.diags.len() ==> #[trigger] lint_step(st, line, n).diags[i] == st.diags[i],
        forall|i: int| st.diags.len() <= i < lint_step(st, line, n).diags.len() ==> (#[trigger] lint_step(st, line, n).diags[i]).line == n,
{
}

proof fn lemma_lint_lines_state(ls: Seq<Seq<char>>)
    ensures
        lint_lines(ls).previous_level == last_heading_level(ls),
        lint_lines(ls).first_h1 == first_h1_line(ls),
        forall|i: int| 0 <= i < lint_lines(ls).diags.len() ==> 1 <= (#[trigger] lint_lines(ls).diags[i]).line <= ls.len(),
    decreases ls.len(),
{
    if ls.len() > 0 {
        let p = ls.drop_last();
        lemma_lint_lines_state(p);
        lemma_lint_step_extends(lint_lines(p), ls.last(), ls.len() as int);
        let d = lint_lines(ls).diags;
        assert forall|i: int| 0 <= i < d.len() implies 1 <= (#[trigger] d[i]).line <= ls.len() by {
            if i < lint_lines(p).diags.len() {
                assert(d[i] == lint_lines(p).diags[i]);
            }
        }
    }
}

proof fn lemma_lint_lines_prefix(ls: Seq<Seq<char>>, k: int)
    requires
        0 <= k <= ls.len(),
    ensures
        lint_lines(ls).diags.len() >= lint_lines(ls.take(k)).diags.len(),
        forall|i: int| 0 <= i < lint_lines(ls.take(k)).diags.len() ==> #[trigger] lint_lines(ls).diags[i] == lint_lines(ls.take(k)).diags[i],
        forall|i: int| lint_lines(ls.take(k)).diags.len() <= i < lint_lines(ls).diags.len() ==> (#[trigger] lint_lines(ls).diags[i]).line > k,
    decreases ls.len(),
{
    if k == ls.len() {
        assert(ls.take(k) =~= ls);
    } else {
        let p = ls.drop_last();
        assert(p.take(k) =~= ls.take(k));
        lemma_lint_lines_prefix(p, k);
        lemma_lint_step_extends(lint_lines(p), ls.last(), ls.len() as int);
        let d = lint_lines(ls).diags;
        let dp = lint_lines(p).diags;
        assert forall|i: int| lint_lines(ls.take(k)).diags.len() <= i < d.len() implies (#[trigger] d[i]).line > k by {
            if i < dp.len() {
                assert(d[i] == dp[i]);
            }
        }
    }
}

/// The findings of the lint pass at line `n` (1-based) are those of that line's own step.
proof fn lemma_lint_at_line(ls: Seq<Seq<char>>, n: int, e: DiagModel)
    requires
        1 <= n <= ls.len(),
        e.line == n,
    ensures
        lint_lines(ls).diags.contains(e) <==> ({
            let a = lint_lines(ls.take(n - 1));
            lint_step(a, ls[n - 1], n).diags.skip(a.diags.len() as int).contains(e)
        }),
{
    let a = lint_lines(ls.take(n - 1));
    let b = lint_lines(ls.take(n));
    assert(ls.take(n).drop_last() =~= ls.take(n - 1));
    assert(ls.take(n).last() == ls[n - 1]);
    assert(b == lint_step(a, ls[n - 1], n));
    lemma_lint_step_extends(a, ls[n - 1], n);
    lemma_lint_lines_state(ls.take(n - 1));
    lemma_lint_lines_prefix(ls, n);
    let d = lint_lines(ls).diags;
    let x = b.diags.skip(a.diags.len() as int);
    if d.contains(e) {
        let i = choose|i: int| 0 <= i < d.len() && d[i] == e;
        if i < a.diags.len() {
            assert(d[i] == b.diags[i]);
            assert(b.diags[i] == a.diags[i]);
        }
        assert(i < b.diags.len());
        assert(d[i] == b.diags[i]);
        assert(x[i - a.diags.len()] == b.diags[i]);
    }
    if x.contains(e) {
        let j = choose|j: int| 0 <= j < x.len() && x[j] == e;
        assert(x[j] == b.diags[j + a.diags.len()]);
        assert(d[j + a.diags.len()] == e);
    }
}

/// What the lint pass finds at line `n` (1-based) of a document: a heading more than one
/// level below the previous heading gets a level-jump warning naming both levels, and only
/// such a heading gets one; an H1 after an earlier H1 gets a warning that names the first
/// H1's line, and only such an H1 gets one; a line gets an info note exactly when it is longer
/// than 200 characters.
pub proof fn law_lint_line_findings(text: Seq<char>, n: int)
    requires
        1 <= n <= lines_of(text).len(),
    ensures
        ({
            let ls = lines_of(text);
            let d = lint_diagnostics(text);
            let t = trim(ls[n - 1]);
            let pre = ls.take(n - 1);
            &&& match (heading_level(t), last_heading_level(pre)) {
                (Some(l), Some(p)) => l > p + 1 ==> d.contains(
                    DiagModel { line: n, severity: MarkdownDiagnosticSeverity::Warning, message: level_jump_message(p, l) },
                ),
                _ => true,
            }
            &&& forall|p2: u8, l2: u8|
                #[trigger] d.contains(DiagModel { line: n, severity: MarkdownDiagnosticSeverity::Warning, message: level_jump_message(p2, l2) })
                    ==> match (heading_level(t), last_heading_level(pre)) {
                    (Some(l), Some(p)) => l > p + 1,
                    _ => false,
                }
            &&& match first_h1_line(pre) {
                Some(f) => heading_level(t) == Some(1u8) ==> d.contains(
                    DiagModel { line: n, severity: MarkdownDiagnosticSeverity::Warning, message: multiple_h1_message(f) },
                ),
                None => true,
            }
            &&& forall|f: int|
                #[trigger] d.contains(DiagModel { line: n, severity: MarkdownDiagnosticSeverity::Warning, message: multiple_h1_message(f) })
                    ==> heading_level(t) == Some(1u8) && first_h1_line(pre) is Some
            &&& (exists|i: int| 0 <= i < d.len() && (#[trigger] d[i]).line == n && d[i].severity is Info) <==> ls[n - 1].len() > 200
        }),
{
    reveal_strlit("multiple H1 headings (first at line ");
    reveal_strlit("heading level jump from H");
    let ls = lines_of(text);
    let d = lint_diagnostics(text);
    let dd = lint_lines(ls).diags;
    let line = ls[n - 1];
    let t = trim(line);
    let pre = ls.take(n - 1);
    let a = lint_lines(pre);
    lemma_lint_lines_state(pre);
    let x = lint_step(a, line, n).diags.skip(a.diags.len() as int);
    let h1s: Seq<DiagModel> = if heading_level(t) == Some(1u8) && a.first_h1 is Some {
        seq![DiagModel { line: n, severity: MarkdownDiagnosticSeverity::Warning, message: multiple_h1_message(a.first_h1->0) }]
    } else {
        Seq::empty()
    };
    let jws: Seq<DiagModel> = if heading_level(t) is Some && a.previous_level is Some && heading_level(t)->0 > a.previous_level->0 + 1 {
        seq![DiagModel { line: n, severity: MarkdownDiagnosticSeverity::Warning, message: level_jump_message(a.previous_level->0, heading_level(t)->0) }]
    } else {
        Seq::empty()
    };
    let infs: Seq<DiagModel> = if line.len() > 200 {
        seq![DiagModel { line: n, severity: MarkdownDiagnosticSeverity::Info, message: "long line (> 200 chars)"@ }]
    } else {
        Seq::empty()
    };
    assert(x =~= h1s + jws + infs);
    let xs = h1s + jws + infs;
    // what `d` holds at line `n` apart from an unclosed fence is what `x` holds
    assert forall|e: DiagModel| e.line == n && !(e.severity is Error) implies (d.contains(e) <==> #[trigger] x.contains(e)) by {
        lemma_lint_at_line(ls, n, e);
        if d.contains(e) {
            let i = choose|i: int| 0 <= i < d.len() && d[i] == e;
            if i < dd.len() {
                assert(dd[i] == d[i]);
            }
        }
        if dd.contains(e) {
            let i = choose|i: int| 0 <= i < dd.len() && dd[i] == e;
            assert(d[i] == dd[i]);
        }
    }
    assert forall|p2: u8, l2: u8|
        #[trigger] d.contains(DiagModel { line: n, severity: MarkdownDiagnosticSeverity::Warning, message: level_jump_message(p2, l2) })
            implies match (heading_level(t), last_heading_level(pre)) {
                (Some(l), Some(p)) => l > p + 1,
                _ => false,
            } by {
        let e = DiagModel { line: n, severity: MarkdownDiagnosticSeverity::Warning, message: level_jump_message(p2, l2) };
        assert(x.contains(e));
        let i = choose|i: int| 0 <= i < xs.len() && xs[i] == e;
        if h1s.len() == 1 && i == 0 {
            assert(e.message[0] == 'h');
            assert(multiple_h1_message(a.first_h1->0)[0] == 'm');
        } else if infs.len() == 1 && i == xs.len() - 1 {
        } else {
            assert(jws.len() == 1);
            assert(xs[i] == jws[0]);
        }
    }
    assert forall|f: int|
        #[trigger] d.contains(DiagModel { line: n, severity: MarkdownDiagnosticSeverity::Warning, message: multiple_h1_message(f) })
            implies heading_level(t) == Some(1u8) && first_h1_line(pre) is Some by {
        let e = DiagModel { line: n, severity: MarkdownDiagnosticSeverity::Warning, message: multiple_h1_message(f) };
        assert(x.contains(e));
        let i = choose|i: int| 0 <= i < xs.len() && xs[i] == e;
        if h1s.len() == 1 && i == 0 {
        } else if infs.len() == 1 && i == xs.len() - 1 {
        } else {
            assert(jws.len() == 1);
            assert(xs[i] == jws[0]);
            assert(e.message[0] == 'm');
            assert(level_jump_message(a.previous_level->0, heading_level(t)->0)[0] == 'h');
        }
    }
    if heading_level(t) is Some && last_heading_level(pre) is Some && heading_level(t)->0 > last_heading_level(pre)->0 + 1 {
        assert(xs[h1s.len() as int] == jws[0]);
        assert(x.contains(jws[0]));
    }
    if heading_level(t) == Some(1u8) && first_h1_line(pre) is Some {
        assert(xs[0] == h1s[0]);
        assert(x.contains(h1s[0]));
    }
    if line.len() > 200 {
        let e = infs[0];
        assert(xs[xs.len() - 1] == e);
        assert(x.contains(e));
        assert(d.contains(e));
        let i = choose|i: int| 0 <= i < d.len() && d[i] == e;
        assert(d[i].line == n && d[i].severity is Info);
    }
    if exists|i: int| 0 <= i < d.len() && (#[trigger] d[i]).line == n && d[i].severity is Info {
        let i = choose|i: int| 0 <= i < d.len() && (#[trigger] d[i]).line == n && d[i].severity is Info;
        let e = d[i];
        assert(d.contains(e));
        assert(x.contains(e));
        let j = choose|j: int| 0 <= j < xs.len() && xs[j] == e;
        assert(infs.len() == 1);
    }
}

/// Diagnostics order: by line, then more severe first, then by message.
pub open spec fn diag_lt(a: DiagModel, b: DiagModel) -> bool {
    a.line < b.line || (a.line == b.line && (severity_rank(a.severity) > severity_rank(b.severity) || (
    severity_rank(a.severity) == severity_rank(b.severity) && lex_lt(a.message, b.message))))
}

pub open spec fn diags_sorted(s: Seq<DiagModel>) -> bool {
    forall|i: int, j: int| 0 <= i < j < s.len() ==> !diag_lt(#[trigger] s[j], #[trigger] s[i])
}

proof fn lemma_diag_lt_order(a: DiagModel, b: DiagModel, c: DiagModel)
    ensures
        diag_lt(a, b) && diag_lt(b, c) ==> diag_lt(a, c),
        !(diag_lt(a, b) && diag_lt(b, a)),
{
    lemma_lex_total(a.message, b.message);
    if lex_lt(a.message, b.message) && lex_lt(b.message, c.message) {
        lemma_lex_transitive(a.message, b.message, c.message);
    }
}

fn diag_less(a: &MarkdownDiagnostic, b: &MarkdownDiagnostic) -> (r: bool)
    ensures
        r == diag_lt(a@, b@),
{
    if a.line != b.line {
        return a.line < b.line;
    }
    let ra = severity_rank_exec(a.severity);
    let rb = severity_rank_exec(b.severity);
    if ra != rb {
        return ra > rb;
    }
    string_less(&a.message, &b.message)
}

/// A stable sort of diagnostics into diagnostics order.
fn sort_diagnostics(v: Vec<MarkdownDiagnostic>) -> (out: Vec<MarkdownDiagnostic>)
    ensures
        diags_sorted(diag_views(out@)),
        diag_views(out@).to_multiset() == diag_views(v@).to_multiset(),
{
    let mut pending = v;
    let ghost orig = diag_views(pending@);
    let mut out: Vec<MarkdownDiagnostic> = Vec::new();
    let ghost mut i: int = 0;
    assert(orig.take(0) =~= Seq::<DiagModel>::empty());
    assert(diag_views(out@) =~= Seq::<DiagModel>::empty());
    while pending.len() > 0
        invariant
            0 <= i <= orig.len(),
            diag_views(pending@) == orig.skip(i),
            diags_sorted(diag_views(out@)),
            diag_views(out@).to_multiset() == orig.take(i).to_multiset(),
        decreases pending.len(),
    {
        let ghost before = pending@;
        proof {
            assert(diag_views(before).len() == before.len());
        }
        let e = pending.remove(0);
        proof {
            assert(e@ == diag_views(before)[0]);
            assert(diag_views(pending@) =~= diag_views(before).drop_first());
            assert(orig.skip(i).drop_first() =~= orig.skip(i + 1));
        }
        let mut p: usize = 0;
        while p < out.len() && !diag_less(&e, &out[p])
            invariant
                p <= out.len(),
                forall|k: int| 0 <= k < p ==> !diag_lt(e@, #[trigger] diag_views(out@)[k]),
            decreases out.len() - p,
        {
            p += 1;
        }
        let ghost old_out = diag_views(out@);
        let ghost ev = e@;
        out.insert(p, e);
        proof {
            let nv = diag_views(out@);
            assert(nv =~= old_out.insert(p as int, ev));
            assert forall|a: int, b: int| 0 <= a < b < nv.len() implies !diag_lt(#[trigger] nv[b], #[trigger] nv[a]) by {
                if b < p {
                    assert(nv[a] == old_out[a] && nv[b] == old_out[b]);
                } else if b == p {
                    assert(nv[a] == old_out[a]);
                } else if a == p {
                    assert(nv[b] == old_out[b - 1]);
                    assert(diag_lt(ev, old_out[p as int]));
                    lemma_diag_lt_order(old_out[b - 1], ev, old_out[p as int]);
                    lemma_diag_lt_order(ev, old_out[p as int], ev);
                } else if a < p {
                    assert(nv[a] == old_out[a] && nv[b] == old_out[b - 1]);
                } else {
                    assert(nv[a] == old_out[a - 1] && nv[b] == old_out[b - 1]);
                }
            }
            vstd::seq_lib::to_multiset_insert(old_out, p as int, ev);
            assert(ev == orig[i]);
            assert(orig.take(i + 1) =~= orig.take(i).push(ev));
            vstd::seq_lib::to_multiset_build(orig.take(i), ev);
            i = i + 1;
        }
    }
    proof {
        assert(orig.take(i) =~= orig);
    }
    out
}

fn diagnostic(line: usize, severity: MarkdownDiagnosticSeverity, message: Vec<char>) -> (d: MarkdownDiagnostic)
    ensures
        d@ == (DiagModel { line: line as int, severity, message: message@ }),
{
    MarkdownDiagnostic { line, severity, message: string_of(&message) }
}

/// The lint findings of a document (see `lint_diagnostics`), in diagnostics order.
pub fn lint_markdown(text: &str) -> (r: Vec<MarkdownDiagnostic>)
    ensures
        diags_sorted(diag_views(r@)),
        diag_views(r@).to_multiset() == lint_diagnostics(text@).to_multiset(),
        fence_lines(lines_of(text@)) % 2 == 0 ==> forall|i: int| 0 <= i < r@.len() ==> !(#[trigger] r@[i].severity is Error),
        fence_lines(lines_of(text@)) % 2 == 1 ==> exists|i: int|
            0 <= i < r@.len() && (#[trigger] r@[i]).severity is Error && r@[i].message@ == "unclosed code fence"@
                && has_prefix(trim(lines_of(text@)[r@[i].line - 1]), "```"@),
{
    let chars = chars_of(text);
    let ls = lines(&chars);
    let ghost lv = views(ls@);
    let mut diags: Vec<MarkdownDiagnostic> = Vec::new();
    let mut first_h1: Option<usize> = None;
    let mut previous_level: Option<u8> = None;
    let mut open_fence: Option<usize> = None;
    let mut ix: usize = 0;
    assert(lv.take(0) =~= Seq::<Seq<char>>::empty());
    assert(diag_views(diags@) =~= Seq::<DiagModel>::empty());
    while ix < ls.len()
        invariant
            ix <= ls.len(),
            lv == views(ls@),
            lv == lines_of(text@),
            lint_lines(lv.take(ix as int)) == (LintState {
                diags: diag_views(diags@),
                first_h1: match first_h1 {
                    Some(f) => Some(f as int),
                    None => None,
                },
                previous_level,
                open_fence: match open_fence {
                    Some(f) => Some(f as int),
                    None => None,
                },
            }),
        decreases ls.len() - ix,
    {
        proof {
            assert(lv.take(ix + 1).drop_last() =~= lv.take(ix as int));
            assert(lv.take(ix + 1).last() == ls@[ix as int]@);
        }
        let line = &ls[ix];
        let n = ix + 1;
        let t = trim_chars(line);
        if starts_with_str(&t, "```") {
            open_fence = if open_fence.is_some() {
                None
            } else {
                Some(n)
            };
        }
        let ghost d0 = diag_views(diags@);
        match heading_level_of(&t) {
            Some(level) => {
                if level == 1 {
                    match first_h1 {
                        Some(f) => {
                            let mut m = chars_of("multiple H1 headings (first at line ");
                            let num = decimal_chars(f as u128);
                            push_all(&mut m, &num);
                            push_str(&mut m, ")");
                            diags.push(diagnostic(n, MarkdownDiagnosticSeverity::Warning, m));
                        },
                        None => {
                            first_h1 = Some(n);
                        },
                    }
                }
                match previous_level {
                    Some(p) => {
                        if level as u16 > p as u16 + 1 {
                            let mut m = chars_of("heading level jump from H");
                            let a = decimal_chars(p as u128);
                            push_all(&mut m, &a);
                            push_str(&mut m, " to H");
                            let b = decimal_chars(level as u128);
                            push_all(&mut m, &b);
                            diags.push(diagnostic(n, MarkdownDiagnosticSeverity::Warning, m));
                        }
                    },
                    None => {},
                }
                previous_level = Some(level);
            },
            None => {},
        }
        if line.len() > 200 {
            diags.push(diagnostic(n, MarkdownDiagnosticSeverity::Info, chars_of("long line (> 200 chars)")));
        }
        proof {
            assert(diag_views(diags@) =~= lint_step(lint_lines(lv.take(ix as int)), lv[ix as int], n as int).diags);
        }
        ix += 1;
    }
    assert(lv.take(ls.len() as int) =~= lv);
    match open_fence {
        Some(l) => {
            diags.push(diagnostic(l, MarkdownDiagnosticSeverity::Error, chars_of("unclosed code fence")));
        },
        None => {},
    }
    assert(diag_views(diags@) =~= lint_diagnostics(text@));
    let r = sort_diagnostics(diags);
    proof {
        law_lint_fences_pair_up(text@);
        let dv = diag_views(r@);
        let ld = lint_diagnostics(text@);
        dv.to_multiset_ensures();
        ld.to_multiset_ensures();
        assert forall|i: int| 0 <= i < r@.len() implies dv[i] == r@[i]@ by {}
        if fence_lines(lines_of(text@)) % 2 == 0 {
            assert forall|i: int| 0 <= i < r@.len() implies !(#[trigger] r@[i].severity is Error) by {
                assert(dv[i] == r@[i]@);
                assert(dv.contains(dv[i]));
                assert(ld.to_multiset().count(dv[i]) > 0);
                let m = choose|m: int| 0 <= m < ld.len() && ld[m] == dv[i];
                assert(!(ld[m].severity is Error));
            }
        }
        if fence_lines(lines_of(text@)) % 2 == 1 {
            let l = choose|l: int|
                1 <= l <= lines_of(text@).len() && has_prefix(trim(lines_of(text@)[l - 1]), "```"@) && (forall|k: int|
                    l <= k < lines_of(text@).len() ==> !has_prefix(trim(#[trigger] lines_of(text@)[k]), "```"@))
                    && #[trigger] ld.contains(DiagModel { line: l, severity: MarkdownDiagnosticSeverity::Error, message: "unclosed code fence"@ });
            let e = DiagModel { line: l, severity: MarkdownDiagnosticSeverity::Error, message: "unclosed code fence"@ };
            assert(ld.to_multiset().count(e) > 0);
            assert(dv.contains(e));
            let i = choose|i: int| 0 <= i < dv.len() && dv[i] == e;
            assert(r@[i]@ == e);
        }
    }
    r
}

/// `base` and `extra` together, in diagnostics order.
pub fn merge_diagnostics(base: Vec<MarkdownDiagnostic>, extra: Vec<MarkdownDiagnostic>) -> (r: Vec<MarkdownDiagnostic>)
    ensures
        diags_sorted(diag_views(r@)),
        diag_views(r@).to_multiset() == (diag_views(base@) + diag_views(extra@)).to_multiset(),
{
    let mut all = base;
    let mut extra = extra;
    let ghost a = diag_views(all@);
    let ghost b = diag_views(extra@);
    all.append(&mut extra);
    assert(diag_views(all@) =~= a + b);
    sort_diagnostics(all)
}

/// The lint findings together with each provider's, in diagnostics order: each provider is
/// asked once, in order, and everything it gives is kept.
pub fn lint_markdown_with_providers(text: &str, providers: &[&dyn MarkdownDiagnosticsProvider]) -> (r: Vec<MarkdownDiagnostic>)
    ensures
        diags_sorted(diag_views(r@)),
        lint_diagnostics(text@).to_multiset().subset_of(diag_views(r@).to_multiset()),
        exists|outs: Seq<Seq<MarkdownDiagnostic>>|
            outs.len() == providers@.len() && (forall|i: int| 0 <= i < outs.len() ==> providers@[i].provides(text@, #[trigger] outs[i]))
                && diag_views(r@).to_multiset() == (lint_diagnostics(text@) + diag_views(outs.flatten())).to_multiset(),
{
    let mut extra: Vec<MarkdownDiagnostic> = Vec::new();
    let ghost mut outs: Seq<Seq<MarkdownDiagnostic>> = Seq::empty();
    let mut i: usize = 0;
    assert(outs.flatten() =~= Seq::<MarkdownDiagnostic>::empty());
    while i < providers.len()
        invariant
            i <= providers.len(),
            outs.len() == i,
            forall|k: int| 0 <= k < i ==> providers@[k].provides(text@, #[trigger] outs[k]),
            extra@ == outs.flatten(),
        decreases providers.len() - i,
    {
        let mut more = providers[i].provide(text);
        let ghost got = more@;
        let ghost before = extra@;
        extra.append(&mut more);
        proof {
            outs.lemma_flatten_push(got);
            outs = outs.push(got);
        }
        assert(extra@ =~= outs.flatten());
        i += 1;
    }
    let base = lint_markdown(text);
    let r = merge_diagnostics(base, extra);
    proof {
        vstd::seq_lib::lemma_multiset_commutative(diag_views(base@), diag_views(extra@));
        vstd::seq_lib::lemma_multiset_commutative(lint_diagnostics(text@), diag_views(extra@));
        vstd::seq_lib::lemma_multiset_commutative(diag_views(base@), diag_views(extra@));
        assert(diag_views(r@).to_multiset() == (lint_diagnostics(text@) + diag_views(outs.flatten())).to_multiset());
    }
    r
}

} // verus!
