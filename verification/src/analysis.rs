//! A document's analysis: the headings, foldable blocks, link destinations,
//! reference usages and definitions that the editor features read, each with
//! its byte span (or zero-based line span). It is derived from the flattened
//! parse tree (GFM and front matter enabled) in document order, headings then
//! stably sorted by line.

use vstd::prelude::*;
use vstd::string::StringSliceAdditionalSpecFns;
use crate::mdast::{
    nodes_view, parse_markdown, parsed, subtree_end, subtree_end_of, MdKind, MdNode, MdNodeV,
    MdPos,
};

verus! {

/// Kinds of foldable block.
#[derive(Debug, Clone, Copy, PartialEq, Eq, Structural)]
pub enum BlockKind {
    List,
    ListItem,
    Code,
    BlockQuote,
    Table,
    FrontMatter,
}

/// A heading, used for section folding and the document outline.
#[derive(Debug, Clone)]
pub struct HeadingInfo {
    /// Heading level, 1-6.
    pub level: u8,
    /// Plain-text content of the heading.
    pub text: String,
    /// Zero-based line of the heading.
    pub start_line: usize,
    /// Byte range of the whole heading node.
    pub start_byte: usize,
    pub end_byte: usize,
}

/// A foldable block with its zero-based line span.
#[derive(Debug, Clone, Copy, PartialEq, Eq, Structural)]
pub struct BlockInfo {
    pub kind: BlockKind,
    pub start_line: usize,
    pub end_line: usize,
}

/// A link, image or definition destination with the byte span of the URL.
#[derive(Debug, Clone)]
pub struct LinkTarget {
    pub url: String,
    pub start_byte: usize,
    pub end_byte: usize,
    pub is_image: bool,
    /// Byte span of the whole link, image or definition node.
    pub node_start: usize,
    pub node_end: usize,
}

/// A reference-style usage: `[text][id]`, `[text][]` or the shortcut `[id]`.
#[derive(Debug, Clone)]
pub struct RefUsage {
    /// Normalised identifier (matches the corresponding [`DefInfo`]).
    pub identifier: String,
    /// Byte span of the whole reference node.
    pub start_byte: usize,
    pub end_byte: usize,
    pub is_image: bool,
}

/// A link reference definition: `[id]: url "title"`.
#[derive(Debug, Clone)]
pub struct DefInfo {
    /// Normalised identifier.
    pub identifier: String,
    pub url: String,
    /// Byte span of the whole definition node.
    pub start_byte: usize,
    pub end_byte: usize,
    /// Byte span of the destination within the definition.
    pub url_start: usize,
    pub url_end: usize,
}

/// Everything the features read of one version of a document.
#[derive(Debug, Clone)]
pub struct Analysis {
    pub version: i32,
    pub headings: Vec<HeadingInfo>,
    pub blocks: Vec<BlockInfo>,
    pub link_targets: Vec<LinkTarget>,
    pub references: Vec<RefUsage>,
    pub definitions: Vec<DefInfo>,
}

pub struct HeadingV {
    pub level: u8,
    pub text: Seq<char>,
    pub start_line: usize,
    pub start_byte: usize,
    pub end_byte: usize,
}

pub struct LinkTargetV {
    pub url: Seq<char>,
    pub start_byte: usize,
    pub end_byte: usize,
    pub is_image: bool,
    pub node_start: usize,
    pub node_end: usize,
}

pub struct RefUsageV {
    pub identifier: Seq<char>,
    pub start_byte: usize,
    pub end_byte: usize,
    pub is_image: bool,
}

pub struct DefInfoV {
    pub identifier: Seq<char>,
    pub url: Seq<char>,
    pub start_byte: usize,
    pub end_byte: usize,
    pub url_start: usize,
    pub url_end: usize,
}

pub struct AnalysisV {
    pub version: i32,
    pub headings: Seq<HeadingV>,
    pub blocks: Seq<BlockInfo>,
    pub link_targets: Seq<LinkTargetV>,
    pub references: Seq<RefUsageV>,
    pub definitions: Seq<DefInfoV>,
}

impl View for HeadingInfo {
    type V = HeadingV;

    open spec fn view(&self) -> HeadingV {
        HeadingV {
            level: self.level,
            text: self.text@,
            start_line: self.start_line,
            start_byte: self.start_byte,
            end_byte: self.end_byte,
        }
    }
}

impl View for LinkTarget {
    type V = LinkTargetV;

    open spec fn view(&self) -> LinkTargetV {
        LinkTargetV {
            url: self.url@,
            start_byte: self.start_byte,
            end_byte: self.end_byte,
            is_image: self.is_image,
            node_start: self.node_start,
            node_end: self.node_end,
        }
    }
}

impl View for RefUsage {
    type V = RefUsageV;

    open spec fn view(&self) -> RefUsageV {
        RefUsageV {
            identifier: self.identifier@,
            start_byte: self.start_byte,
            end_byte: self.end_byte,
            is_image: self.is_image,
        }
    }
}

impl View for DefInfo {
    type V = DefInfoV;

    open spec fn view(&self) -> DefInfoV {
        DefInfoV {
            identifier: self.identifier@,
            url: self.url@,
            start_byte: self.start_byte,
            end_byte: self.end_byte,
            url_start: self.url_start,
            url_end: self.url_end,
        }
    }
}

impl View for Analysis {
    type V = AnalysisV;

    open spec fn view(&self) -> AnalysisV {
        AnalysisV {
            version: self.version,
            headings: Seq::new(self.headings@.len(), |i: int| self.headings@[i]@),
            blocks: self.blocks@,
            link_targets: Seq::new(self.link_targets@.len(), |i: int| self.link_targets@[i]@),
            references: Seq::new(self.references@.len(), |i: int| self.references@[i]@),
            definitions: Seq::new(self.definitions@.len(), |i: int| self.definitions@[i]@),
        }
    }
}

impl Default for Analysis {
    fn default() -> (r: Analysis)
        ensures
            r@ == (AnalysisV {
                version: 0,
                headings: Seq::empty(),
                blocks: Seq::empty(),
                link_targets: Seq::empty(),
                references: Seq::empty(),
                definitions: Seq::empty(),
            }),
    {
        let r = Analysis {
            version: 0,
            headings: Vec::new(),
            blocks: Vec::new(),
            link_targets: Vec::new(),
            references: Vec::new(),
            definitions: Vec::new(),
        };
        assert(r@.headings =~= Seq::<HeadingV>::empty());
        assert(r@.link_targets =~= Seq::<LinkTargetV>::empty());
        assert(r@.references =~= Seq::<RefUsageV>::empty());
        assert(r@.definitions =~= Seq::<DefInfoV>::empty());
        r
    }
}

/// The values `f(0), .., f(n - 1)` that are present, in order.
pub open spec fn gather<T>(f: spec_fn(int) -> Option<T>, n: int) -> Seq<T>
    decreases n,
{
    if n <= 0 {
        Seq::empty()
    } else {
        gather(f, n - 1) + match f(n - 1) {
            Some(x) => seq![x],
            None => Seq::empty(),
        }
    }
}

/// `n - 1`, not below zero.
pub open spec fn line_index(n: usize) -> usize {
    if n == 0 {
        0
    } else {
        (n - 1) as usize
    }
}

/// The zero-based line span of a node. A span that ends at column 1 of a
/// later line stops on the line before, so no trailing blank line is folded.
pub open spec fn line_range(p: MdPos) -> (usize, usize) {
    let start = line_index(p.start_line);
    let end = line_index(p.end_line);
    if p.end_column == 1 && end > start {
        (start, (end - 1) as usize)
    } else {
        (start, end)
    }
}

/// The literal text of the nodes `[i, e)`, concatenated.
pub open spec fn texts(ns: Seq<MdNodeV>, i: int, e: int) -> Seq<char>
    decreases e - i,
{
    if e <= i {
        Seq::empty()
    } else {
        texts(ns, i, e - 1) + ns[e - 1].value
    }
}

/// The visible text of node `i`: the text and inline code of its subtree.
pub open spec fn visible_text(ns: Seq<MdNodeV>, i: int) -> Seq<char> {
    texts(ns, i, subtree_end(ns, i, ns.len() as int))
}

/// The last of the children of a node from `k` on, within `[k, e)`; `acc`
/// when there is none.
pub open spec fn last_child_from(ns: Seq<MdNodeV>, k: int, e: int, acc: Option<int>) -> Option<
    int,
>
    decreases e - k,
{
    if k < 0 || k >= e {
        acc
    } else {
        last_child_from(ns, subtree_end(ns, k, e), e, Some(k))
    }
}

/// The end of the last child of node `i`, when it has one with a position.
pub open spec fn label_end(ns: Seq<MdNodeV>, i: int) -> Option<usize> {
    match last_child_from(ns, i + 1, subtree_end(ns, i, ns.len() as int), None) {
        Some(c) => match ns[c].pos {
            Some(p) => Some(p.end),
            None => None,
        },
        None => None,
    }
}

/// The last position `r <= from` at which `nd` occurs in `h`.
pub open spec fn match_back(h: Seq<u8>, nd: Seq<u8>, r: int) -> Option<int>
    decreases r + 1,
{
    if r < 0 {
        None
    } else if r + nd.len() <= h.len() && h.subrange(r, r + nd.len()) == nd {
        Some(r)
    } else {
        match_back(h, nd, r - 1)
    }
}

/// The start of the last occurrence of `nd` in `h`.
pub open spec fn last_match(h: Seq<u8>, nd: Seq<u8>) -> Option<int> {
    match_back(h, nd, h.len() - nd.len())
}

/// `x` clamped to `[lo, hi]`.
pub open spec fn clamp(x: usize, lo: usize, hi: usize) -> usize {
    if x < lo {
        lo
    } else if x > hi {
        hi
    } else {
        x
    }
}

/// The byte span of the destination `url` inside a node of the text `b`: its
/// last occurrence after `search_from` (the node start when absent), or the
/// whole node when it cannot be found.
pub open spec fn url_span(b: Seq<u8>, p: MdPos, url: Seq<u8>, search_from: Option<usize>) -> (
    usize,
    usize,
) {
    let node_start = p.start;
    let node_end = if p.end < b.len() {
        p.end
    } else {
        b.len() as usize
    };
    let from = clamp(
        match search_from {
            Some(x) => x,
            None => node_start,
        },
        node_start,
        node_end,
    );
    if url.len() == 0 || from >= node_end {
        (node_start, node_end)
    } else {
        match last_match(b.subrange(from as int, node_end as int), url) {
            Some(r) => ((from + r) as usize, (from + r + url.len()) as usize),
            None => (node_start, node_end),
        }
    }
}

/// The heading recorded for node `i`.
pub open spec fn heading_at(ns: Seq<MdNodeV>, i: int) -> Option<HeadingV> {
    if ns[i].kind == MdKind::Heading && ns[i].pos is Some {
        let p = ns[i].pos.unwrap();
        Some(
            HeadingV {
                level: ns[i].level,
                text: visible_text(ns, i),
                start_line: line_range(p).0,
                start_byte: p.start,
                end_byte: p.end,
            },
        )
    } else {
        None
    }
}

/// The block kind of a node kind, for the foldable ones.
pub open spec fn block_kind_of(k: MdKind) -> Option<BlockKind> {
    match k {
        MdKind::List => Some(BlockKind::List),
        MdKind::ListItem => Some(BlockKind::ListItem),
        MdKind::Code => Some(BlockKind::Code),
        MdKind::Blockquote => Some(BlockKind::BlockQuote),
        MdKind::Table => Some(BlockKind::Table),
        MdKind::Yaml => Some(BlockKind::FrontMatter),
        MdKind::Toml => Some(BlockKind::FrontMatter),
        _ => None,
    }
}

/// The block recorded for node `i`.
pub open spec fn block_at(ns: Seq<MdNodeV>, i: int) -> Option<BlockInfo> {
    match block_kind_of(ns[i].kind) {
        Some(kind) => match ns[i].pos {
            Some(p) => Some(
                BlockInfo { kind, start_line: line_range(p).0, end_line: line_range(p).1 },
            ),
            None => None,
        },
        None => None,
    }
}

/// The destination recorded for node `i` of the text `b`.
pub open spec fn link_target_at(b: Seq<u8>, ns: Seq<MdNodeV>, i: int) -> Option<LinkTargetV> {
    let k = ns[i].kind;
    if (k == MdKind::Link || k == MdKind::Image || k == MdKind::Definition) && ns[i].pos is Some {
        let p = ns[i].pos.unwrap();
        let from = if k == MdKind::Link {
            label_end(ns, i)
        } else {
            None
        };
        let span = url_span(b, p, vstd::utf8::encode_utf8(ns[i].url), from);
        Some(
            LinkTargetV {
                url: ns[i].url,
                start_byte: span.0,
                end_byte: span.1,
                is_image: k == MdKind::Image,
                node_start: p.start,
                node_end: p.end,
            },
        )
    } else {
        None
    }
}

/// The reference usage recorded for node `i`.
pub open spec fn reference_at(ns: Seq<MdNodeV>, i: int) -> Option<RefUsageV> {
    let k = ns[i].kind;
    if (k == MdKind::LinkReference || k == MdKind::ImageReference) && ns[i].pos is Some {
        let p = ns[i].pos.unwrap();
        Some(
            RefUsageV {
                identifier: ns[i].identifier,
                start_byte: p.start,
                end_byte: p.end,
                is_image: k == MdKind::ImageReference,
            },
        )
    } else {
        None
    }
}

/// The definition recorded for node `i` of the text `b`.
pub open spec fn definition_at(b: Seq<u8>, ns: Seq<MdNodeV>, i: int) -> Option<DefInfoV> {
    if ns[i].kind == MdKind::Definition && ns[i].pos is Some {
        let p = ns[i].pos.unwrap();
        let span = url_span(b, p, vstd::utf8::encode_utf8(ns[i].url), None);
        Some(
            DefInfoV {
                identifier: ns[i].identifier,
                url: ns[i].url,
                start_byte: p.start,
                end_byte: p.end,
                url_start: span.0,
                url_end: span.1,
            },
        )
    } else {
        None
    }
}

/// Inserts `h` into `s` (ordered by line) after every heading on a line not
/// below its own.
pub open spec fn insert_by_line(s: Seq<HeadingV>, h: HeadingV) -> Seq<HeadingV>
    decreases s.len(),
{
    if s.len() == 0 {
        seq![h]
    } else if h.start_line < s[0].start_line {
        seq![h] + s
    } else {
        seq![s[0]] + insert_by_line(s.drop_first(), h)
    }
}

/// `hs` stably sorted by line.
pub open spec fn sort_by_line(hs: Seq<HeadingV>) -> Seq<HeadingV>
    decreases hs.len(),
{
    if hs.len() == 0 {
        Seq::empty()
    } else {
        insert_by_line(sort_by_line(hs.drop_last()), hs.last())
    }
}

/// The analysis of the text `text` at `version`.
pub open spec fn analysis_of(text: Seq<char>, version: i32) -> AnalysisV {
    analysis_of_tree(text, parsed(text, true), version)
}

/// The analysis of `text` read from its flattened parse tree `ns`.
pub open spec fn analysis_of_tree(text: Seq<char>, ns: Seq<MdNodeV>, version: i32) -> AnalysisV {
    let b = vstd::utf8::encode_utf8(text);
    let n = ns.len() as int;
    AnalysisV {
        version,
        headings: sort_by_line(gather(|i: int| heading_at(ns, i), n)),
        blocks: gather(|i: int| block_at(ns, i), n),
        link_targets: gather(|i: int| link_target_at(b, ns, i), n),
        references: gather(|i: int| reference_at(ns, i), n),
        definitions: gather(|i: int| definition_at(b, ns, i), n),
    }
}

/// The visible text of node `i` (see [`visible_text`]).
pub fn node_text(ns: &Vec<MdNode>, i: usize) -> (r: String)
    requires
        i < ns@.len(),
    ensures
        r@ == visible_text(nodes_view(ns@), i as int),
{
    let ghost nv = nodes_view(ns@);
    let e = subtree_end_of(ns, i, ns.len());
    let mut out = String::new();
    let mut k = i;
    assert(out@ =~= texts(nv, i as int, i as int));
    while k < e
        invariant
            i <= k <= e <= ns@.len(),
            nv == nodes_view(ns@),
            out@ == texts(nv, i as int, k as int),
        decreases e - k,
    {
        crate::text::extend_string(&mut out, ns[k].value.as_str());
        k += 1;
        assert(out@ =~= texts(nv, i as int, k as int));
    }
    out
}

/// The end of the last child of node `i` (see [`label_end`]).
pub(crate) fn last_child_end(ns: &Vec<MdNode>, i: usize) -> (r: Option<usize>)
    requires
        i < ns@.len(),
    ensures
        r == label_end(nodes_view(ns@), i as int),
{
    let ghost nv = nodes_view(ns@);
    let e = subtree_end_of(ns, i, ns.len());
    let mut last: Option<usize> = None;
    let mut k = i + 1;
    while k < e
        invariant
            i < k <= e <= ns@.len(),
            nv == nodes_view(ns@),
            last matches Some(c) ==> c < ns@.len(),
            last_child_from(nv, k as int, e as int, match last {
                Some(c) => Some(c as int),
                None => None,
            }) == last_child_from(nv, i + 1, e as int, None),
        decreases e - k,
    {
        last = Some(k);
        k = subtree_end_of(ns, k, e);
    }
    match last {
        Some(c) => match ns[c].pos {
            Some(p) => Some(p.end),
            None => None,
        },
        None => None,
    }
}

/// Whether `nd` occurs in `b` at `at`.
fn occurs_at(b: &[u8], nd: &[u8], at: usize) -> (r: bool)
    requires
        at + nd@.len() <= b@.len(),
    ensures
        r == (b@.subrange(at as int, at + nd@.len()) == nd@),
{
    let blen = b.len();
    let mut k: usize = 0;
    while k < nd.len()
        invariant
            k <= nd@.len(),
            at + nd@.len() <= b@.len(),
            b@.len() == blen,
            forall|x: int| 0 <= x < k ==> b@[at + x] == nd@[x],
        decreases nd@.len() - k,
    {
        if b[at + k] != nd[k] {
            assert(b@.subrange(at as int, at + nd@.len())[k as int] != nd@[k as int]);
            return false;
        }
        k += 1;
    }
    assert(b@.subrange(at as int, at + nd@.len()) =~= nd@);
    true
}

/// The byte span of a destination inside a node (see [`url_span`]).
fn find_url_span(b: &[u8], p: MdPos, url: &[u8], search_from: Option<usize>) -> (r: (
    usize,
    usize,
))
    ensures
        r == url_span(b@, p, url@, search_from),
{
    let node_start = p.start;
    let node_end = if p.end < b.len() {
        p.end
    } else {
        b.len()
    };
    let x = match search_from {
        Some(x) => x,
        None => node_start,
    };
    let from = if x < node_start {
        node_start
    } else if x > node_end {
        node_end
    } else {
        x
    };
    if url.len() == 0 || from >= node_end {
        return (node_start, node_end);
    }
    let hlen = node_end - from;
    let ghost h = b@.subrange(from as int, node_end as int);
    if url.len() > hlen {
        assert(match_back(h, url@, h.len() - url@.len()) == None::<int>);
        return (node_start, node_end);
    }
    let ghost expected = url_span(b@, p, url@, search_from);
    let ghost found = match_back(h, url@, h.len() - url@.len());
    assert(found matches Some(rr) ==> expected == ((from + rr) as usize, (from + rr + url@.len()) as usize));
    assert(found is None ==> expected == (node_start, node_end));
    let mut r = hlen - url.len();
    loop
        invariant
            found matches Some(rr) ==> expected == ((from + rr) as usize, (from + rr
                + url@.len()) as usize),
            found is None ==> expected == (node_start, node_end),
            expected == url_span(b@, p, url@, search_from),
            found == match_back(h, url@, h.len() - url@.len()),
            from < node_end <= b@.len(),
            hlen == node_end - from,
            h == b@.subrange(from as int, node_end as int),
            r + url@.len() <= hlen,
            match_back(h, url@, r as int) == match_back(h, url@, h.len() - url@.len()),
        decreases r,
    {
        if occurs_at(b, url, from + r) {
            assert(h.subrange(r as int, r + url@.len()) =~= b@.subrange(
                from + r,
                from + r + url@.len(),
            ));
            return (from + r, from + r + url.len());
        }
        assert(h.subrange(r as int, r + url@.len()) =~= b@.subrange(
            from + r,
            from + r + url@.len(),
        ));
        if r == 0 {
            assert(match_back(h, url@, -1) == None::<int>);
            return (node_start, node_end);
        }
        r -= 1;
    }
}

/// The zero-based line span of a position (see [`line_range`]).
fn lines_of(p: MdPos) -> (r: (usize, usize))
    ensures
        r == line_range(p),
{
    let start = if p.start_line == 0 {
        0
    } else {
        p.start_line - 1
    };
    let end = if p.end_line == 0 {
        0
    } else {
        p.end_line - 1
    };
    if p.end_column == 1 && end > start {
        (start, end - 1)
    } else {
        (start, end)
    }
}

/// The heading recorded for node `i` (see [`heading_at`]).
fn heading_of(ns: &Vec<MdNode>, i: usize) -> (r: Option<HeadingInfo>)
    requires
        i < ns@.len(),
    ensures
        match heading_at(nodes_view(ns@), i as int) {
            Some(h) => r matches Some(x) && x@ == h,
            None => r is None,
        },
{
    if ns[i].kind == MdKind::Heading && ns[i].pos.is_some() {
        let p = ns[i].pos.unwrap();
        Some(
            HeadingInfo {
                level: ns[i].level,
                text: node_text(ns, i),
                start_line: lines_of(p).0,
                start_byte: p.start,
                end_byte: p.end,
            },
        )
    } else {
        None
    }
}

/// The block recorded for node `i` (see [`block_at`]).
fn block_of(ns: &Vec<MdNode>, i: usize) -> (r: Option<BlockInfo>)
    requires
        i < ns@.len(),
    ensures
        r == block_at(nodes_view(ns@), i as int),
{
    let kind = match ns[i].kind {
        MdKind::List => BlockKind::List,
        MdKind::ListItem => BlockKind::ListItem,
        MdKind::Code => BlockKind::Code,
        MdKind::Blockquote => BlockKind::BlockQuote,
        MdKind::Table => BlockKind::Table,
        MdKind::Yaml => BlockKind::FrontMatter,
        MdKind::Toml => BlockKind::FrontMatter,
        _ => {
            return None;
        },
    };
    match ns[i].pos {
        Some(p) => {
            let (start_line, end_line) = lines_of(p);
            Some(BlockInfo { kind, start_line, end_line })
        },
        None => None,
    }
}

/// The destination recorded for node `i` (see [`link_target_at`]).
fn link_target_of(b: &[u8], ns: &Vec<MdNode>, i: usize) -> (r: Option<LinkTarget>)
    requires
        i < ns@.len(),
    ensures
        match link_target_at(b@, nodes_view(ns@), i as int) {
            Some(t) => r matches Some(x) && x@ == t,
            None => r is None,
        },
{
    let k = ns[i].kind;
    if (k == MdKind::Link || k == MdKind::Image || k == MdKind::Definition) && ns[i].pos.is_some() {
        let p = ns[i].pos.unwrap();
        let from = if k == MdKind::Link {
            last_child_end(ns, i)
        } else {
            None
        };
        let span = find_url_span(b, p, ns[i].url.as_str().as_bytes(), from);
        Some(
            LinkTarget {
                url: ns[i].url.clone(),
                start_byte: span.0,
                end_byte: span.1,
                is_image: k == MdKind::Image,
                node_start: p.start,
                node_end: p.end,
            },
        )
    } else {
        None
    }
}

/// The reference usage recorded for node `i` (see [`reference_at`]).
fn reference_of(ns: &Vec<MdNode>, i: usize) -> (r: Option<RefUsage>)
    requires
        i < ns@.len(),
    ensures
        match reference_at(nodes_view(ns@), i as int) {
            Some(u) => r matches Some(x) && x@ == u,
            None => r is None,
        },
{
    let k = ns[i].kind;
    if (k == MdKind::LinkReference || k == MdKind::ImageReference) && ns[i].pos.is_some() {
        let p = ns[i].pos.unwrap();
        Some(
            RefUsage {
                identifier: ns[i].identifier.clone(),
                start_byte: p.start,
                end_byte: p.end,
                is_image: k == MdKind::ImageReference,
            },
        )
    } else {
        None
    }
}

/// The definition recorded for node `i` (see [`definition_at`]).
fn definition_of(b: &[u8], ns: &Vec<MdNode>, i: usize) -> (r: Option<DefInfo>)
    requires
        i < ns@.len(),
    ensures
        match definition_at(b@, nodes_view(ns@), i as int) {
            Some(d) => r matches Some(x) && x@ == d,
            None => r is None,
        },
{
    if ns[i].kind == MdKind::Definition && ns[i].pos.is_some() {
        let p = ns[i].pos.unwrap();
        let span = find_url_span(b, p, ns[i].url.as_str().as_bytes(), None);
        Some(
            DefInfo {
                identifier: ns[i].identifier.clone(),
                url: ns[i].url.clone(),
                start_byte: p.start,
                end_byte: p.end,
                url_start: span.0,
                url_end: span.1,
            },
        )
    } else {
        None
    }
}

/// Inserting `h` at the first position whose heading lies on a later line is
/// `insert_by_line`.
proof fn lemma_insert_by_line_at(s: Seq<HeadingV>, h: HeadingV, i: int)
    requires
        0 <= i <= s.len(),
        forall|j: int| 0 <= j < i ==> !(h.start_line < (#[trigger] s[j]).start_line),
        i < s.len() ==> h.start_line < s[i].start_line,
    ensures
        insert_by_line(s, h) == s.insert(i, h),
    decreases s.len(),
{
    if s.len() == 0 {
        assert(s.insert(i, h) =~= seq![h]);
    } else if i == 0 {
        assert(s.insert(i, h) =~= seq![h] + s);
    } else {
        let t = s.drop_first();
        assert forall|j: int| 0 <= j < i - 1 implies !(h.start_line < (
        #[trigger] t[j]).start_line) by {
            assert(t[j] == s[j + 1]);
        }
        lemma_insert_by_line_at(t, h, i - 1);
        assert(s.insert(i, h) =~= seq![s[0]] + t.insert(i - 1, h));
    }
}

/// The views of a vector of headings.
pub open spec fn headings_view(v: Seq<HeadingInfo>) -> Seq<HeadingV> {
    Seq::new(v.len(), |i: int| v[i]@)
}

/// Inserts `h` into the line-ordered `hs` (see [`insert_by_line`]).
fn insert_heading(hs: &mut Vec<HeadingInfo>, h: HeadingInfo)
    ensures
        headings_view(final(hs)@) == insert_by_line(headings_view(old(hs)@), h@),
{
    let ghost cur = headings_view(hs@);
    let mut i: usize = 0;
    while i < hs.len()
        invariant
            i <= hs@.len(),
            cur == headings_view(hs@),
            forall|j: int| 0 <= j < i ==> !(h@.start_line < (#[trigger] cur[j]).start_line),
        ensures
            i <= hs@.len(),
            forall|j: int| 0 <= j < i ==> !(h@.start_line < (#[trigger] cur[j]).start_line),
            i < hs@.len() ==> h@.start_line < cur[i as int].start_line,
        decreases hs@.len() - i,
    {
        if h.start_line < hs[i].start_line {
            break;
        }
        i += 1;
    }
    proof {
        lemma_insert_by_line_at(cur, h@, i as int);
    }
    let ghost hv = h@;
    hs.insert(i, h);
    assert(headings_view(hs@) =~= cur.insert(i as int, hv));
}

/// Parses `text` (GFM and front matter) and builds its [`Analysis`], tagged
/// with `version`.
pub fn analyze(text: &str, version: i32) -> (r: Analysis)
    ensures
        r@ == analysis_of(text@, version),
{
    let ns = parse_markdown(text, true);
    analyze_tree(text, &ns, version)
}

/// Builds the [`Analysis`] of `text` from its flattened parse tree `ns`,
/// tagged with `version`.
pub fn analyze_tree(text: &str, ns: &Vec<MdNode>, version: i32) -> (r: Analysis)
    ensures
        r@ == analysis_of_tree(text@, nodes_view(ns@), version),
{
    let b = text.as_bytes();
    let ghost nv = nodes_view(ns@);
    let ghost bv = b@;
    let ghost fh = |i: int| heading_at(nv, i);
    let ghost fb = |i: int| block_at(nv, i);
    let ghost fl = |i: int| link_target_at(bv, nv, i);
    let ghost fr = |i: int| reference_at(nv, i);
    let ghost fd = |i: int| definition_at(bv, nv, i);
    let mut headings: Vec<HeadingInfo> = Vec::new();
    let mut blocks: Vec<BlockInfo> = Vec::new();
    let mut link_targets: Vec<LinkTarget> = Vec::new();
    let mut references: Vec<RefUsage> = Vec::new();
    let mut definitions: Vec<DefInfo> = Vec::new();
    let mut i: usize = 0;
    assert(headings_view(headings@) =~= sort_by_line(gather(fh, 0)));
    assert(Seq::new(link_targets@.len(), |k: int| link_targets@[k]@) =~= gather(fl, 0));
    assert(Seq::new(references@.len(), |k: int| references@[k]@) =~= gather(fr, 0));
    assert(Seq::new(definitions@.len(), |k: int| definitions@[k]@) =~= gather(fd, 0));
    while i < ns.len()
        invariant
            i <= ns@.len(),
            nv == nodes_view(ns@),
            bv == b@,
            fh == (|i: int| heading_at(nv, i)),
            fb == (|i: int| block_at(nv, i)),
            fl == (|i: int| link_target_at(bv, nv, i)),
            fr == (|i: int| reference_at(nv, i)),
            fd == (|i: int| definition_at(bv, nv, i)),
            headings_view(headings@) == sort_by_line(gather(fh, i as int)),
            blocks@ == gather(fb, i as int),
            Seq::new(link_targets@.len(), |k: int| link_targets@[k]@) == gather(fl, i as int),
            Seq::new(references@.len(), |k: int| references@[k]@) == gather(fr, i as int),
            Seq::new(definitions@.len(), |k: int| definitions@[k]@) == gather(fd, i as int),
        decreases ns@.len() - i,
    {
        let ghost g = gather(fh, i as int);
        match heading_of(ns, i) {
            Some(h) => {
                let ghost hv = h@;
                insert_heading(&mut headings, h);
                assert((g + seq![hv]).drop_last() =~= g);
                assert(gather(fh, i + 1) =~= g + seq![hv]);
            },
            None => {
                assert(gather(fh, i + 1) =~= g);
            },
        }
        match block_of(ns, i) {
            Some(x) => {
                blocks.push(x);
            },
            None => {},
        }
        assert(blocks@ =~= gather(fb, i + 1));
        let ghost lt = Seq::new(link_targets@.len(), |k: int| link_targets@[k]@);
        match link_target_of(b, ns, i) {
            Some(x) => {
                link_targets.push(x);
            },
            None => {},
        }
        assert(Seq::new(link_targets@.len(), |k: int| link_targets@[k]@) =~= gather(
            fl,
            i + 1,
        ));
        match reference_of(ns, i) {
            Some(x) => {
                references.push(x);
            },
            None => {},
        }
        assert(Seq::new(references@.len(), |k: int| references@[k]@) =~= gather(fr, i + 1));
        match definition_of(b, ns, i) {
            Some(x) => {
                definitions.push(x);
            },
            None => {},
        }
        assert(Seq::new(definitions@.len(), |k: int| definitions@[k]@) =~= gather(fd, i + 1));
        i += 1;
    }
    let r = Analysis { version, headings, blocks, link_targets, references, definitions };
    proof {
        let ns0 = nodes_view(ns@);
        let b0 = vstd::utf8::encode_utf8(text@);
        assert(fh =~= (|i: int| heading_at(ns0, i)));
        assert(fb =~= (|i: int| block_at(ns0, i)));
        assert(fl =~= (|i: int| link_target_at(b0, ns0, i)));
        assert(fr =~= (|i: int| reference_at(ns0, i)));
        assert(fd =~= (|i: int| definition_at(b0, ns0, i)));
        assert(r@.headings =~= headings_view(r.headings@));
    }
    r
}

} // verus!
