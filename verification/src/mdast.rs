//! The parsed Markdown tree, as the formatters and the analysis read it.
//!
//! Parsing is done by `markdown` (markdown-rs), whose syntax tree mirrors
//! mdast and carries byte offsets for every node. The library flattens that
//! tree into a pre-order vector of [`MdNode`]s: each node records its kind,
//! the fields the features read (URL, identifier, literal text, list
//! attributes, heading level), its position, and the number of nodes in its
//! subtree, so the subtree of node `i` is exactly `nodes[i .. i + size]`.

use vstd::prelude::*;
use markdown::mdast::Node;

verus! {

#[verifier::external_type_specification]
#[verifier::external_body]
pub struct ExMarkdownNode(markdown::mdast::Node);

/// The kinds of node the features distinguish; everything else is `Other`.
#[derive(Clone, Copy, PartialEq, Eq, Structural)]
pub enum MdKind {
    Heading,
    List,
    ListItem,
    Code,
    Blockquote,
    Table,
    Yaml,
    Toml,
    Link,
    Image,
    Definition,
    LinkReference,
    ImageReference,
    Text,
    InlineCode,
    Other,
}

/// A node's source span: 1-based lines and columns, 0-based byte offsets.
#[derive(Clone, Copy, PartialEq, Eq, Structural)]
pub struct MdPos {
    pub start_line: usize,
    pub start_column: usize,
    pub start: usize,
    pub end_line: usize,
    pub end_column: usize,
    pub end: usize,
}

/// One node of the flattened tree.
pub struct MdNode {
    pub kind: MdKind,
    /// Number of nodes in this node's subtree, itself included.
    pub size: usize,
    pub pos: Option<MdPos>,
    /// Destination of a link, image or definition (empty otherwise).
    pub url: String,
    /// Normalised identifier of a reference or definition (empty otherwise).
    pub identifier: String,
    /// Literal text of a text or inline-code node (empty otherwise).
    pub value: String,
    /// Whether a list is ordered (false otherwise).
    pub ordered: bool,
    /// First number of an ordered list.
    pub start_number: Option<u32>,
    /// Heading level, 1-6 (0 otherwise).
    pub level: u8,
}

/// The mathematical value of an [`MdNode`].
pub struct MdNodeV {
    pub kind: MdKind,
    pub size: nat,
    pub pos: Option<MdPos>,
    pub url: Seq<char>,
    pub identifier: Seq<char>,
    pub value: Seq<char>,
    pub ordered: bool,
    pub start_number: Option<u32>,
    pub level: u8,
}

impl View for MdNode {
    type V = MdNodeV;

    open spec fn view(&self) -> MdNodeV {
        MdNodeV {
            kind: self.kind,
            size: self.size as nat,
            pos: self.pos,
            url: self.url@,
            identifier: self.identifier@,
            value: self.value@,
            ordered: self.ordered,
            start_number: self.start_number,
            level: self.level,
        }
    }
}

/// The views of a vector of nodes.
pub open spec fn nodes_view(v: Seq<MdNode>) -> Seq<MdNodeV> {
    Seq::new(v.len(), |i: int| v[i]@)
}

/// The pre-order listing of the subtree rooted at `n`: the root first, then
/// the listing of each child in order. The `size` of the first entry is the
/// length of the listing; fields that a node's kind does not carry are empty,
/// `false`, `None` or zero.
pub uninterp spec fn md_items(n: Node) -> Seq<MdNodeV>;

/// The listings of the trees `cs`, one after another.
pub open spec fn concat_items(cs: Seq<Node>) -> Seq<MdNodeV>
    decreases cs.len(),
{
    if cs.len() == 0 {
        Seq::empty()
    } else {
        concat_items(cs.drop_last()) + md_items(cs.last())
    }
}

/// The listing of the document tree that `markdown::to_mdast` builds for
/// `source` (GFM constructs when `gfm`, front matter always), or `None` when
/// it reports an error.
pub uninterp spec fn mdast_of(source: Seq<char>, gfm: bool) -> Option<Seq<MdNodeV>>;

/// Parses `source` with `markdown::to_mdast`, using `ParseOptions::gfm()` when
/// `gfm` and `ParseOptions::default()` otherwise, with front matter enabled.
/// Claimed: on success the tree's listing is [`mdast_of`] of the arguments,
/// and an error yields `None` exactly when [`mdast_of`] is `None`.
#[verifier::external_body]
fn md_parse(source: &str, gfm: bool) -> (r: Option<Node>)
    ensures
        match r {
            Some(t) => mdast_of(source@, gfm) == Some(md_items(t)),
            None => mdast_of(source@, gfm) is None,
        },
{
    let mut opts = if gfm {
        markdown::ParseOptions::gfm()
    } else {
        markdown::ParseOptions::default()
    };
    opts.constructs.frontmatter = true;
    markdown::to_mdast(source, &opts).ok()
}

/// The children of `n` (`Node::children`, empty for leaf kinds). Claimed: the
/// listing of `n` is its own entry followed by its children's listings, and
/// that entry's `size` is the listing's length.
#[verifier::external_body]
fn md_children(n: &Node) -> (r: &[Node])
    ensures
        md_items(*n) == seq![md_items(*n)[0]] + concat_items(r@),
        md_items(*n)[0].size == 1 + concat_items(r@).len(),
{
    match n.children() {
        Some(c) => c.as_slice(),
        None => &[],
    }
}

/// The span of `n` (`Node::position`), as its entry records.
#[verifier::external_body]
fn md_position(n: &Node) -> (r: Option<MdPos>)
    ensures
        r == md_items(*n)[0].pos,
{
    n.position().map(
        |p|
            MdPos {
                start_line: p.start.line,
                start_column: p.start.column,
                start: p.start.offset,
                end_line: p.end.line,
                end_column: p.end.column,
                end: p.end.offset,
            },
    )
}

/// The level of a heading node (`Heading::depth`).
#[verifier::external_body]
fn md_heading_level(n: &Node) -> (r: Option<u8>)
    ensures
        (r is Some) == (md_items(*n)[0].kind == MdKind::Heading),
        r matches Some(d) ==> d == md_items(*n)[0].level,
        r is None ==> md_items(*n)[0].level == 0,
{
    match n {
        Node::Heading(h) => Some(h.depth),
        _ => None,
    }
}

/// Whether a list node is ordered, and its start number (`List::ordered`,
/// `List::start`).
#[verifier::external_body]
fn md_list_attrs(n: &Node) -> (r: Option<(bool, Option<u32>)>)
    ensures
        (r is Some) == (md_items(*n)[0].kind == MdKind::List),
        r matches Some(a) ==> a.0 == md_items(*n)[0].ordered && a.1 == md_items(
            *n,
        )[0].start_number,
        r is None ==> !md_items(*n)[0].ordered && md_items(*n)[0].start_number is None,
{
    match n {
        Node::List(l) => Some((l.ordered, l.start)),
        _ => None,
    }
}

/// The destination of a link, image or definition node (their `url` field).
#[verifier::external_body]
fn md_url(n: &Node) -> (r: Option<(MdKind, String)>)
    ensures
        (r is Some) == (md_items(*n)[0].kind == MdKind::Link || md_items(*n)[0].kind
            == MdKind::Image || md_items(*n)[0].kind == MdKind::Definition),
        r matches Some(u) ==> u.0 == md_items(*n)[0].kind && u.1@ == md_items(*n)[0].url,
        r is None ==> md_items(*n)[0].url.len() == 0,
{
    match n {
        Node::Link(l) => Some((MdKind::Link, l.url.clone())),
        Node::Image(i) => Some((MdKind::Image, i.url.clone())),
        Node::Definition(d) => Some((MdKind::Definition, d.url.clone())),
        _ => None,
    }
}

/// The identifier of a reference or definition node (their `identifier`
/// field).
#[verifier::external_body]
fn md_identifier(n: &Node) -> (r: Option<String>)
    ensures
        (r is Some) == (md_items(*n)[0].kind == MdKind::LinkReference || md_items(*n)[0].kind
            == MdKind::ImageReference || md_items(*n)[0].kind == MdKind::Definition),
        r matches Some(s) ==> s@ == md_items(*n)[0].identifier,
        r is None ==> md_items(*n)[0].identifier.len() == 0,
{
    match n {
        Node::LinkReference(r) => Some(r.identifier.clone()),
        Node::ImageReference(r) => Some(r.identifier.clone()),
        Node::Definition(d) => Some(d.identifier.clone()),
        _ => None,
    }
}

/// Tells apart link references from image references.
#[verifier::external_body]
fn md_is_image_reference(n: &Node) -> (r: bool)
    ensures
        r == (md_items(*n)[0].kind == MdKind::ImageReference),
{
    matches!(n, Node::ImageReference(_))
}

/// The literal of a text or inline-code node (their `value` field).
#[verifier::external_body]
fn md_literal(n: &Node) -> (r: Option<(MdKind, String)>)
    ensures
        (r is Some) == (md_items(*n)[0].kind == MdKind::Text || md_items(*n)[0].kind
            == MdKind::InlineCode),
        r matches Some(u) ==> u.0 == md_items(*n)[0].kind && u.1@ == md_items(*n)[0].value,
        r is None ==> md_items(*n)[0].value.len() == 0,
{
    match n {
        Node::Text(t) => Some((MdKind::Text, t.value.clone())),
        Node::InlineCode(c) => Some((MdKind::InlineCode, c.value.clone())),
        _ => None,
    }
}

/// The block kind of list-item, code, block-quote, table and front-matter
/// nodes.
#[verifier::external_body]
fn md_block_kind(n: &Node) -> (r: Option<MdKind>)
    ensures
        (r is Some) == (md_items(*n)[0].kind == MdKind::ListItem || md_items(*n)[0].kind
            == MdKind::Code || md_items(*n)[0].kind == MdKind::Blockquote || md_items(*n)[0].kind
            == MdKind::Table || md_items(*n)[0].kind == MdKind::Yaml || md_items(*n)[0].kind
            == MdKind::Toml),
        r matches Some(k) ==> k == md_items(*n)[0].kind,
{
    match n {
        Node::ListItem(_) => Some(MdKind::ListItem),
        Node::Code(_) => Some(MdKind::Code),
        Node::Blockquote(_) => Some(MdKind::Blockquote),
        Node::Table(_) => Some(MdKind::Table),
        Node::Yaml(_) => Some(MdKind::Yaml),
        Node::Toml(_) => Some(MdKind::Toml),
        _ => None,
    }
}

/// Each tree's listing lies within the concatenation of the listings.
proof fn lemma_concat_items_part(cs: Seq<Node>, j: int)
    requires
        0 <= j < cs.len(),
    ensures
        md_items(cs[j]).len() <= concat_items(cs).len(),
    decreases cs.len(),
{
    if j < cs.len() - 1 {
        lemma_concat_items_part(cs.drop_last(), j);
    }
}

/// The entry of `n` itself, with the given subtree size.
fn node_head(n: &Node, size: usize) -> (r: MdNode)
    ensures
        r@ == (MdNodeV { size: size as nat, ..md_items(*n)[0] }),
{
    let ghost h = md_items(*n)[0];
    let pos = md_position(n);
    let mut kind = MdKind::Other;
    let mut url = String::new();
    let mut identifier = String::new();
    let mut value = String::new();
    let mut ordered = false;
    let mut start_number: Option<u32> = None;
    let mut level: u8 = 0;
    let lv = md_heading_level(n);
    if let Some(d) = lv {
        kind = MdKind::Heading;
        level = d;
    }
    let la = md_list_attrs(n);
    if let Some(a) = la {
        kind = MdKind::List;
        ordered = a.0;
        start_number = a.1;
    }
    let u = md_url(n);
    if let Some(pair) = u {
        kind = pair.0;
        url = pair.1;
    }
    let id = md_identifier(n);
    if let Some(s) = id {
        identifier = s;
        if md_is_image_reference(n) {
            kind = MdKind::ImageReference;
        } else if kind != MdKind::Definition {
            kind = MdKind::LinkReference;
        }
    }
    let lit = md_literal(n);
    if let Some(pair) = lit {
        kind = pair.0;
        value = pair.1;
    }
    let bk = md_block_kind(n);
    if let Some(k) = bk {
        kind = k;
    }
    proof {
        assert(url@ == h.url);
        assert(identifier@ == h.identifier);
        assert(value@ == h.value);
    }
    MdNode { kind, size, pos, url, identifier, value, ordered, start_number, level }
}

/// Appends the pre-order listing of the subtree rooted at `n` to `out`.
fn flatten_into(n: &Node, out: &mut Vec<MdNode>)
    ensures
        nodes_view(final(out)@) == nodes_view(old(out)@) + md_items(*n),
    decreases md_items(*n).len(),
{
    let children = md_children(n);
    let ghost cs = children@;
    let mut sub: Vec<MdNode> = Vec::new();
    let mut j: usize = 0;
    assert(cs.take(0) =~= Seq::<Node>::empty());
    assert(nodes_view(sub@) =~= Seq::<MdNodeV>::empty());
    while j < children.len()
        invariant
            cs == children@,
            j <= cs.len(),
            md_items(*n) == seq![md_items(*n)[0]] + concat_items(cs),
            nodes_view(sub@) == concat_items(cs.take(j as int)),
        decreases cs.len() - j,
    {
        proof {
            lemma_concat_items_part(cs, j as int);
        }
        let ghost before = sub@;
        flatten_into(&children[j], &mut sub);
        proof {
            assert(cs.take(j + 1).drop_last() =~= cs.take(j as int));
            assert(cs.take(j + 1).last() == cs[j as int]);
        }
        j += 1;
    }
    assert(cs.take(cs.len() as int) =~= cs);
    let ghost h = md_items(*n)[0];
    let ghost subv = sub@;
    let mut tree: Vec<MdNode> = Vec::new();
    tree.push(node_head(n, 0));
    tree.append(&mut sub);
    let size = tree.len();
    tree[0].size = size;
    assert(tree@[0]@ == h);
    assert(tree@.subrange(1, tree@.len() as int) =~= subv);
    out.append(&mut tree);
    assert(nodes_view(out@) =~= nodes_view(old(out)@) + md_items(*n));
}

/// The flattened tree of `source`; empty when the parser reports an error.
pub open spec fn parsed(source: Seq<char>, gfm: bool) -> Seq<MdNodeV> {
    match mdast_of(source, gfm) {
        Some(t) => t,
        None => Seq::empty(),
    }
}

/// Parses `source` (GFM constructs when `gfm`, front matter always) and
/// flattens the tree in pre-order.
pub fn parse_markdown(source: &str, gfm: bool) -> (r: Vec<MdNode>)
    ensures
        nodes_view(r@) == parsed(source@, gfm),
{
    let mut out: Vec<MdNode> = Vec::new();
    match md_parse(source, gfm) {
        Some(tree) => {
            flatten_into(&tree, &mut out);
            assert(nodes_view(out@) =~= md_items(tree));
        },
        None => {
            assert(nodes_view(out@) =~= Seq::<MdNodeV>::empty());
        },
    }
    out
}

/// One past the last node of the subtree of node `i`, clipped to `lim`.
pub open spec fn subtree_end(ns: Seq<MdNodeV>, i: int, lim: int) -> int {
    let e = if ns[i].size >= 1 {
        i + ns[i].size
    } else {
        i + 1
    };
    if e < lim {
        e
    } else {
        lim
    }
}

/// One past the last node of the subtree of node `i`, clipped to `lim`.
pub fn subtree_end_of(ns: &Vec<MdNode>, i: usize, lim: usize) -> (r: usize)
    requires
        i < lim <= ns@.len(),
    ensures
        r == subtree_end(nodes_view(ns@), i as int, lim as int),
        i < r <= lim,
{
    let size = ns[i].size;
    if size >= 1 {
        if size < lim - i {
            i + size
        } else {
            lim
        }
    } else {
        i + 1
    }
}

} // verus!
