//! Broken-link diagnostics: which link and image destinations point at local
//! files (and where those files would be), the edit distance used to rank
//! replacement candidates, and the ranked replacements themselves. Whether a
//! file exists, and which files there are, is for the caller to find out.

use vstd::prelude::*;
use crate::analysis::{Analysis, LinkTarget, LinkTargetV};
use crate::config::DiagnosticsConfig;
use crate::links::{opt_chars, spec_local_target};
use crate::text::{seq_less, starts_with};
use crate::uri::spec_normalize;
use ropey::Rope;
use crate::encoding::{position_of_char, range_from_bytes, Position, PositionEncoding, Range};
use crate::rope::rope_text;
use crate::offsets::char_floor;
use crate::text::{lowercase, split_on};

verus! {

/// Whether one of the glob `patterns` (those `globset` accepts) matches
/// `path`, as `globset::GlobSet::is_match` decides it.
pub uninterp spec fn globs_match(patterns: Seq<Seq<char>>, path: Seq<char>) -> bool;

/// The views of a vector of strings.
pub open spec fn strings_view(v: Seq<String>) -> Seq<Seq<char>> {
    Seq::new(v.len(), |i: int| v[i]@)
}

/// Builds a `globset::GlobSet` from the patterns that `Glob::new` accepts and
/// asks `GlobSet::is_match` about `path` (no match when the set cannot be
/// built, as with an empty set). Claimed: the answer is [`globs_match`] of
/// the patterns and the path.
#[verifier::external_body]
fn ignored_by(patterns: &Vec<String>, path: &str) -> (r: bool)
    ensures
        r == globs_match(strings_view(patterns@), path@),
{
    let mut builder = globset::GlobSetBuilder::new();
    for p in patterns {
        if let Ok(g) = globset::Glob::new(p) {
            builder.add(g);
        }
    }
    builder.build().map(|set| set.is_match(path)).unwrap_or(false)
}

/// `s` without its leading slashes.
pub open spec fn trim_leading_slashes(s: Seq<char>) -> Seq<char>
    decreases s.len(),
{
    if s.len() > 0 && s[0] == '/' {
        trim_leading_slashes(s.drop_first())
    } else {
        s
    }
}

/// `rel` appended to the path `base` as a further component (an absolute
/// `rel` replaces it).
pub open spec fn join_path(base: Seq<char>, rel: Seq<char>) -> Seq<char> {
    if rel.len() > 0 && rel[0] == '/' {
        rel
    } else if base.len() > 0 && base.last() != '/' {
        base + seq!['/'] + rel
    } else {
        base + rel
    }
}

/// Where the local destination `local` points from the directory `base`.
pub open spec fn resolved_path(base: Seq<char>, local: Seq<char>) -> Seq<char> {
    spec_normalize(join_path(base, trim_leading_slashes(local)))
}

/// A local destination to look for on disk.
pub struct LinkCheck {
    /// The destination as written, decoded, without fragment or query.
    pub local: String,
    /// The normalised path it resolves to.
    pub resolved: String,
    /// Byte span of the destination in the document.
    pub start_byte: usize,
    pub end_byte: usize,
    /// The message to report when the file is missing.
    pub message: String,
}

pub struct LinkCheckV {
    pub local: Seq<char>,
    pub resolved: Seq<char>,
    pub start_byte: usize,
    pub end_byte: usize,
    pub message: Seq<char>,
}

impl View for LinkCheck {
    type V = LinkCheckV;

    open spec fn view(&self) -> LinkCheckV {
        LinkCheckV {
            local: self.local@,
            resolved: self.resolved@,
            start_byte: self.start_byte,
            end_byte: self.end_byte,
            message: self.message@,
        }
    }
}

/// `File does not exist: ` followed by the destination.
pub open spec fn missing_message(local: Seq<char>) -> Seq<char> {
    "File does not exist: "@ + local
}

/// The check for destination `t`: images only when `check_images`; only local
/// destinations that no ignore pattern matches; absolute ones resolved from
/// `root`, others from `doc_dir` (none without that directory).
pub open spec fn check_of(
    t: LinkTargetV,
    check_images: bool,
    ignore: Seq<Seq<char>>,
    doc_dir: Option<Seq<char>>,
    root: Option<Seq<char>>,
) -> Option<LinkCheckV> {
    if t.is_image && !check_images {
        None
    } else {
        match spec_local_target(t.url) {
            None => None,
            Some(local) => if globs_match(ignore, local) {
                None
            } else {
                let base = if local.len() > 0 && local[0] == '/' {
                    root
                } else {
                    doc_dir
                };
                match base {
                    None => None,
                    Some(b) => Some(
                        LinkCheckV {
                            local,
                            resolved: resolved_path(b, local),
                            start_byte: t.start_byte,
                            end_byte: t.end_byte,
                            message: missing_message(local),
                        },
                    ),
                }
            },
        }
    }
}

/// The checks of the first `n` destinations.
pub open spec fn checks_upto(
    ts: Seq<LinkTargetV>,
    check_images: bool,
    ignore: Seq<Seq<char>>,
    doc_dir: Option<Seq<char>>,
    root: Option<Seq<char>>,
    n: int,
) -> Seq<LinkCheckV>
    decreases n,
{
    if n <= 0 {
        Seq::empty()
    } else {
        checks_upto(ts, check_images, ignore, doc_dir, root, n - 1) + match check_of(
            ts[n - 1],
            check_images,
            ignore,
            doc_dir,
            root,
        ) {
            Some(c) => seq![c],
            None => Seq::empty(),
        }
    }
}

/// The string of an optional `&str`, as characters.
pub open spec fn opt_str(o: Option<&str>) -> Option<Seq<char>> {
    match o {
        Some(s) => Some(s@),
        None => None,
    }
}

/// `rel` joined to `base` (see [`join_path`]).
pub(crate) fn join_to(base: &str, rel: &[char]) -> (r: Vec<char>)
    ensures
        r@ == join_path(base@, rel@),
{
    let b = crate::text::chars_of(base);
    if rel.len() > 0 && rel[0] == '/' {
        return crate::text::slice_chars(rel, 0, rel.len());
    }
    let mut out = b;
    let n = out.len();
    if n > 0 && out[n - 1] != '/' {
        out.push('/');
    }
    crate::text::extend(&mut out, rel);
    out
}

/// `s` without its leading slashes.
pub(crate) fn strip_slashes(s: &[char]) -> (r: Vec<char>)
    ensures
        r@ == trim_leading_slashes(s@),
{
    let mut i: usize = 0;
    assert(s@.skip(0) =~= s@);
    while i < s.len() && s[i] == '/'
        invariant
            i <= s@.len(),
            trim_leading_slashes(s@.skip(i as int)) == trim_leading_slashes(s@),
        decreases s@.len() - i,
    {
        assert(s@.skip(i as int).drop_first() =~= s@.skip(i + 1));
        i += 1;
    }
    assert(s@.skip(i as int) =~= s@.subrange(i as int, s@.len() as int));
    crate::text::slice_chars(s, i, s.len())
}

/// The check for one destination (see [`check_of`]).
fn check_target(
    t: &LinkTarget,
    config: &DiagnosticsConfig,
    doc_dir: Option<&str>,
    root: Option<&str>,
) -> (r: Option<LinkCheck>)
    ensures
        match check_of(
            t@,
            config.check_images,
            strings_view(config.ignore@),
            opt_str(doc_dir),
            opt_str(root),
        ) {
            Some(c) => r matches Some(x) && x@ == c,
            None => r is None,
        },
{
    if t.is_image && !config.check_images {
        return None;
    }
    let local = match crate::links::local_target(t.url.as_str()) {
        Some(l) => l,
        None => {
            return None;
        },
    };
    if ignored_by(&config.ignore, local.as_str()) {
        return None;
    }
    let lc = crate::text::chars_of(local.as_str());
    let base = if lc.len() > 0 && lc[0] == '/' {
        root
    } else {
        doc_dir
    };
    match base {
        None => None,
        Some(b) => {
            let rel = strip_slashes(lc.as_slice());
            let joined = join_to(b, rel.as_slice());
            let js = crate::text::string_of(joined.as_slice());
            let resolved = crate::uri::normalize(js.as_str());
            let mut msg = "File does not exist: ".to_owned();
            crate::text::extend_string(&mut msg, local.as_str());
            Some(
                LinkCheck {
                    local,
                    resolved,
                    start_byte: t.start_byte,
                    end_byte: t.end_byte,
                    message: msg,
                },
            )
        },
    }
}

/// The local destinations of the document to look for on disk, in document
/// order (none when broken-link checks are off). `doc_dir` is the document's
/// directory and `root` the workspace root, when known.
pub fn link_checks(
    analysis: &Analysis,
    config: &DiagnosticsConfig,
    doc_dir: Option<&str>,
    root: Option<&str>,
) -> (r: Vec<LinkCheck>)
    ensures
        Seq::new(r@.len(), |i: int| r@[i]@) == (if config.broken_links {
            checks_upto(
                analysis@.link_targets,
                config.check_images,
                strings_view(config.ignore@),
                opt_str(doc_dir),
                opt_str(root),
                analysis@.link_targets.len() as int,
            )
        } else {
            Seq::empty()
        }),
{
    let mut out: Vec<LinkCheck> = Vec::new();
    if !config.broken_links {
        assert(Seq::new(out@.len(), |i: int| out@[i]@) =~= Seq::<LinkCheckV>::empty());
        return out;
    }
    let ghost tv = analysis@.link_targets;
    let ghost ig = strings_view(config.ignore@);
    let ts = &analysis.link_targets;
    let mut i: usize = 0;
    assert(Seq::new(out@.len(), |k: int| out@[k]@) =~= checks_upto(
        tv,
        config.check_images,
        ig,
        opt_str(doc_dir),
        opt_str(root),
        0,
    ));
    while i < ts.len()
        invariant
            i <= ts@.len(),
            tv == analysis@.link_targets,
            tv.len() == ts@.len(),
            forall|k: int| 0 <= k < ts@.len() ==> tv[k] == #[trigger] ts@[k]@,
            ig == strings_view(config.ignore@),
            Seq::new(out@.len(), |k: int| out@[k]@) == checks_upto(
                tv,
                config.check_images,
                ig,
                opt_str(doc_dir),
                opt_str(root),
                i as int,
            ),
        decreases ts@.len() - i,
    {
        let ghost before = Seq::new(out@.len(), |k: int| out@[k]@);
        match check_target(&ts[i], config, doc_dir, root) {
            Some(c) => {
                out.push(c);
            },
            None => {},
        }
        assert(Seq::new(out@.len(), |k: int| out@[k]@) =~= checks_upto(
            tv,
            config.check_images,
            ig,
            opt_str(doc_dir),
            opt_str(root),
            i + 1,
        ));
        i += 1;
    }
    out
}

/// The least of three integers.
pub open spec fn min3(a: int, b: int, c: int) -> int {
    if a <= b && a <= c {
        a
    } else if b <= c {
        b
    } else {
        c
    }
}

/// The Levenshtein distance between `a` and `b`: the fewest single-character
/// insertions, deletions and substitutions turning one into the other.
pub open spec fn levenshtein(a: Seq<char>, b: Seq<char>) -> nat
    decreases a.len() + b.len(),
{
    if a.len() == 0 {
        b.len()
    } else if b.len() == 0 {
        a.len()
    } else {
        min3(
            levenshtein(a.drop_last(), b) + 1int,
            levenshtein(a, b.drop_last()) + 1int,
            levenshtein(a.drop_last(), b.drop_last()) + if a.last() == b.last() {
                0int
            } else {
                1int
            },
        ) as nat
    }
}

/// The distance used to rank candidates: Levenshtein, or `usize::MAX` when
/// either side is longer than 256 characters.
pub open spec fn spec_edit_distance(a: Seq<char>, b: Seq<char>) -> usize {
    if a.len() > 256 || b.len() > 256 {
        usize::MAX
    } else {
        levenshtein(a, b) as usize
    }
}

/// The distance is at most the total length.
proof fn lemma_levenshtein_bound(a: Seq<char>, b: Seq<char>)
    ensures
        levenshtein(a, b) <= a.len() + b.len(),
    decreases a.len() + b.len(),
{
    if a.len() > 0 && b.len() > 0 {
        lemma_levenshtein_bound(a.drop_last(), b);
    }
}

/// The edit distance between `a` and `b` (see [`spec_edit_distance`]).
pub fn edit_distance(a: &str, b: &str) -> (r: usize)
    ensures
        r == spec_edit_distance(a@, b@),
{
    let x = crate::text::chars_of(a);
    let y = crate::text::chars_of(b);
    if x.len() > 256 || y.len() > 256 {
        return usize::MAX;
    }
    let n = x.len();
    let m = y.len();
    let mut row: Vec<usize> = Vec::new();
    let mut k: usize = 0;
    while k <= m
        invariant
            k <= m + 1,
            m <= 256,
            m == y@.len(),
            row@.len() == k,
            forall|q: int| 0 <= q < k ==> #[trigger] row@[q] == levenshtein(
                x@.take(0),
                y@.take(q),
            ),
        decreases m + 1 - k,
    {
        assert(x@.take(0) =~= Seq::<char>::empty());
        row.push(k);
        k += 1;
    }
    let mut i: usize = 0;
    while i < n
        invariant
            i <= n,
            n == x@.len(),
            m == y@.len(),
            n <= 256,
            m <= 256,
            row@.len() == m + 1,
            forall|q: int| 0 <= q <= m ==> #[trigger] row@[q] == levenshtein(
                x@.take(i as int),
                y@.take(q),
            ),
        decreases n - i,
    {
        let ghost ai = x@.take(i as int);
        let ghost ai1 = x@.take(i + 1);
        assert(ai1.drop_last() =~= ai);
        let mut diagonal = row[0];
        assert(y@.take(0) =~= Seq::<char>::empty());
        row.set(0, i + 1);
        let mut j: usize = 0;
        while j < m
            invariant
                i < n,
                n == x@.len(),
                m == y@.len(),
                n <= 256,
                m <= 256,
                j <= m,
                row@.len() == m + 1,
                ai == x@.take(i as int),
                ai1 == x@.take(i + 1),
                ai1.drop_last() == ai,
                diagonal == levenshtein(ai, y@.take(j as int)),
                forall|q: int| 0 <= q <= j ==> #[trigger] row@[q] == levenshtein(ai1, y@.take(q)),
                forall|q: int| j < q <= m ==> #[trigger] row@[q] == levenshtein(ai, y@.take(q)),
            decreases m - j,
        {
            let ghost bj1 = y@.take(j + 1);
            assert(bj1.drop_last() =~= y@.take(j as int));
            proof {
                lemma_levenshtein_bound(ai, bj1);
                lemma_levenshtein_bound(ai1, y@.take(j as int));
                lemma_levenshtein_bound(ai, y@.take(j as int));
            }
            let old = row[j + 1];
            let cost: usize = if x[i] != y[j] {
                1
            } else {
                0
            };
            let a1 = row[j] + 1;
            let a2 = old + 1;
            let a3 = diagonal + cost;
            let v = if a1 <= a2 && a1 <= a3 {
                a1
            } else if a2 <= a3 {
                a2
            } else {
                a3
            };
            assert(ai1.last() == x@[i as int]);
            assert(bj1.last() == y@[j as int]);
            assert(v == levenshtein(ai1, bj1));
            row.set(j + 1, v);
            diagonal = old;
            j += 1;
        }
        i += 1;
    }
    assert(x@.take(n as int) =~= x@);
    assert(y@.take(m as int) =~= y@);
    row[m]
}

/// The bytes a replacement destination escapes: controls, non-ASCII, and the
/// URL and Markdown delimiters ` %#?()<>\\"'` and backtick.
pub open spec fn escaped_byte(b: u8) -> bool {
    ||| b < 0x20
    ||| b >= 0x7f
    ||| b == 0x20
    ||| b == 0x25
    ||| b == 0x23
    ||| b == 0x3f
    ||| b == 0x28
    ||| b == 0x29
    ||| b == 0x3c
    ||| b == 0x3e
    ||| b == 0x5c
    ||| b == 0x22
    ||| b == 0x27
    ||| b == 0x60
}

/// The uppercase hexadecimal digit for `n < 16`.
pub open spec fn hex_digit(n: u8) -> char {
    if n < 10 {
        ((48 + n) as u8) as char
    } else {
        ((55 + n) as u8) as char
    }
}

/// `bs` percent-encoded: each escaped byte as `%XX`, the others as their
/// ASCII character.
pub open spec fn percent_encoded(bs: Seq<u8>) -> Seq<char>
    decreases bs.len(),
{
    if bs.len() == 0 {
        Seq::empty()
    } else {
        let b = bs.last();
        percent_encoded(bs.drop_last()) + if escaped_byte(b) {
            seq!['%', hex_digit(b / 16), hex_digit(b % 16)]
        } else {
            seq![b as char]
        }
    }
}

fn hex_char(n: u8) -> (r: char)
    requires
        n < 16,
    ensures
        r == hex_digit(n),
{
    if n < 10 {
        (48 + n) as char
    } else {
        (55 + n) as char
    }
}

/// Percent-encodes the UTF-8 bytes of `s` (see [`percent_encoded`]).
fn encode_destination(s: &str) -> (r: Vec<char>)
    ensures
        r@ == percent_encoded(vstd::utf8::encode_utf8(s@)),
{
    let bytes = s.as_bytes();
    let ghost bv = bytes@;
    let mut out: Vec<char> = Vec::new();
    let mut i: usize = 0;
    assert(bv.take(0) =~= Seq::<u8>::empty());
    while i < bytes.len()
        invariant
            i <= bv.len(),
            bv == bytes@,
            out@ == percent_encoded(bv.take(i as int)),
        decreases bv.len() - i,
    {
        let b = bytes[i];
        assert(bv.take(i + 1).drop_last() =~= bv.take(i as int));
        assert(bv.take(i + 1).last() == b);
        let esc = b < 0x20 || b >= 0x7f || b == 0x20 || b == 0x25 || b == 0x23 || b == 0x3f || b
            == 0x28 || b == 0x29 || b == 0x3c || b == 0x3e || b == 0x5c || b == 0x22 || b == 0x27
            || b == 0x60;
        if esc {
            out.push('%');
            out.push(hex_char(b / 16));
            out.push(hex_char(b % 16));
        } else {
            out.push(b as char);
        }
        i += 1;
        assert(out@ =~= percent_encoded(bv.take(i as int)));
    }
    assert(bv.take(bv.len() as int) =~= bv);
    out
}

/// The fragment or query of `url`: from its first `#` or `?` on, or empty.
pub open spec fn url_suffix(url: Seq<char>) -> Seq<char>
    decreases url.len(),
{
    if url.len() == 0 {
        Seq::empty()
    } else if url[0] == '#' || url[0] == '?' {
        url
    } else {
        url_suffix(url.drop_first())
    }
}

fn suffix_of(url: &[char]) -> (r: Vec<char>)
    ensures
        r@ == url_suffix(url@),
{
    let mut i: usize = 0;
    assert(url@.skip(0) =~= url@);
    while i < url.len() && url[i] != '#' && url[i] != '?'
        invariant
            i <= url@.len(),
            url_suffix(url@.skip(i as int)) == url_suffix(url@),
        decreases url@.len() - i,
    {
        assert(url@.skip(i as int).drop_first() =~= url@.skip(i + 1));
        i += 1;
    }
    assert(url@.skip(i as int) =~= url@.subrange(i as int, url@.len() as int));
    crate::text::slice_chars(url, i, url.len())
}

/// A workspace file offered as a replacement destination.
pub struct FileCandidate {
    /// The file's name, lowercased.
    pub name: String,
    /// Its path relative to the workspace root, when it has one.
    pub from_root: Option<String>,
    /// Its path relative to the document's directory, when it has one.
    pub from_doc: Option<String>,
}

/// A ranked replacement: the path shown and the destination to write.
pub struct Fix {
    pub title: String,
    pub replacement: String,
}

/// How many edits a candidate name may be away from the missing one.
pub open spec fn distance_threshold(name_len: nat) -> nat {
    let t = name_len / 3;
    if t < 1 {
        1
    } else if t > 3 {
        3
    } else {
        t
    }
}

/// A candidate's ranking key and displayed path.
pub struct Ranked {
    pub distance: usize,
    pub score: u32,
    pub display: Seq<char>,
}

/// The ranking entry of file `f` for the missing destination `local` (file
/// name `name`): kept when close by edit distance or matching fuzzily and
/// reachable from the right base; shown from the root (`/...`) for absolute
/// destinations, with `./` kept when the destination had it and the path
/// does not climb.
pub open spec fn ranked_of(
    local: Seq<char>,
    name: Seq<char>,
    fname: Seq<char>,
    from_root: Option<Seq<char>>,
    from_doc: Option<Seq<char>>,
) -> Option<Ranked> {
    let distance = spec_edit_distance(name, fname);
    let score = crate::fuzzy::spec_fuzzy_score(name, fname);
    let absolute = local.len() > 0 && local[0] == '/';
    if distance > distance_threshold(name.len()) && score is None {
        None
    } else {
        match (if absolute {
            from_root
        } else {
            from_doc
        }) {
            None => None,
            Some(rel) => Some(
                Ranked {
                    distance,
                    score: match score {
                        Some(x) => x,
                        None => 0,
                    },
                    display: if absolute {
                        seq!['/'] + rel
                    } else if starts_with(local, seq!['.', '/']) && !starts_with(
                        rel,
                        seq!['.', '.', '/'],
                    ) {
                        seq!['.', '/'] + rel
                    } else {
                        rel
                    },
                },
            ),
        }
    }
}

/// `a` ranks before `b`: smaller distance, then higher score, then path.
pub open spec fn ranks_before(a: Ranked, b: Ranked) -> bool {
    a.distance < b.distance || (a.distance == b.distance && (a.score > b.score || (a.score
        == b.score && seq_less(a.display, b.display))))
}

/// Inserts `x` into the ordered `s` after every entry not ranking after it.
pub open spec fn insert_ranked(s: Seq<Ranked>, x: Ranked) -> Seq<Ranked>
    decreases s.len(),
{
    if s.len() == 0 {
        seq![x]
    } else if ranks_before(x, s[0]) {
        seq![x] + s
    } else {
        seq![s[0]] + insert_ranked(s.drop_first(), x)
    }
}

/// The ranked entries of the first `n` files, in rank order.
pub open spec fn ranked_upto(
    local: Seq<char>,
    name: Seq<char>,
    files: Seq<FileCandidate>,
    n: int,
) -> Seq<Ranked>
    decreases n,
{
    if n <= 0 {
        Seq::empty()
    } else {
        let prev = ranked_upto(local, name, files, n - 1);
        let f = files[n - 1];
        match ranked_of(local, name, f.name@, opt_chars(f.from_root), opt_chars(f.from_doc)) {
            Some(x) => insert_ranked(prev, x),
            None => prev,
        }
    }
}

/// The fix offered for a ranked entry of destination `url`.
pub open spec fn fix_of(url: Seq<char>, x: Ranked) -> (Seq<char>, Seq<char>) {
    (
        "Replace with "@ + x.display,
        percent_encoded(vstd::utf8::encode_utf8(x.display)) + url_suffix(url),
    )
}

/// The views of a vector of fixes.
pub open spec fn fixes_view(v: Seq<Fix>) -> Seq<(Seq<char>, Seq<char>)> {
    Seq::new(v.len(), |i: int| (v[i].title@, v[i].replacement@))
}

proof fn lemma_insert_ranked_at(s: Seq<Ranked>, x: Ranked, i: int)
    requires
        0 <= i <= s.len(),
        forall|j: int| 0 <= j < i ==> !ranks_before(x, #[trigger] s[j]),
        i < s.len() ==> ranks_before(x, s[i]),
    ensures
        insert_ranked(s, x) == s.insert(i, x),
    decreases s.len(),
{
    if s.len() == 0 {
        assert(s.insert(i, x) =~= seq![x]);
    } else if i == 0 {
        assert(s.insert(i, x) =~= seq![x] + s);
    } else {
        let t = s.drop_first();
        assert forall|j: int| 0 <= j < i - 1 implies !ranks_before(x, #[trigger] t[j]) by {
            assert(t[j] == s[j + 1]);
        }
        lemma_insert_ranked_at(t, x, i - 1);
        assert(s.insert(i, x) =~= seq![s[0]] + t.insert(i - 1, x));
    }
}

/// Whether `a` may come before `b` in the ranking: closer by edit distance,
/// or as close with a higher fuzzy score, or tied on both with a displayed
/// path that does not sort after that of `b`.
pub open spec fn closer_or_tied(a: Ranked, b: Ranked) -> bool {
    a.distance < b.distance || (a.distance == b.distance && (a.score > b.score || (a.score
        == b.score && !seq_less(b.display, a.display))))
}

/// Whether the entries come by ascending distance, then descending score,
/// then path.
pub open spec fn closest_first(s: Seq<Ranked>) -> bool {
    forall|i: int, j: int| 0 <= i < j < s.len() ==> closer_or_tied(#[trigger] s[i], #[trigger] s[j])
}

proof fn lemma_insert_ranked_keeps(s: Seq<Ranked>, x: Ranked)
    requires
        closest_first(s),
    ensures
        closest_first(insert_ranked(s, x)),
        forall|y: Ranked| #[trigger] insert_ranked(s, x).contains(y) <==> (y == x || s.contains(y)),
    decreases s.len(),
{
    let r = insert_ranked(s, x);
    if s.len() == 0 {
        assert forall|y: Ranked| #[trigger] r.contains(y) <==> (y == x || s.contains(y)) by {
            if y == x {
                assert(r[0] == x);
            }
        }
    } else if ranks_before(x, s[0]) {
        assert(r =~= seq![x] + s);
        assert forall|i: int, j: int| 0 <= i < j < r.len() implies closer_or_tied(
            #[trigger] r[i],
            #[trigger] r[j],
        ) by {
            if i == 0 {
                assert(r[j] == s[j - 1]);
                crate::text::lemma_seq_less_asym(x.display, s[0].display);
                if j > 1 {
                    assert(closer_or_tied(s[0], s[j - 1]));
                    crate::text::lemma_seq_less_split(x.display, s[0].display, s[j - 1].display);
                }
            } else {
                assert(r[i] == s[i - 1] && r[j] == s[j - 1]);
            }
        }
        assert forall|y: Ranked| #[trigger] r.contains(y) <==> (y == x || s.contains(y)) by {
            if y == x {
                assert(r[0] == x);
            }
            if s.contains(y) {
                let k = choose|k: int| 0 <= k < s.len() && s[k] == y;
                assert(r[k + 1] == y);
            }
            if r.contains(y) {
                let k = choose|k: int| 0 <= k < r.len() && r[k] == y;
                if k > 0 {
                    assert(s[k - 1] == y);
                }
            }
        }
    } else {
        let t = s.drop_first();
        assert forall|i: int, j: int| 0 <= i < j < t.len() implies closer_or_tied(
            #[trigger] t[i],
            #[trigger] t[j],
        ) by {
            assert(t[i] == s[i + 1] && t[j] == s[j + 1]);
        }
        lemma_insert_ranked_keeps(t, x);
        let u = insert_ranked(t, x);
        assert(r =~= seq![s[0]] + u);
        assert(closer_or_tied(s[0], x));
        assert forall|i: int, j: int| 0 <= i < j < r.len() implies closer_or_tied(
            #[trigger] r[i],
            #[trigger] r[j],
        ) by {
            assert(r[j] == u[j - 1]);
            if i == 0 {
                assert(u.contains(u[j - 1]));
                if u[j - 1] != x {
                    let k = choose|k: int| 0 <= k < t.len() && t[k] == u[j - 1];
                    assert(s[k + 1] == t[k]);
                    assert(closer_or_tied(s[0], s[k + 1]));
                }
            } else {
                assert(r[i] == u[i - 1]);
            }
        }
        assert forall|y: Ranked| #[trigger] r.contains(y) <==> (y == x || s.contains(y)) by {
            if r.contains(y) {
                let k = choose|k: int| 0 <= k < r.len() && r[k] == y;
                if k > 0 {
                    assert(u[k - 1] == y);
                    assert(u.contains(y));
                    if y != x {
                        let m = choose|m: int| 0 <= m < t.len() && t[m] == y;
                        assert(s[m + 1] == y);
                    }
                }
            }
            if y == x {
                assert(u.contains(x));
                let k = choose|k: int| 0 <= k < u.len() && u[k] == x;
                assert(r[k + 1] == x);
            }
            if s.contains(y) {
                let k = choose|k: int| 0 <= k < s.len() && s[k] == y;
                if k == 0 {
                    assert(r[0] == y);
                } else {
                    assert(t[k - 1] == y);
                    assert(t.contains(y));
                    assert(u.contains(y));
                    let m = choose|m: int| 0 <= m < u.len() && u[m] == y;
                    assert(r[m + 1] == y);
                }
            }
        }
    }
}

/// Quick fixes come closest first: the ranking of the first `n` workspace
/// files is by ascending edit distance between the missing file name and
/// the candidate's name, ties by descending fuzzy score and then by path;
/// every file kept by
/// [`ranked_of`] is in it, and each entry is that of one of the files.
pub proof fn lemma_fixes_closest_first(
    local: Seq<char>,
    name: Seq<char>,
    files: Seq<FileCandidate>,
    n: int,
)
    requires
        0 <= n <= files.len(),
    ensures
        closest_first(ranked_upto(local, name, files, n)),
        forall|k: int|
            0 <= k < n && (#[trigger] ranked_of(
                local,
                name,
                files[k].name@,
                opt_chars(files[k].from_root),
                opt_chars(files[k].from_doc),
            )).is_some() ==> ranked_upto(local, name, files, n).contains(
                ranked_of(
                    local,
                    name,
                    files[k].name@,
                    opt_chars(files[k].from_root),
                    opt_chars(files[k].from_doc),
                ).unwrap(),
            ),
        forall|y: Ranked| #[trigger]
            ranked_upto(local, name, files, n).contains(y) ==> exists|k: int|
                0 <= k < n && #[trigger] ranked_of(
                    local,
                    name,
                    files[k].name@,
                    opt_chars(files[k].from_root),
                    opt_chars(files[k].from_doc),
                ) == Some(y),
        forall|y: Ranked| #[trigger]
            ranked_upto(local, name, files, n).contains(y) ==> exists|k: int|
                0 <= k < n && y.distance == #[trigger] spec_edit_distance(name, files[k].name@),
    decreases n,
{
    if n > 0 {
        lemma_fixes_closest_first(local, name, files, n - 1);
        let prev = ranked_upto(local, name, files, n - 1);
        let f = files[n - 1];
        if let Some(x) = ranked_of(local, name, f.name@, opt_chars(f.from_root), opt_chars(f.from_doc)) {
            lemma_insert_ranked_keeps(prev, x);
        }
        let r = ranked_upto(local, name, files, n);
        assert forall|y: Ranked| #[trigger] r.contains(y) implies exists|k: int|
            0 <= k < n && y.distance == #[trigger] spec_edit_distance(name, files[k].name@) by {
            let k = choose|k: int|
                0 <= k < n && #[trigger] ranked_of(
                    local,
                    name,
                    files[k].name@,
                    opt_chars(files[k].from_root),
                    opt_chars(files[k].from_doc),
                ) == Some(y);
            assert(y.distance == spec_edit_distance(name, files[k].name@));
        }
    }
}

/// The executable form of a [`Ranked`] entry.
struct RankedX {
    distance: usize,
    score: u32,
    display: Vec<char>,
}

impl View for RankedX {
    type V = Ranked;

    closed spec fn view(&self) -> Ranked {
        Ranked { distance: self.distance, score: self.score, display: self.display@ }
    }
}

/// The ranking entry of one file (see [`ranked_of`]).
fn rank_file(local: &Vec<char>, name: &str, f: &FileCandidate) -> (r: Option<RankedX>)
    ensures
        match ranked_of(local@, name@, f.name@, opt_chars(f.from_root), opt_chars(f.from_doc)) {
            Some(x) => r matches Some(y) && y@ == x,
            None => r is None,
        },
{
    let distance = edit_distance(name, f.name.as_str());
    let score = crate::fuzzy::fuzzy_match(name, f.name.as_str());
    let nc = crate::text::chars_of(name);
    let third = nc.len() / 3;
    let threshold: usize = if third < 1 {
        1
    } else if third > 3 {
        3
    } else {
        third
    };
    if distance > threshold && score.is_none() {
        return None;
    }
    let absolute = local.len() > 0 && local[0] == '/';
    let rel_opt = if absolute {
        &f.from_root
    } else {
        &f.from_doc
    };
    let rel = match rel_opt {
        None => {
            return None;
        },
        Some(r) => crate::text::chars_of(r.as_str()),
    };
    let mut dot_slash: Vec<char> = Vec::new();
    dot_slash.push('.');
    dot_slash.push('/');
    let mut up: Vec<char> = Vec::new();
    up.push('.');
    up.push('.');
    up.push('/');
    assert(dot_slash@ =~= seq!['.', '/']);
    assert(up@ =~= seq!['.', '.', '/']);
    let display: Vec<char> = if absolute {
        let mut d: Vec<char> = Vec::new();
        d.push('/');
        crate::text::extend(&mut d, rel.as_slice());
        assert(d@ =~= seq!['/'] + rel@);
        d
    } else if crate::text::has_prefix(local.as_slice(), dot_slash.as_slice())
        && !crate::text::has_prefix(rel.as_slice(), up.as_slice()) {
        let mut d = dot_slash;
        crate::text::extend(&mut d, rel.as_slice());
        d
    } else {
        rel
    };
    Some(
        RankedX {
            distance,
            score: match score {
                Some(x) => x,
                None => 0,
            },
            display,
        },
    )
}

/// Whether `a` ranks before `b` (see [`ranks_before`]).
fn ranks_first(a: &RankedX, b: &RankedX) -> (r: bool)
    ensures
        r == ranks_before(a@, b@),
{
    a.distance < b.distance || (a.distance == b.distance && (a.score > b.score || (a.score
        == b.score && chars_less_than(a.display.as_slice(), b.display.as_slice()))))
}

/// Lexicographic order by code point.
pub(crate) fn chars_less_than(a: &[char], b: &[char]) -> (r: bool)
    ensures
        r == seq_less(a@, b@),
{
    let mut i: usize = 0;
    assert(a@.skip(0) =~= a@);
    assert(b@.skip(0) =~= b@);
    while i < a.len() && i < b.len()
        invariant
            i <= a@.len(),
            i <= b@.len(),
            seq_less(a@, b@) == seq_less(a@.skip(i as int), b@.skip(i as int)),
        decreases a@.len() - i,
    {
        let x = a[i] as u32;
        let y = b[i] as u32;
        if x < y {
            return true;
        }
        if x > y {
            return false;
        }
        assert(a@.skip(i as int).drop_first() =~= a@.skip(i + 1));
        assert(b@.skip(i as int).drop_first() =~= b@.skip(i + 1));
        i += 1;
    }
    i == a.len() && i < b.len()
}

/// Up to five replacements for the missing destination `url` (decoded local
/// part `local`, file name `name`, lowercased) among the workspace `files`,
/// best first: the title shows the path, the replacement is that path
/// percent-encoded with the destination's fragment or query kept.
pub fn rank_fixes(url: &str, local: &str, name: &str, files: &Vec<FileCandidate>) -> (r: Vec<Fix>)
    ensures
        fixes_view(r@) == ranked_upto(local@, name@, files@, files@.len() as int).take(
            if ranked_upto(local@, name@, files@, files@.len() as int).len() < 5 {
                ranked_upto(local@, name@, files@, files@.len() as int).len() as int
            } else {
                5
            },
        ).map_values(|x: Ranked| fix_of(url@, x)),
{
    let lc = crate::text::chars_of(local);
    let mut sorted: Vec<RankedX> = Vec::new();
    let mut n: usize = 0;
    assert(Seq::new(sorted@.len(), |k: int| sorted@[k]@) =~= ranked_upto(
        local@,
        name@,
        files@,
        0,
    ));
    while n < files.len()
        invariant
            n <= files@.len(),
            lc@ == local@,
            Seq::new(sorted@.len(), |k: int| sorted@[k]@) == ranked_upto(
                local@,
                name@,
                files@,
                n as int,
            ),
        decreases files@.len() - n,
    {
        let ghost cur = Seq::new(sorted@.len(), |k: int| sorted@[k]@);
        match rank_file(&lc, name, &files[n]) {
            Some(x) => {
                let mut i: usize = 0;
                while i < sorted.len()
                    invariant
                        i <= sorted@.len(),
                        cur == Seq::new(sorted@.len(), |k: int| sorted@[k]@),
                        forall|j: int| 0 <= j < i ==> !ranks_before(x@, #[trigger] cur[j]),
                    ensures
                        i <= sorted@.len(),
                        forall|j: int| 0 <= j < i ==> !ranks_before(x@, #[trigger] cur[j]),
                        i < sorted@.len() ==> ranks_before(x@, cur[i as int]),
                    decreases sorted@.len() - i,
                {
                    if ranks_first(&x, &sorted[i]) {
                        break;
                    }
                    i += 1;
                }
                proof {
                    lemma_insert_ranked_at(cur, x@, i as int);
                }
                let ghost xv = x@;
                sorted.insert(i, x);
                assert(Seq::new(sorted@.len(), |k: int| sorted@[k]@) =~= cur.insert(
                    i as int,
                    xv,
                ));
            },
            None => {},
        }
        n += 1;
    }
    let ghost all = Seq::new(sorted@.len(), |k: int| sorted@[k]@);
    let keep: usize = if sorted.len() < 5 {
        sorted.len()
    } else {
        5
    };
    let uc = crate::text::chars_of(url);
    let suffix = suffix_of(uc.as_slice());
    let mut out: Vec<Fix> = Vec::new();
    let mut k: usize = 0;
    while k < keep
        invariant
            k <= keep <= sorted@.len(),
            all == Seq::new(sorted@.len(), |q: int| sorted@[q]@),
            suffix@ == url_suffix(url@),
            fixes_view(out@) == all.take(k as int).map_values(|x: Ranked| fix_of(url@, x)),
        decreases keep - k,
    {
        let d = &sorted[k].display;
        let mut title = "Replace with ".to_owned();
        let ds = crate::text::string_of(d.as_slice());
        crate::text::extend_string(&mut title, ds.as_str());
        let mut rep = encode_destination(ds.as_str());
        crate::text::extend(&mut rep, suffix.as_slice());
        let replacement = crate::text::string_of(rep.as_slice());
        let ghost prev = fixes_view(out@);
        let ghost item = (title@, replacement@);
        assert(all[k as int].display == d@);
        assert(item == fix_of(url@, all[k as int]));
        out.push(Fix { title, replacement });
        assert(fixes_view(out@) =~= prev.push(item));
        assert(all.take(k + 1).map_values(|x: Ranked| fix_of(url@, x)) =~= all.take(
            k as int,
        ).map_values(|x: Ranked| fix_of(url@, x)).push(fix_of(url@, all[k as int])));
        k += 1;
    }
    out
}

/// The last piece of `pieces[..k]` that names something: not empty and not
/// `.`.
pub open spec fn last_named(pieces: Seq<Seq<char>>, k: int) -> Option<Seq<char>>
    decreases k,
{
    if k <= 0 {
        None
    } else if pieces[k - 1].len() == 0 || pieces[k - 1] == seq!['.'] {
        last_named(pieces, k - 1)
    } else {
        Some(pieces[k - 1])
    }
}

/// The final component of the `/`-separated path `path`, as
/// `Path::file_name` gives it: none when there is none or it is `..`.
pub open spec fn file_name_of(path: Seq<char>) -> Option<Seq<char>> {
    let ps = split_on(path, '/');
    match last_named(ps, ps.len() as int) {
        Some(c) => if c == seq!['.', '.'] {
            None
        } else {
            Some(c)
        },
        None => None,
    }
}

/// The final component of `path` (see [`file_name_of`]).
pub fn file_name(path: &str) -> (r: Option<String>)
    ensures
        opt_chars(r) == file_name_of(path@),
{
    let c = crate::text::chars_of(path);
    let ps = crate::text::split_chars(c.as_slice(), '/');
    let ghost pv = ps.deep_view();
    let mut k = ps.len();
    while k > 0 && (ps[k - 1].len() == 0 || (ps[k - 1].len() == 1 && ps[k - 1][0] == '.'))
        invariant
            k <= ps@.len(),
            pv == ps.deep_view(),
            pv == split_on(path@, '/'),
            last_named(pv, k as int) == last_named(pv, pv.len() as int),
        decreases k,
    {
        proof {
            if ps[k - 1]@.len() == 1 {
                assert(pv[k - 1] =~= seq!['.']);
            }
        }
        k -= 1;
    }
    if k == 0 {
        return None;
    }
    let last = &ps[k - 1];
    assert(pv[k - 1] == last@);
    if last.len() == 2 && last[0] == '.' && last[1] == '.' {
        assert(last@ =~= seq!['.', '.']);
        return None;
    }
    Some(crate::text::string_of(last.as_slice()))
}

/// The position of the last `.` in `n`.
pub open spec fn last_dot(n: Seq<char>) -> Option<int> {
    if exists|k: int| 0 <= k < n.len() && n[k] == '.' {
        Some(choose|k: int| 0 <= k < n.len() && n[k] == '.' && forall|j: int| k < j < n.len() ==> n[j] != '.')
    } else {
        None
    }
}

/// A file name without its extension, as `Path::file_stem` splits it: the
/// part before the last `.`, unless that dot opens the name.
pub open spec fn stem_of(n: Seq<char>) -> Seq<char> {
    match last_dot(n) {
        Some(k) => if k > 0 {
            n.take(k)
        } else {
            n
        },
        None => n,
    }
}

/// A file name's extension, as `Path::extension` splits it: the part after
/// the last `.`, unless that dot opens the name.
pub open spec fn extension_of(n: Seq<char>) -> Option<Seq<char>> {
    match last_dot(n) {
        Some(k) => if k > 0 {
            Some(n.skip(k + 1))
        } else {
            None
        },
        None => None,
    }
}

/// The position of the last `.` in `n` (see [`last_dot`]).
pub(crate) fn find_last_dot(n: &[char]) -> (r: Option<usize>)
    ensures
        match r {
            Some(k) => last_dot(n@) == Some(k as int) && k < n@.len(),
            None => last_dot(n@) is None,
        },
{
    let mut i = n.len();
    while i > 0
        invariant
            i <= n@.len(),
            forall|j: int| i <= j < n@.len() ==> n@[j] != '.',
        decreases i,
    {
        if n[i - 1] == '.' {
            let k = i - 1;
            let ghost c = choose|c: int| 0 <= c < n@.len() && n@[c] == '.' && forall|j: int| c < j < n@.len() ==> n@[j] != '.';
            assert(c == k) by {
                if c < k {
                    assert(n@[k as int] == '.');
                } else if c > k {
                    assert(n@[c] != '.');
                }
            }
            return Some(k);
        }
        i -= 1;
    }
    None
}

/// The name of the file at `path`, lowercased (empty when it has none).
pub open spec fn lower_name(path: Seq<char>) -> Seq<char> {
    lowercase(
        match file_name_of(path) {
            Some(n) => n,
            None => Seq::empty(),
        },
    )
}

/// The replacement candidate for the workspace file at `path`: its name
/// lowercased, and its paths from the workspace root and from the
/// document's directory.
pub fn fix_candidate(path: &str, doc_dir: &str, root: &str) -> (r: FileCandidate)
    ensures
        r.name@ == lower_name(path@),
        opt_chars(r.from_root) == crate::features::completion::spec_rel_path(root@, path@),
        opt_chars(r.from_doc) == crate::features::completion::spec_rel_path(doc_dir@, path@),
{
    let n = match file_name(path) {
        Some(n) => n,
        None => String::new(),
    };
    let name = crate::text::to_lowercase(n.as_str());
    let from_root = crate::features::completion::rel_path(root, path);
    let from_doc = crate::features::completion::rel_path(doc_dir, path);
    FileCandidate { name, from_root, from_doc }
}

/// `a` is not after `b`: an earlier line, or the same line and a column not
/// after it.
pub open spec fn pos_le(a: Position, b: Position) -> bool {
    a.line < b.line || (a.line == b.line && a.character <= b.character)
}

/// The ranges `d` and `r` overlap (touching counts).
pub open spec fn overlaps(d: Range, r: Range) -> bool {
    pos_le(d.start, r.end) && pos_le(r.start, d.end)
}

fn position_le(a: Position, b: Position) -> (r: bool)
    ensures
        r == pos_le(a, b),
{
    a.line < b.line || (a.line == b.line && a.character <= b.character)
}

/// Whether any of `diagnostics` overlaps the requested range.
pub fn any_overlapping(diagnostics: &Vec<Range>, request: Range) -> (r: bool)
    ensures
        r == exists|i: int| 0 <= i < diagnostics@.len() && overlaps(#[trigger] diagnostics@[i], request),
{
    let mut i: usize = 0;
    while i < diagnostics.len()
        invariant
            i <= diagnostics@.len(),
            forall|j: int| 0 <= j < i ==> !overlaps(#[trigger] diagnostics@[j], request),
        decreases diagnostics@.len() - i,
    {
        let d = diagnostics[i];
        if position_le(d.start, request.end) && position_le(request.start, d.end) {
            assert(overlaps(diagnostics@[i as int], request));
            return true;
        }
        i += 1;
    }
    false
}

/// The editor range of the byte span `[start, end)` of `s`.
pub open spec fn span_range(s: Seq<char>, start: usize, end: usize, enc: PositionEncoding) -> Range {
    let p = position_of_char(s, char_floor(s, start as int) as int, enc);
    let q = position_of_char(s, char_floor(s, end as int) as int, enc);
    Range {
        start: Position { line: p.0 as u32, character: p.1 as u32 },
        end: Position { line: q.0 as u32, character: q.1 as u32 },
    }
}

/// The first destination, from `k` on, whose range is `d`.
pub open spec fn target_with_range(
    ts: Seq<LinkTargetV>,
    s: Seq<char>,
    enc: PositionEncoding,
    d: Range,
    k: int,
) -> Option<int>
    decreases ts.len() - k,
{
    if k < 0 || k >= ts.len() {
        None
    } else if span_range(s, ts[k].start_byte, ts[k].end_byte, enc) == d {
        Some(k)
    } else {
        target_with_range(ts, s, enc, d, k + 1)
    }
}

/// The five best fixes of `ranked`, as `(title, replacement)`.
pub open spec fn best_fixes(url: Seq<char>, ranked: Seq<Ranked>) -> Seq<(Seq<char>, Seq<char>)> {
    ranked.take(
        if ranked.len() < 5 {
            ranked.len() as int
        } else {
            5
        },
    ).map_values(|x: Ranked| fix_of(url, x))
}

/// The fixes for a broken-link diagnostic at `d`: none unless a destination
/// has exactly that range, is local and names a file; otherwise the best
/// five of `files` for it.
pub open spec fn fixes_for(
    ts: Seq<LinkTargetV>,
    s: Seq<char>,
    enc: PositionEncoding,
    d: Range,
    files: Seq<FileCandidate>,
) -> Option<Seq<(Seq<char>, Seq<char>)>> {
    match target_with_range(ts, s, enc, d, 0) {
        None => None,
        Some(k) => match spec_local_target(ts[k].url) {
            None => None,
            Some(local) => {
                let name = lower_name(local);
                if name.len() == 0 {
                    None
                } else {
                    Some(best_fixes(ts[k].url, ranked_upto(local, name, files, files.len() as int)))
                }
            },
        },
    }
}

/// The fixes of the first `n` diagnostics that overlap `request`, each with
/// its diagnostic's index.
pub open spec fn quick_fixes_upto(
    ts: Seq<LinkTargetV>,
    s: Seq<char>,
    enc: PositionEncoding,
    ds: Seq<Range>,
    request: Range,
    files: Seq<FileCandidate>,
    n: int,
) -> Seq<(int, Seq<(Seq<char>, Seq<char>)>)>
    decreases n,
{
    if n <= 0 {
        Seq::empty()
    } else {
        let prev = quick_fixes_upto(ts, s, enc, ds, request, files, n - 1);
        if overlaps(ds[n - 1], request) {
            match fixes_for(ts, s, enc, ds[n - 1], files) {
                Some(f) => prev.push((n - 1, f)),
                None => prev,
            }
        } else {
            prev
        }
    }
}

/// The fixes offered for one diagnostic.
pub struct QuickFix {
    /// The index of the diagnostic.
    pub diagnostic: usize,
    pub fixes: Vec<Fix>,
}

/// The views of a vector of quick fixes.
pub open spec fn quick_fixes_view(v: Seq<QuickFix>) -> Seq<(int, Seq<(Seq<char>, Seq<char>)>)> {
    Seq::new(v.len(), |i: int| (v[i].diagnostic as int, fixes_view(v[i].fixes@)))
}

/// The fixes for the diagnostic at `d` (see [`fixes_for`]).
fn fixes_at(analysis: &Analysis, rope: &Rope, enc: PositionEncoding, d: Range, files: &Vec<
    FileCandidate,
>) -> (r: Option<Vec<Fix>>)
    ensures
        match fixes_for(analysis@.link_targets, rope_text(*rope), enc, d, files@) {
            None => r is None,
            Some(f) => r matches Some(v) && fixes_view(v@) == f,
        },
{
    let ts = &analysis.link_targets;
    let ghost tv = analysis@.link_targets;
    let mut k: usize = 0;
    while k < ts.len()
        invariant
            k <= ts@.len(),
            ts@ == analysis.link_targets@,
            tv == analysis@.link_targets,
            target_with_range(tv, rope_text(*rope), enc, d, k as int) == target_with_range(
                tv,
                rope_text(*rope),
                enc,
                d,
                0,
            ),
        decreases ts@.len() - k,
    {
        assert(tv[k as int] == ts@[k as int]@);
        let r = range_from_bytes(rope, ts[k].start_byte, ts[k].end_byte, enc);
        if r == d {
            let t = &ts[k];
            let local = match crate::links::local_target(t.url.as_str()) {
                Some(l) => l,
                None => return None,
            };
            let n = match file_name(local.as_str()) {
                Some(n) => n,
                None => String::new(),
            };
            let name = crate::text::to_lowercase(n.as_str());
            if crate::text::chars_of(name.as_str()).len() == 0 {
                return None;
            }
            return Some(rank_fixes(t.url.as_str(), local.as_str(), name.as_str(), files));
        }
        k += 1;
    }
    None
}

/// The quick fixes for the broken-link `diagnostics` (their ranges) that
/// overlap the `request`ed range, in order, each with its diagnostic's
/// index: for each, the best five workspace `files` to link to instead (see
/// [`fixes_for`]). `rope` holds the document the analysis was made of.
pub fn quick_fixes(
    analysis: &Analysis,
    rope: &Rope,
    enc: PositionEncoding,
    diagnostics: &Vec<Range>,
    request: Range,
    files: &Vec<FileCandidate>,
) -> (r: Vec<QuickFix>)
    ensures
        quick_fixes_view(r@) == quick_fixes_upto(
            analysis@.link_targets,
            rope_text(*rope),
            enc,
            diagnostics@,
            request,
            files@,
            diagnostics@.len() as int,
        ),
{
    let mut out: Vec<QuickFix> = Vec::new();
    let mut i: usize = 0;
    while i < diagnostics.len()
        invariant
            i <= diagnostics@.len(),
            quick_fixes_view(out@) == quick_fixes_upto(
                analysis@.link_targets,
                rope_text(*rope),
                enc,
                diagnostics@,
                request,
                files@,
                i as int,
            ),
        decreases diagnostics@.len() - i,
    {
        let d = diagnostics[i];
        if position_le(d.start, request.end) && position_le(request.start, d.end) {
            match fixes_at(analysis, rope, enc, d, files) {
                Some(f) => {
                    let ghost fv = fixes_view(f@);
                    let ghost before = quick_fixes_view(out@);
                    out.push(QuickFix { diagnostic: i, fixes: f });
                    assert(quick_fixes_view(out@) =~= before.push((i as int, fv)));
                },
                None => {},
            }
        }
        i += 1;
    }
    out
}

/// At most five quick fixes are offered for a broken destination, and each
/// replacement keeps the destination's fragment or query as written.
pub proof fn lemma_fixes_bounded_and_keep_suffix(
    url: Seq<char>,
    local: Seq<char>,
    name: Seq<char>,
    files: Seq<FileCandidate>,
)
    ensures
        ({
            let all = ranked_upto(local, name, files, files.len() as int);
            let r = all.take(
                if all.len() < 5 {
                    all.len() as int
                } else {
                    5
                },
            ).map_values(|x: Ranked| fix_of(url, x));
            &&& r.len() <= 5
            &&& forall|i: int| 0 <= i < r.len() ==> crate::text::ends_with(#[trigger] r[i].1, url_suffix(url))
        }),
{
    let all = ranked_upto(local, name, files, files.len() as int);
    let r = all.take(
        if all.len() < 5 {
            all.len() as int
        } else {
            5
        },
    ).map_values(|x: Ranked| fix_of(url, x));
    assert forall|i: int| 0 <= i < r.len() implies crate::text::ends_with(#[trigger] r[i].1, url_suffix(url)) by {
        let e = percent_encoded(vstd::utf8::encode_utf8(all[i].display));
        assert(r[i].1 == e + url_suffix(url));
        assert((e + url_suffix(url)).skip(e.len() as int) =~= url_suffix(url));
    }
}

} // verus!
