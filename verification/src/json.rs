//! Configuration values as JSON: reading JSON with comments (through
//! `jsonc-parser`), the layering of settings (a wrapper key
//! stripped, the project's settings deep-merged over the client's) and the
//! test of whether a payload carries this server's settings at all. Reading
//! settings out of a value is left to the caller.

use vstd::prelude::*;

verus! {

/// A JSON value. A number is kept as its text.
pub enum Json {
    Null,
    Bool(bool),
    Number(String),
    Str(String),
    Array(Vec<Json>),
    Object(Vec<(String, Json)>),
}

/// The mathematical form of a JSON value.
pub enum JsonV {
    Null,
    Bool(bool),
    Number(Seq<char>),
    Str(Seq<char>),
    Array(Seq<JsonV>),
    Object(Seq<(Seq<char>, JsonV)>),
}

/// The mathematical form of `j`.
pub open spec fn jv(j: Json) -> JsonV
    decreases j,
{
    match j {
        Json::Null => JsonV::Null,
        Json::Bool(b) => JsonV::Bool(b),
        Json::Number(n) => JsonV::Number(n@),
        Json::Str(s) => JsonV::Str(s@),
        Json::Array(v) => JsonV::Array(
            Seq::new(
                v@.len(),
                |i: int|
                    if 0 <= i < v@.len() {
                        jv(v@[i])
                    } else {
                        JsonV::Null
                    },
            ),
        ),
        Json::Object(v) => JsonV::Object(fields_v(v@)),
    }
}

/// The mathematical form of an object's fields.
pub open spec fn fields_v(v: Seq<(String, Json)>) -> Seq<(Seq<char>, JsonV)>
    decreases v,
{
    Seq::new(
        v.len(),
        |i: int|
            if 0 <= i < v.len() {
                (v[i].0@, jv(v[i].1))
            } else {
                (Seq::empty(), JsonV::Null)
            },
    )
}

/// The position of the first field of `fs` named `k`.
pub open spec fn key_index(fs: Seq<(Seq<char>, JsonV)>, k: Seq<char>) -> Option<int> {
    if exists|i: int| 0 <= i < fs.len() && (#[trigger] fs[i]).0 == k {
        Some(choose|i: int| 0 <= i < fs.len() && (#[trigger] fs[i]).0 == k && forall|j: int| 0 <= j < i ==> (#[trigger] fs[j]).0 != k)
    } else {
        None
    }
}

/// `over` deep-merged over `base`: objects merge key by key, a `null` in
/// `over` leaves `base` as it is, and anything else in `over` replaces
/// `base`.
pub open spec fn merged(base: JsonV, over: JsonV) -> JsonV
    decreases over, 0int,
{
    match over {
        JsonV::Null => base,
        JsonV::Object(o) => match base {
            JsonV::Object(b) => JsonV::Object(merge_fields(b, o, o.len() as int)),
            _ => over,
        },
        _ => over,
    }
}

/// The fields of `b` with the first `n` fields of `o` merged in: a key
/// already present has its value merged in place, a new key is appended.
pub open spec fn merge_fields(
    b: Seq<(Seq<char>, JsonV)>,
    o: Seq<(Seq<char>, JsonV)>,
    n: int,
) -> Seq<(Seq<char>, JsonV)>
    decreases o, n,
{
    if n <= 0 || n > o.len() {
        b
    } else {
        let acc = merge_fields(b, o, n - 1);
        let k = o[n - 1].0;
        proof {
            assert(decreases_to!(o => o[n - 1]));
        }
        match key_index(acc, k) {
            Some(j) => acc.update(j, (k, merged(acc[j].1, o[n - 1].1))),
            None => acc.push((k, o[n - 1].1)),
        }
    }
}

/// The fields of an object after one field is replaced.
proof fn lemma_fields_update(v: Seq<(String, Json)>, j: int, x: (String, Json))
    requires
        0 <= j < v.len(),
    ensures
        fields_v(v.update(j, x)) == fields_v(v).update(j, (x.0@, jv(x.1))),
{
    assert(fields_v(v.update(j, x)) =~= fields_v(v).update(j, (x.0@, jv(x.1))));
}

/// The fields of an object after one field is added.
proof fn lemma_fields_push(v: Seq<(String, Json)>, x: (String, Json))
    ensures
        fields_v(v.push(x)) == fields_v(v).push((x.0@, jv(x.1))),
{
    assert(fields_v(v.push(x)) =~= fields_v(v).push((x.0@, jv(x.1))));
}

/// The position of the first field of `fields` named `k` (see
/// [`key_index`]).
fn find_key(fields: &Vec<(String, Json)>, k: &String) -> (r: Option<usize>)
    ensures
        match r {
            Some(j) => j < fields@.len() && key_index(fields_v(fields@), k@) == Some(j as int),
            None => key_index(fields_v(fields@), k@) is None,
        },
{
    let ghost fv = fields_v(fields@);
    let mut i: usize = 0;
    while i < fields.len()
        invariant
            i <= fields@.len(),
            fv == fields_v(fields@),
            forall|j: int| 0 <= j < i ==> (#[trigger] fv[j]).0 != k@,
        decreases fields@.len() - i,
    {
        assert(fv[i as int].0 == fields@[i as int].0@);
        if fields[i].0 == *k {
            assert(fv[i as int].0 == k@);
            let ghost c = choose|c: int| 0 <= c < fv.len() && (#[trigger] fv[c]).0 == k@ && forall|j: int| 0 <= j < c ==> (#[trigger] fv[j]).0 != k@;
            assert(0 <= c < fv.len() && fv[c].0 == k@ && forall|j: int| 0 <= j < c ==> (#[trigger] fv[j]).0 != k@);
            assert(c == i) by {
                if c < i {
                    assert(fv[c].0 != k@);
                } else if c > i {
                    assert(fv[i as int].0 != k@);
                }
            }
            return Some(i);
        }
        i += 1;
    }
    None
}

/// `over` deep-merged over `base` (see [`merged`]).
pub fn merge_values(base: Json, over: Json) -> (r: Json)
    ensures
        jv(r) == merged(jv(base), jv(over)),
    decreases over, 0int,
{
    match (base, over) {
        (Json::Object(b), Json::Object(o)) => {
            let ghost ov = o;
            let m = merge_objects(b, o);
            Json::Object(m)
        },
        (base, Json::Null) => base,
        (base, over) => {
            proof {
                match jv(over) {
                    JsonV::Object(_) => {
                        assert(!(base is Object));
                    },
                    _ => {},
                }
            }
            over
        },
    }
}

/// The fields of `o` merged into those of `b` (see [`merge_fields`]).
fn merge_objects(b: Vec<(String, Json)>, o: Vec<(String, Json)>) -> (r: Vec<(String, Json)>)
    ensures
        fields_v(r@) == merge_fields(fields_v(b@), fields_v(o@), o@.len() as int),
    decreases o, 1int,
{
    let ghost o0 = o@;
    let ghost b0 = fields_v(b@);
    let ghost ov = fields_v(o@);
    let n = o.len();
    let mut acc = b;
    let mut rest = o;
    let mut i: usize = 0;
    while i < n
        invariant
            i <= n == o0.len(),
            o0 == o@,
            rest@ == o0.skip(i as int),
            ov == fields_v(o0),
            fields_v(acc@) == merge_fields(b0, ov, i as int),
        decreases n - i,
    {
        let field = rest.remove(0);
        assert(field == o0[i as int]);
        let (k, v) = field;
        assert(ov[i as int] == (k@, jv(v)));
        let ghost before = acc@;
        match find_key(&acc, &k) {
            Some(j) => {
                let existing = acc.remove(j);
                assert(decreases_to!(o => o@[i as int].1)) by {
                    assert(decreases_to!(o => o@));
                    assert(decreases_to!(o@ => o@[i as int]));
                    assert(decreases_to!(o@[i as int] => o@[i as int].1));
                }
                let m = merge_values(existing.1, v);
                acc.insert(j, (k, m));
                proof {
                    assert(acc@ =~= before.update(j as int, acc@[j as int]));
                    lemma_fields_update(before, j as int, acc@[j as int]);
                    assert(fields_v(before)[j as int].1 == jv(existing.1));
                }
            },
            None => {
                acc.push((k, v));
                proof {
                    lemma_fields_push(before, (k, v));
                }
            },
        }
        assert(rest@ =~= o0.skip(i + 1));
        i += 1;
    }
    acc
}

/// The value of the first field of `j` named `k`, when `j` is an object
/// that has one.
pub open spec fn get_field(j: JsonV, k: Seq<char>) -> Option<JsonV> {
    match j {
        JsonV::Object(fs) => match key_index(fs, k) {
            Some(i) => Some(fs[i].1),
            None => None,
        },
        _ => None,
    }
}

/// `j` has a field named `k` that is not `null`.
pub open spec fn has_setting(j: JsonV, k: Seq<char>) -> bool {
    match get_field(j, k) {
        Some(v) => !(v is Null),
        None => false,
    }
}

/// `j` without the wrapper key some clients add: the value under
/// `sanemark`, `markdownLsp` or `markdown` (the first of them present and
/// not `null`), or `j` itself.
pub open spec fn unwrapped(j: JsonV) -> JsonV {
    if has_setting(j, "sanemark"@) {
        get_field(j, "sanemark"@).unwrap()
    } else if has_setting(j, "markdownLsp"@) {
        get_field(j, "markdownLsp"@).unwrap()
    } else if has_setting(j, "markdown"@) {
        get_field(j, "markdown"@).unwrap()
    } else {
        j
    }
}

/// The top-level sections of the settings.
pub open spec fn known_keys() -> Seq<Seq<char>> {
    seq![
        "folding"@,
        "completion"@,
        "diagnostics"@,
        "formatting"@,
        "snippets"@,
        "journal"@,
        "gfm"@,
    ]
}

/// `j` carries this server's settings: a wrapper key that is not `null`, or
/// an object with one of the known sections.
pub open spec fn carries_settings(j: JsonV) -> bool {
    ||| has_setting(j, "sanemark"@)
    ||| has_setting(j, "markdownLsp"@)
    ||| has_setting(j, "markdown"@)
    ||| (j is Object && exists|i: int| 0 <= i < 7 && #[trigger] get_field(j, known_keys()[i]) is Some)
}

/// The settings in effect: the project's layer deep-merged over the
/// client's, each without its wrapper key, a missing layer counting as
/// `null`.
pub open spec fn layered(client: Option<JsonV>, project: Option<JsonV>) -> JsonV {
    merged(
        match client {
            Some(c) => unwrapped(c),
            None => JsonV::Null,
        },
        match project {
            Some(p) => unwrapped(p),
            None => JsonV::Null,
        },
    )
}

/// A copy of `j`.
pub fn copy_json(j: &Json) -> (r: Json)
    ensures
        jv(r) == jv(*j),
    decreases j,
{
    match j {
        Json::Null => Json::Null,
        Json::Bool(b) => Json::Bool(*b),
        Json::Number(n) => Json::Number(n.clone()),
        Json::Str(t) => Json::Str(t.clone()),
        Json::Array(v) => {
            let mut out: Vec<Json> = Vec::new();
            let mut i: usize = 0;
            while i < v.len()
                invariant
                    i <= v@.len(),
                    *j matches Json::Array(w) && w == *v,
                    out@.len() == i,
                    forall|k: int| 0 <= k < i ==> jv(#[trigger] out@[k]) == jv(v@[k]),
                decreases v@.len() - i,
            {
                assert(decreases_to!(j => v@[i as int])) by {
                    assert(decreases_to!(*j => *v));
                    assert(decreases_to!(*v => v@));
                    assert(decreases_to!(v@ => v@[i as int]));
                }
                out.push(copy_json(&v[i]));
                i += 1;
            }
            assert(jv(Json::Array(out)) == jv(*j)) by {
                if let JsonV::Array(a) = jv(Json::Array(out)) {
                    if let JsonV::Array(b) = jv(*j) {
                        assert(a =~= b);
                    }
                }
            }
            Json::Array(out)
        },
        Json::Object(v) => {
            let mut out: Vec<(String, Json)> = Vec::new();
            let mut i: usize = 0;
            while i < v.len()
                invariant
                    i <= v@.len(),
                    *j matches Json::Object(w) && w == *v,
                    out@.len() == i,
                    forall|k: int|
                        0 <= k < i ==> (#[trigger] out@[k]).0@ == v@[k].0@ && jv(out@[k].1) == jv(
                            v@[k].1,
                        ),
                decreases v@.len() - i,
            {
                assert(decreases_to!(j => v@[i as int].1)) by {
                    assert(decreases_to!(*j => *v));
                    assert(decreases_to!(*v => v@));
                    assert(decreases_to!(v@ => v@[i as int]));
                    assert(decreases_to!(v@[i as int] => v@[i as int].1));
                }
                let value = copy_json(&v[i].1);
                out.push((v[i].0.clone(), value));
                i += 1;
            }
            assert(fields_v(out@) =~= fields_v(v@));
            Json::Object(out)
        },
    }
}

/// The value of the first field of `j` named `k` (see [`get_field`]).
fn field<'a>(j: &'a Json, k: &String) -> (r: Option<&'a Json>)
    ensures
        match r {
            Some(x) => get_field(jv(*j), k@) == Some(jv(*x)),
            None => get_field(jv(*j), k@) is None,
        },
{
    match j {
        Json::Object(fs) => match find_key(fs, k) {
            Some(i) => Some(&fs[i].1),
            None => None,
        },
        _ => None,
    }
}

/// Whether `j` has a field named `k` that is not `null`, and its value.
fn setting<'a>(j: &'a Json, k: &str) -> (r: Option<&'a Json>)
    ensures
        match r {
            Some(x) => has_setting(jv(*j), k@) && get_field(jv(*j), k@) == Some(jv(*x)),
            None => !has_setting(jv(*j), k@),
        },
{
    let key = k.to_owned();
    match field(j, &key) {
        Some(x) => if matches!(x, Json::Null) {
            None
        } else {
            Some(x)
        },
        None => None,
    }
}

/// `j` without its wrapper key (see [`unwrapped`]).
pub fn unwrap_wrapper(j: &Json) -> (r: Json)
    ensures
        jv(r) == unwrapped(jv(*j)),
{
    if let Some(x) = setting(j, "sanemark") {
        return copy_json(x);
    }
    if let Some(x) = setting(j, "markdownLsp") {
        return copy_json(x);
    }
    if let Some(x) = setting(j, "markdown") {
        return copy_json(x);
    }
    copy_json(j)
}

/// Whether `j` carries this server's settings (see [`carries_settings`]).
pub fn looks_like_ours(j: &Json) -> (r: bool)
    ensures
        r == carries_settings(jv(*j)),
{
    if setting(j, "sanemark").is_some() || setting(j, "markdownLsp").is_some() || setting(
        j,
        "markdown",
    ).is_some() {
        return true;
    }
    if !matches!(j, Json::Object(_)) {
        return false;
    }
    let f0 = has_key(j, "folding");
    let f1 = has_key(j, "completion");
    let f2 = has_key(j, "diagnostics");
    let f3 = has_key(j, "formatting");
    let f4 = has_key(j, "snippets");
    let f5 = has_key(j, "journal");
    let f6 = has_key(j, "gfm");
    let ghost jj = jv(*j);
    assert((f0 || f1 || f2 || f3 || f4 || f5 || f6) == exists|i: int|
        0 <= i < 7 && #[trigger] get_field(jj, known_keys()[i]) is Some) by {
        let ks = known_keys();
        assert(ks[0] == "folding"@ && ks[1] == "completion"@ && ks[2] == "diagnostics"@);
        assert(ks[3] == "formatting"@ && ks[4] == "snippets"@ && ks[5] == "journal"@ && ks[6] == "gfm"@);
        if f0 || f1 || f2 || f3 || f4 || f5 || f6 {
            if f0 {
                assert(get_field(jj, ks[0]) is Some);
            } else if f1 {
                assert(get_field(jj, ks[1]) is Some);
            } else if f2 {
                assert(get_field(jj, ks[2]) is Some);
            } else if f3 {
                assert(get_field(jj, ks[3]) is Some);
            } else if f4 {
                assert(get_field(jj, ks[4]) is Some);
            } else if f5 {
                assert(get_field(jj, ks[5]) is Some);
            } else {
                assert(get_field(jj, ks[6]) is Some);
            }
        } else {
            assert forall|i: int| 0 <= i < 7 implies !(#[trigger] get_field(jj, ks[i]) is Some) by {
                if i == 0 {
                } else if i == 1 {
                } else if i == 2 {
                } else if i == 3 {
                } else if i == 4 {
                } else if i == 5 {
                } else {
                }
            }
        }
    }
    f0 || f1 || f2 || f3 || f4 || f5 || f6
}

/// Whether `j` is an object with a field named `k`.
fn has_key(j: &Json, k: &str) -> (r: bool)
    ensures
        r == get_field(jv(*j), k@) is Some,
{
    let key = k.to_owned();
    field(j, &key).is_some()
}

/// The settings in effect from the client's and the project's layers (see
/// [`layered`]).
pub fn resolve_layers(client: Option<&Json>, project: Option<&Json>) -> (r: Json)
    ensures
        jv(r) == layered(
            match client {
                Some(c) => Some(jv(*c)),
                None => None,
            },
            match project {
                Some(p) => Some(jv(*p)),
                None => None,
            },
        ),
{
    let c = match client {
        Some(c) => unwrap_wrapper(c),
        None => Json::Null,
    };
    let p = match project {
        Some(p) => unwrap_wrapper(p),
        None => Json::Null,
    };
    merge_values(c, p)
}

/// What a deep merge gives for key `k`: the overlay's value merged over
/// the base's when both have it, otherwise whichever has it.
pub open spec fn merged_field(
    b: Seq<(Seq<char>, JsonV)>,
    o: Seq<(Seq<char>, JsonV)>,
    k: Seq<char>,
) -> Option<JsonV> {
    match (key_index(o, k), key_index(b, k)) {
        (Some(i), Some(j)) => Some(merged(b[j].1, o[i].1)),
        (Some(i), None) => Some(o[i].1),
        (None, Some(j)) => Some(b[j].1),
        (None, None) => None,
    }
}

/// Layering settings is a deep merge key by key: for every key, the
/// overlay's value wins where it sets one (merged into the base's value
/// when both are objects), and the base's value is kept where the overlay
/// does not mention the key. The overlay is an object with distinct keys,
/// as JSON objects are.
pub proof fn lemma_merge_key_by_key(
    b: Seq<(Seq<char>, JsonV)>,
    o: Seq<(Seq<char>, JsonV)>,
    k: Seq<char>,
)
    requires
        forall|i: int, j: int| 0 <= i < j < o.len() ==> (#[trigger] o[i]).0 != (#[trigger] o[j]).0,
    ensures
        get_field(merged(JsonV::Object(b), JsonV::Object(o)), k) == merged_field(b, o, k),
{
    lemma_merge_fields_keys(b, o, k, o.len() as int);
    assert(get_field(merged(JsonV::Object(b), JsonV::Object(o)), k) == field_value(merge_fields(b, o, o.len() as int), k));
    assert(o.take(o.len() as int) =~= o);
}

/// `key_index` finds the first field with the key, or none when no field
/// has it.
proof fn lemma_key_index_props(fs: Seq<(Seq<char>, JsonV)>, k: Seq<char>)
    ensures
        match key_index(fs, k) {
            Some(i) => 0 <= i < fs.len() && fs[i].0 == k && forall|j: int| 0 <= j < i ==> (#[trigger] fs[j]).0 != k,
            None => forall|i: int| 0 <= i < fs.len() ==> (#[trigger] fs[i]).0 != k,
        },
{
    if exists|i: int| 0 <= i < fs.len() && (#[trigger] fs[i]).0 == k {
        let w = choose|i: int| 0 <= i < fs.len() && (#[trigger] fs[i]).0 == k;
        lemma_first_exists(fs, k, w);
    }
}

/// Below a field with the key there is a first one.
proof fn lemma_first_exists(fs: Seq<(Seq<char>, JsonV)>, k: Seq<char>, w: int)
    requires
        0 <= w < fs.len(),
        fs[w].0 == k,
    ensures
        exists|i: int| 0 <= i < fs.len() && (#[trigger] fs[i]).0 == k && forall|j: int| 0 <= j < i ==> (#[trigger] fs[j]).0 != k,
    decreases w,
{
    if exists|j: int| 0 <= j < w && (#[trigger] fs[j]).0 == k {
        let j = choose|j: int| 0 <= j < w && (#[trigger] fs[j]).0 == k;
        lemma_first_exists(fs, k, j);
    } else {
        assert(forall|j: int| 0 <= j < w ==> (#[trigger] fs[j]).0 != k);
    }
}

/// The first field with the key is the one `key_index` finds.
proof fn lemma_key_index_is(fs: Seq<(Seq<char>, JsonV)>, k: Seq<char>, i: int)
    requires
        0 <= i < fs.len(),
        fs[i].0 == k,
        forall|j: int| 0 <= j < i ==> (#[trigger] fs[j]).0 != k,
    ensures
        key_index(fs, k) == Some(i),
{
    lemma_key_index_props(fs, k);
    let c = key_index(fs, k).unwrap();
    if c < i {
        assert(fs[c].0 != k);
    } else if c > i {
        assert(fs[i].0 != k);
    }
}

/// No field has the key: `key_index` finds none.
proof fn lemma_key_index_none(fs: Seq<(Seq<char>, JsonV)>, k: Seq<char>)
    requires
        forall|i: int| 0 <= i < fs.len() ==> (#[trigger] fs[i]).0 != k,
    ensures
        key_index(fs, k) is None,
{
}

/// Fields with the same keys in the same places are searched alike.
proof fn lemma_key_index_same_keys(f1: Seq<(Seq<char>, JsonV)>, f2: Seq<(Seq<char>, JsonV)>, k: Seq<char>)
    requires
        f1.len() == f2.len(),
        forall|i: int| 0 <= i < f1.len() ==> (#[trigger] f1[i]).0 == f2[i].0,
    ensures
        key_index(f1, k) == key_index(f2, k),
{
    lemma_key_index_props(f1, k);
    match key_index(f1, k) {
        Some(i) => {
            assert forall|j: int| 0 <= j < i implies (#[trigger] f2[j]).0 != k by {
                assert(f1[j].0 != k);
            }
            lemma_key_index_is(f2, k, i);
        },
        None => {
            assert forall|i: int| 0 <= i < f2.len() implies (#[trigger] f2[i]).0 != k by {
                assert(f1[i].0 != k);
            }
        },
    }
}

/// Adding a field keeps the first field of every key already present.
proof fn lemma_key_index_push(fs: Seq<(Seq<char>, JsonV)>, x: (Seq<char>, JsonV), k: Seq<char>)
    ensures
        key_index(fs.push(x), k) == (match key_index(fs, k) {
            Some(i) => Some(i),
            None => if x.0 == k {
                Some(fs.len() as int)
            } else {
                None
            },
        }),
{
    let g = fs.push(x);
    lemma_key_index_props(fs, k);
    match key_index(fs, k) {
        Some(i) => {
            assert forall|j: int| 0 <= j < i implies (#[trigger] g[j]).0 != k by {
                assert(g[j] == fs[j]);
            }
            assert(g[i] == fs[i]);
            lemma_key_index_is(g, k, i);
        },
        None => {
            if x.0 == k {
                assert forall|j: int| 0 <= j < fs.len() implies (#[trigger] g[j]).0 != k by {
                    assert(g[j] == fs[j]);
                }
                lemma_key_index_is(g, k, fs.len() as int);
            } else {
                assert forall|j: int| 0 <= j < g.len() implies (#[trigger] g[j]).0 != k by {
                    if j < fs.len() {
                        assert(g[j] == fs[j]);
                    }
                }
            }
        },
    }
}

/// The value of the first field of `fs` named `k`.
pub open spec fn field_value(fs: Seq<(Seq<char>, JsonV)>, k: Seq<char>) -> Option<JsonV> {
    match key_index(fs, k) {
        Some(i) => Some(fs[i].1),
        None => None,
    }
}

/// One step of the merge: the overlay field `x` merged into `acc`.
pub open spec fn merge_step(acc: Seq<(Seq<char>, JsonV)>, x: (Seq<char>, JsonV)) -> Seq<
    (Seq<char>, JsonV),
> {
    match key_index(acc, x.0) {
        Some(j) => acc.update(j, (x.0, merged(acc[j].1, x.1))),
        None => acc.push(x),
    }
}

/// The invariant of the key-by-key merge over the first `n` overlay fields.
proof fn lemma_merge_fields_keys(
    b: Seq<(Seq<char>, JsonV)>,
    o: Seq<(Seq<char>, JsonV)>,
    k: Seq<char>,
    n: int,
)
    requires
        0 <= n <= o.len(),
        forall|i: int, j: int| 0 <= i < j < o.len() ==> (#[trigger] o[i]).0 != (#[trigger] o[j]).0,
    ensures
        field_value(merge_fields(b, o, n), k) == merged_field(b, o.take(n), k),
    decreases n,
{
    if n == 0 {
        lemma_key_index_none(o.take(0), k);
    } else {
        lemma_merge_fields_keys(b, o, k, n - 1);
        lemma_merge_fields_keys(b, o, o[n - 1].0, n - 1);
        let op = o.take(n - 1);
        assert forall|j: int| 0 <= j < op.len() implies (#[trigger] op[j]).0 != o[n - 1].0 by {
            assert(op[j] == o[j]);
        }
        assert(o.take(n) =~= op.push(o[n - 1]));
        assert(merge_fields(b, o, n) == merge_step(merge_fields(b, o, n - 1), o[n - 1]));
        lemma_merge_step(b, op, o[n - 1], merge_fields(b, o, n - 1), k);
    }
}

/// One merge step keeps the invariant.
proof fn lemma_merge_step(
    b: Seq<(Seq<char>, JsonV)>,
    op: Seq<(Seq<char>, JsonV)>,
    x: (Seq<char>, JsonV),
    acc: Seq<(Seq<char>, JsonV)>,
    k: Seq<char>,
)
    requires
        forall|j: int| 0 <= j < op.len() ==> (#[trigger] op[j]).0 != x.0,
        field_value(acc, k) == merged_field(b, op, k),
        field_value(acc, x.0) == merged_field(b, op, x.0),
    ensures
        field_value(merge_step(acc, x), k) == merged_field(b, op.push(x), k),
{
    lemma_key_index_none(op, x.0);
    lemma_key_index_push(op, x, k);
    lemma_key_index_props(acc, x.0);
    let ox = op.push(x);
    if k == x.0 {
        assert(key_index(ox, k) == Some(op.len() as int));
        assert(ox[op.len() as int] == x);
    } else {
        assert(key_index(ox, k) == key_index(op, k));
        if let Some(i) = key_index(op, k) {
            lemma_key_index_props(op, k);
            assert(ox[i] == op[i]);
        }
        assert(merged_field(b, ox, k) == merged_field(b, op, k));
    }
    match key_index(acc, x.0) {
        Some(j) => {
            lemma_step_update(acc, x, k, j);
            assert(merge_step(acc, x) == acc.update(j, (x.0, merged(acc[j].1, x.1))));
        },
        None => {
            lemma_step_push(acc, x, k);
            assert(merge_step(acc, x) == acc.push(x));
        },
    }
}

/// Merging into a present key changes the value of that key only.
proof fn lemma_step_update(acc: Seq<(Seq<char>, JsonV)>, x: (Seq<char>, JsonV), k: Seq<char>, j: int)
    requires
        key_index(acc, x.0) == Some(j),
        0 <= j < acc.len(),
        acc[j].0 == x.0,
    ensures
        field_value(acc.update(j, (x.0, merged(acc[j].1, x.1))), k) == if k == x.0 {
            Some(merged(acc[j].1, x.1))
        } else {
            field_value(acc, k)
        },
{
    let new = acc.update(j, (x.0, merged(acc[j].1, x.1)));
    lemma_key_index_same_keys(new, acc, k);
    lemma_key_index_props(acc, k);
    if let Some(i) = key_index(acc, k) {
        if i != j {
            assert(new[i] == acc[i]);
        }
    }
}

/// Merging a new key appends it.
proof fn lemma_step_push(acc: Seq<(Seq<char>, JsonV)>, x: (Seq<char>, JsonV), k: Seq<char>)
    requires
        key_index(acc, x.0) is None,
    ensures
        field_value(acc.push(x), k) == if k == x.0 {
            Some(x.1)
        } else {
            field_value(acc, k)
        },
{
    lemma_key_index_push(acc, x, k);
    lemma_key_index_props(acc, k);
    lemma_key_index_props(acc, x.0);
    if let Some(i) = key_index(acc, k) {
        assert(acc.push(x)[i] == acc[i]);
    }
}

/// `serde_json::Value`, the value `jsonc-parser` hands back.
#[verifier::external_type_specification]
#[verifier::external_body]
pub struct ExSerdeValue(serde_json::Value);

/// The value `jsonc-parser` reads from `text` (comments and trailing commas
/// allowed), or `None` when the text is not valid JSONC.
pub uninterp spec fn jsonc_parsed(text: Seq<char>) -> Option<JsonV>;

/// `serde_json::Value` rewritten as a [`Json`], variant by variant (a number
/// as its text).
#[verifier::external_body]
fn value_to_json(v: &serde_json::Value) -> Json {
    match v {
        serde_json::Value::Null => Json::Null,
        serde_json::Value::Bool(b) => Json::Bool(*b),
        serde_json::Value::Number(n) => Json::Number(n.to_string()),
        serde_json::Value::String(t) => Json::Str(t.clone()),
        serde_json::Value::Array(a) => Json::Array(a.iter().map(value_to_json).collect()),
        serde_json::Value::Object(m) => Json::Object(
            m.iter().map(|(k, x)| (k.clone(), value_to_json(x))).collect(),
        ),
    }
}

/// Parses JSON with comments and trailing commas:
/// `jsonc_parser::parse_to_serde_value` with the default options, the value
/// rewritten as a [`Json`] and an error as its message. Claimed: the text
/// parses exactly when [`jsonc_parsed`] of it is a value, and then the result
/// is that value; nothing is stated of the error message.
#[verifier::external_body]
pub fn parse_jsonc_value(text: &str) -> (r: Result<Json, String>)
    ensures
        r is Ok <==> jsonc_parsed(text@) is Some,
        r matches Ok(j) ==> jsonc_parsed(text@) == Some(jv(j)),
{
    match jsonc_parser::parse_to_serde_value::<serde_json::Value>(text, &Default::default()) {
        Ok(v) => Ok(value_to_json(&v)),
        Err(e) => Err(e.to_string()),
    }
}

} // verus!
