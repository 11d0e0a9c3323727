//! JSON values as the manifest executor reads them: the context a cascade
//! carries, and the parameter mappings whose `$ref`s are bound from it.
use vstd::prelude::*;
use vstd::string::*;

verus! {

broadcast use vstd::std_specs::vec::group_vec_axioms;

/// A JSON value; a number is kept as its text.
#[derive(Debug)]
pub enum Json {
    Null,
    Bool(bool),
    Number(String),
    Text(String),
    Array(Vec<Json>),
    Object(Vec<(String, Json)>),
}

/// The view of a JSON value.
pub enum JsonView {
    Null,
    Bool(bool),
    Number(Seq<char>),
    Text(Seq<char>),
    Array(Seq<JsonView>),
    Object(Seq<(Seq<char>, JsonView)>),
}

/// The view of `j`.
pub open spec fn json_view(j: Json) -> JsonView
    decreases j,
{
    match j {
        Json::Null => JsonView::Null,
        Json::Bool(b) => JsonView::Bool(b),
        Json::Number(n) => JsonView::Number(n@),
        Json::Text(t) => JsonView::Text(t@),
        Json::Array(v) => JsonView::Array(items_view(v@)),
        Json::Object(m) => JsonView::Object(fields_view(m@)),
    }
}

/// The views of `s`.
pub open spec fn items_view(s: Seq<Json>) -> Seq<JsonView>
    decreases s,
{
    if s.len() == 0 {
        Seq::empty()
    } else {
        seq![json_view(s[0])] + items_view(s.subrange(1, s.len() as int))
    }
}

/// The views of the fields `s`.
pub open spec fn fields_view(s: Seq<(String, Json)>) -> Seq<(Seq<char>, JsonView)>
    decreases s,
{
    if s.len() == 0 {
        Seq::empty()
    } else {
        seq![(s[0].0@, json_view(s[0].1))] + fields_view(s.subrange(1, s.len() as int))
    }
}

/// The value of the first field of `fs` named `k`.
pub open spec fn field_of(fs: Seq<(Seq<char>, JsonView)>, k: Seq<char>) -> Option<JsonView>
    decreases fs.len(),
{
    if fs.len() == 0 {
        None
    } else if fs[0].0 == k {
        Some(fs[0].1)
    } else {
        field_of(fs.drop_first(), k)
    }
}

/// The value reached from `v` by following the field names `ps`.
pub open spec fn walk(v: JsonView, ps: Seq<Seq<char>>) -> Option<JsonView>
    decreases ps.len(),
{
    if ps.len() == 0 {
        Some(v)
    } else {
        match v {
            JsonView::Object(fs) => match field_of(fs, ps[0]) {
                Some(w) => walk(w, ps.drop_first()),
                None => None,
            },
            _ => None,
        }
    }
}

/// The value at the dot-separated path `path` of context `ctx`: the first
/// name looked up in the context, each further name in the object reached.
pub open spec fn resolve(path: Seq<char>, ctx: Seq<(Seq<char>, JsonView)>) -> Option<JsonView> {
    let ps = crate::text::pieces(path, '.');
    match field_of(ctx, ps[0]) {
        Some(v) => walk(v, ps.drop_first()),
        None => None,
    }
}

/// The path of a `{"$ref": path}` object.
pub open spec fn ref_path(fs: Seq<(Seq<char>, JsonView)>) -> Option<Seq<char>> {
    match field_of(fs, "$ref"@) {
        Some(JsonView::Text(p)) => Some(p),
        _ => None,
    }
}

/// `v` with its references bound from `ctx`: an object whose `$ref` path
/// names a context value, directly or as a dot-path, is that value; any
/// other object has its fields bound; anything else stays as it is.
pub open spec fn bound_value(v: JsonView, ctx: Seq<(Seq<char>, JsonView)>) -> JsonView
    decreases v,
{
    match v {
        JsonView::Object(fs) => match ref_path(fs) {
            Some(p) => match field_of(ctx, p) {
                Some(x) => x,
                None => match resolve(p, ctx) {
                    Some(x) => x,
                    None => JsonView::Object(bound_fields(fs, ctx)),
                },
            },
            None => JsonView::Object(bound_fields(fs, ctx)),
        },
        _ => v,
    }
}

/// The fields `fs`, each value bound from `ctx`.
pub open spec fn bound_fields(fs: Seq<(Seq<char>, JsonView)>, ctx: Seq<(Seq<char>, JsonView)>) -> Seq<(Seq<char>, JsonView)>
    decreases fs,
{
    if fs.len() == 0 {
        Seq::empty()
    } else {
        seq![(fs[0].0, bound_value(fs[0].1, ctx))] + bound_fields(fs.subrange(1, fs.len() as int), ctx)
    }
}

/// A parameter mapping with its references bound from `ctx`: an object has
/// each field bound; anything else stays as it is.
pub open spec fn bound_mapping(m: JsonView, ctx: Seq<(Seq<char>, JsonView)>) -> JsonView {
    match m {
        JsonView::Object(fs) => JsonView::Object(bound_fields(fs, ctx)),
        _ => m,
    }
}

proof fn lemma_items_view(s: Seq<Json>)
    ensures
        items_view(s).len() == s.len(),
        forall|i: int| 0 <= i < s.len() ==> #[trigger] items_view(s)[i] == json_view(s[i]),
    decreases s.len(),
{
    if s.len() > 0 {
        let t = s.subrange(1, s.len() as int);
        lemma_items_view(t);
        assert forall|i: int| 0 <= i < s.len() implies #[trigger] items_view(s)[i] == json_view(s[i]) by {
            if i > 0 {
                assert(s[i] == t[i - 1]);
            }
        }
    }
}

proof fn lemma_fields_view(s: Seq<(String, Json)>)
    ensures
        fields_view(s).len() == s.len(),
        forall|i: int| 0 <= i < s.len() ==> #[trigger] fields_view(s)[i] == (s[i].0@, json_view(s[i].1)),
    decreases s.len(),
{
    if s.len() > 0 {
        let t = s.subrange(1, s.len() as int);
        lemma_fields_view(t);
        assert forall|i: int| 0 <= i < s.len() implies #[trigger] fields_view(s)[i] == (s[i].0@, json_view(s[i].1)) by {
            if i > 0 {
                assert(s[i] == t[i - 1]);
            }
        }
    }
}

proof fn lemma_bound_fields(fs: Seq<(Seq<char>, JsonView)>, ctx: Seq<(Seq<char>, JsonView)>)
    ensures
        bound_fields(fs, ctx).len() == fs.len(),
        forall|i: int| 0 <= i < fs.len() ==> #[trigger] bound_fields(fs, ctx)[i] == (fs[i].0, bound_value(fs[i].1, ctx)),
    decreases fs.len(),
{
    if fs.len() > 0 {
        let t = fs.subrange(1, fs.len() as int);
        lemma_bound_fields(t, ctx);
        assert forall|i: int| 0 <= i < fs.len() implies #[trigger] bound_fields(fs, ctx)[i] == (fs[i].0, bound_value(fs[i].1, ctx)) by {
            if i > 0 {
                assert(fs[i] == t[i - 1]);
            }
        }
    }
}

/// A copy of `j`.
pub fn copy_json(j: &Json) -> (r: Json)
    ensures
        json_view(r) == json_view(*j),
    decreases j,
{
    match j {
        Json::Null => Json::Null,
        Json::Bool(b) => Json::Bool(*b),
        Json::Number(n) => Json::Number(n.clone()),
        Json::Text(t) => Json::Text(t.clone()),
        Json::Array(v) => {
            let mut out: Vec<Json> = Vec::new();
            let mut i: usize = 0;
            while i < v.len()
                invariant
                    *j == Json::Array(*v),
                    i <= v@.len(),
                    out@.len() == i,
                    forall|k: int| 0 <= k < i ==> #[trigger] json_view(out@[k]) == json_view(v@[k]),
                decreases v@.len() - i,
            {
                proof {
                    assert(decreases_to!(*j => (*j)->Array_0));
                    assert(decreases_to!(*v => v@));
                    assert(decreases_to!(v@ => v@[i as int]));
                    assert(decreases_to!(*j => v@[i as int]));
                }
                let c = copy_json(&v[i]);
                out.push(c);
                i = i + 1;
            }
            proof {
                lemma_items_view(out@);
                lemma_items_view(v@);
                assert(items_view(out@) =~= items_view(v@));
            }
            Json::Array(out)
        },
        Json::Object(fs) => {
            let mut out: Vec<(String, Json)> = Vec::new();
            let mut i: usize = 0;
            while i < fs.len()
                invariant
                    *j == Json::Object(*fs),
                    i <= fs@.len(),
                    out@.len() == i,
                    forall|k: int| 0 <= k < i ==> #[trigger] out@[k].0@ == fs@[k].0@ && json_view(out@[k].1) == json_view(fs@[k].1),
                decreases fs@.len() - i,
            {
                proof {
                    assert(decreases_to!(*j => (*j)->Object_0));
                    assert(decreases_to!(*fs => fs@));
                    assert(decreases_to!(fs@ => fs@[i as int]));
                    assert(decreases_to!(fs@[i as int] => fs@[i as int].1));
                    assert(decreases_to!(*j => fs@[i as int].1));
                }
                let c = copy_json(&fs[i].1);
                out.push((fs[i].0.clone(), c));
                i = i + 1;
            }
            proof {
                lemma_fields_view(out@);
                lemma_fields_view(fs@);
                assert(fields_view(out@) =~= fields_view(fs@));
            }
            Json::Object(out)
        },
    }
}

/// The value of the first field of `fs` named `k`.
pub fn lookup_field<'a>(fs: &'a Vec<(String, Json)>, k: &str) -> (r: Option<&'a Json>)
    ensures
        match field_of(fields_view(fs@), k@) {
            Some(v) => r matches Some(x) && json_view(*x) == v,
            None => r is None,
        },
{
    let n = fs.len();
    let mut i: usize = 0;
    proof {
        assert(fs@.subrange(0, n as int) =~= fs@);
    }
    while i < n
        invariant
            n == fs@.len(),
            i <= n,
            field_of(fields_view(fs@), k@) == field_of(fields_view(fs@.subrange(i as int, n as int)), k@),
        decreases n - i,
    {
        let ghost t = fs@.subrange(i as int, n as int);
        proof {
            assert(t.subrange(1, t.len() as int) =~= fs@.subrange(i + 1, n as int));
            assert(fields_view(t).drop_first() =~= fields_view(fs@.subrange(i + 1, n as int)));
            assert(t[0] == fs@[i as int]);
        }
        if crate::text::str_eq(fs[i].0.as_str(), k) {
            return Some(&fs[i].1);
        }
        i = i + 1;
    }
    None
}

/// The value at the dot-separated path `path` of context `ctx`.
pub fn resolve_dot_path(path: &str, ctx: &Vec<(String, Json)>) -> (r: Option<Json>)
    ensures
        match resolve(path@, fields_view(ctx@)) {
            Some(v) => r matches Some(x) && json_view(x) == v,
            None => r is None,
        },
{
    let parts = crate::text::split_pieces(path, '.');
    let ghost ps = crate::text::pieces(path@, '.');
    proof {
        assert(ps.len() >= 1);
        assert(parts@.map_values(|x: String| x@)[0] == parts@[0]@);
    }
    let mut current: &Json = match lookup_field(ctx, parts[0].as_str()) {
        Some(x) => x,
        None => return None,
    };
    let ghost first = json_view(*current);
    let mut i: usize = 1;
    proof {
        assert(ps.drop_first().subrange(0, ps.len() - 1) =~= ps.drop_first());
    }
    while i < parts.len()
        invariant
            ps == parts@.map_values(|x: String| x@),
            resolve(path@, fields_view(ctx@)) == walk(first, ps.drop_first()),
            1 <= i <= parts@.len(),
            walk(first, ps.drop_first()) == walk(json_view(*current), ps.subrange(i as int, ps.len() as int)),
        decreases parts@.len() - i,
    {
        let ghost rest = ps.subrange(i as int, ps.len() as int);
        proof {
            assert(rest[0] == parts@[i as int]@);
            assert(rest.drop_first() =~= ps.subrange(i + 1, ps.len() as int));
        }
        match current {
            Json::Object(fs) => {
                match lookup_field(fs, parts[i].as_str()) {
                    Some(x) => {
                        current = x;
                    },
                    None => return None,
                }
            },
            _ => return None,
        }
        i = i + 1;
    }
    proof {
        assert(ps.subrange(i as int, ps.len() as int).len() == 0);
    }
    Some(copy_json(current))
}

/// `v` with its references bound from `ctx`.
pub fn bind_value(v: &Json, ctx: &Vec<(String, Json)>) -> (r: Json)
    ensures
        json_view(r) == bound_value(json_view(*v), fields_view(ctx@)),
    decreases v,
{
    proof {
        reveal_strlit("$ref");
    }
    match v {
        Json::Object(fs) => {
            if let Some(Json::Text(p)) = lookup_field(fs, "$ref") {
                if let Some(x) = lookup_field(ctx, p.as_str()) {
                    return copy_json(x);
                }
                if let Some(x) = resolve_dot_path(p.as_str(), ctx) {
                    return x;
                }
            }
            Json::Object(bind_fields(fs, ctx))
        },
        _ => copy_json(v),
    }
}

/// The fields `fs`, each value bound from `ctx`.
pub fn bind_fields(fs: &Vec<(String, Json)>, ctx: &Vec<(String, Json)>) -> (r: Vec<(String, Json)>)
    ensures
        fields_view(r@) == bound_fields(fields_view(fs@), fields_view(ctx@)),
    decreases fs,
{
    let mut out: Vec<(String, Json)> = Vec::new();
    let mut i: usize = 0;
    while i < fs.len()
        invariant
            i <= fs@.len(),
            out@.len() == i,
            forall|k: int| 0 <= k < i ==> #[trigger] out@[k].0@ == fs@[k].0@
                && json_view(out@[k].1) == bound_value(json_view(fs@[k].1), fields_view(ctx@)),
        decreases fs@.len() - i,
    {
        let b = bind_value(&fs[i].1, ctx);
        out.push((fs[i].0.clone(), b));
        i = i + 1;
    }
    proof {
        lemma_fields_view(out@);
        lemma_fields_view(fs@);
        lemma_bound_fields(fields_view(fs@), fields_view(ctx@));
        assert(fields_view(out@) =~= bound_fields(fields_view(fs@), fields_view(ctx@)));
    }
    out
}

/// A parameter mapping with its references bound from context `ctx`.
pub fn bind_parameters(mapping: &Json, ctx: &Vec<(String, Json)>) -> (r: Json)
    ensures
        json_view(r) == bound_mapping(json_view(*mapping), fields_view(ctx@)),
{
    match mapping {
        Json::Object(fs) => Json::Object(bind_fields(fs, ctx)),
        _ => copy_json(mapping),
    }
}

} // verus!
