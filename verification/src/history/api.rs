//! The history query API: what a query string asks for, and what is answered.
//!
//! An answer is exactly the rows the sampler wrote. There is no gap filling,
//! no zero padding and no carry-forward.
use crate::auth::{
    auth_required, auth_required_view, error_json, error_view, plain, plain_view, Reply, ReplyView,
};
use crate::config::{instance_at, instance_views, Config};
use crate::headers::Headers;
use crate::exposition::{lemma_words, words_to};
use crate::history::catalog::{
    all, catalog, entries, lookup, named, opt_text, series_count, Honesty, Kind, Series, SeriesView,
    Source,
};
use crate::history::prom::shifted;
use crate::history::store::{sole, Query, StoreError, MAX_POINTS_PER_SERIES, NATIVE_STEP_S};
use crate::json::{
    j_array, j_object1, j_text, law_members_are_found_by_name, member_trees, t_object1, t_opt_text,
    trees, Json, Notation, Numeric, ObjectBuilder, Tree,
};
use crate::state::AppState;
use crate::text::{
    cat2, cat3, chars_of, decimal, decimal_int, decimal_of, integer_value, is_ascii_digit,
    law_a_prefix_is_what_stands_in_front, law_decimal_reads_back, law_pieces_end_at_the_separator,
    law_signed_decimal_reads_back, lemma_run_is, pieces, read_i64, run, run_end, same, split,
    strip_prefix, stripped, text_of, views, Class,
};
use vstd::prelude::*;
use vstd::slice::{slice_subrange, slice_to_vec};

verus! {

/// Window of a query that names no range.
pub const DEFAULT_WINDOW_MS: i64 = 900_000;

// ---------------------------------------------------------------------------
// Query strings

/// A pair split at its first `=`; a key alone has an empty value.
pub open spec fn key_value(pair: Seq<char>) -> (Seq<char>, Seq<char>) {
    let n = run(pair, Class::Not('=')) as int;
    if n < pair.len() {
        (pair.take(n), pair.skip(n + 1))
    } else {
        (pair, Seq::empty())
    }
}

/// Splits a pair at its first `=`.
pub fn split_pair(pair: &[char]) -> (r: (Vec<char>, Vec<char>))
    ensures
        (r.0@, r.1@) == key_value(pair@),
{
    let n = run_end(pair, 0, &Class::Not('='));
    proof {
        assert(pair@.skip(0) =~= pair@);
        assert(pair@.subrange(0, n as int) =~= pair@.take(n as int));
    }
    if n < pair.len() {
        let value = slice_subrange(pair, n + 1, pair.len());
        assert(value@ =~= pair@.skip(n + 1));
        (slice_to_vec(slice_subrange(pair, 0, n)), slice_to_vec(value))
    } else {
        let empty: Vec<char> = Vec::new();
        assert(empty@ =~= Seq::<char>::empty());
        (slice_to_vec(pair), empty)
    }
}

/// What the parameters said so far.
pub struct Asked {
    pub series: Option<Seq<char>>,
    pub from_ms: Option<int>,
    pub to_ms: Option<int>,
    pub step_s: int,
}

/// An integer parameter, or why it is not one.
pub open spec fn integer_of(key: Seq<char>, value: Seq<char>) -> Result<int, Seq<char>> {
    match integer_value(value) {
        Some(n) => if i64::MIN <= n <= i64::MAX {
            Ok(n)
        } else {
            Err("query parameter '"@ + key + "' must be an integer"@)
        },
        None => Err("query parameter '"@ + key + "' must be an integer"@),
    }
}

/// What a pair says on top of what was said; an empty pair says nothing, and
/// an unknown parameter is an error rather than a silent no-op.
pub open spec fn said(asked: Asked, pair: Seq<char>) -> Result<Asked, Seq<char>> {
    let (key, value) = key_value(pair);
    if pair.len() == 0 {
        Ok(asked)
    } else if key == "series"@ {
        Ok(Asked { series: Some(value), ..asked })
    } else if key == "from_ms"@ {
        match integer_of(key, value) {
            Ok(n) => Ok(Asked { from_ms: Some(n), ..asked }),
            Err(error) => Err(error),
        }
    } else if key == "to_ms"@ {
        match integer_of(key, value) {
            Ok(n) => Ok(Asked { to_ms: Some(n), ..asked }),
            Err(error) => Err(error),
        }
    } else if key == "step_s"@ {
        match integer_of(key, value) {
            Ok(n) => Ok(Asked { step_s: n, ..asked }),
            Err(error) => Err(error),
        }
    } else {
        Err("unknown query parameter '"@ + key + "'"@)
    }
}

/// What a list of pairs says; the first error counts.
pub open spec fn all_said(pairs: Seq<Seq<char>>) -> Result<Asked, Seq<char>>
    decreases pairs.len(),
{
    if pairs.len() == 0 {
        Ok(Asked { series: None, from_ms: None, to_ms: None, step_s: NATIVE_STEP_S as int })
    } else {
        match all_said(pairs.drop_last()) {
            Ok(asked) => said(asked, pairs.last()),
            Err(error) => Err(error),
        }
    }
}

/// Names in quotes, with commas between them.
pub open spec fn quoted_names(names: Seq<Seq<char>>) -> Seq<char>
    decreases names.len(),
{
    if names.len() == 0 {
        Seq::empty()
    } else if names.len() == 1 {
        "'"@ + names[0] + "'"@
    } else {
        quoted_names(names.drop_last()) + ", '"@ + names.last() + "'"@
    }
}

/// Those of a list of names that the catalog knows, or does not know; empty
/// names are passed over.
pub open spec fn sifted(names: Seq<Seq<char>>, known: bool) -> Seq<Seq<char>>
    decreases names.len(),
{
    if names.len() == 0 {
        Seq::empty()
    } else {
        let head = sifted(names.drop_last(), known);
        let name = names.last();
        if name.len() > 0 && (named(name) is Some) == known {
            head.push(name)
        } else {
            head
        }
    }
}

/// The names of the whole catalog, in order.
pub open spec fn all_names() -> Seq<Seq<char>> {
    catalog().map_values(|series: SeriesView| series.name)
}

/// The series that a `series` parameter asks for.
pub open spec fn series_of(text: Option<Seq<char>>) -> Result<Seq<Seq<char>>, Seq<char>> {
    match text {
        None => Ok(all_names()),
        Some(t) => {
            let names = pieces(t, ',');
            let unknown = sifted(names, false);
            let resolved = sifted(names, true);
            if unknown.len() > 0 {
                Err("unknown series: "@ + quoted_names(unknown))
            } else if resolved.len() == 0 {
                Err("query parameter 'series' named no series"@)
            } else {
                Ok(resolved)
            }
        },
    }
}

/// A query, as mathematical values.
pub struct ParamsView {
    pub series: Seq<Seq<char>>,
    pub from_ms: int,
    pub to_ms: int,
    pub step_s: int,
}

/// The range and step that were asked for: checked throughout, and refused
/// rather than truncated where they would return too many points.
pub open spec fn ranged(
    series: Seq<Seq<char>>,
    asked: Asked,
    now_ms: int,
) -> Result<ParamsView, Seq<char>> {
    let to = match asked.to_ms {
        Some(n) => n,
        None => now_ms,
    };
    let from = match asked.from_ms {
        Some(n) => n,
        None => to - DEFAULT_WINDOW_MS,
    };
    let step = asked.step_s;
    if from < i64::MIN {
        Err("to_ms is out of range"@)
    } else if to <= from {
        Err("to_ms must be greater than from_ms"@)
    } else if step < 1 {
        Err("step_s must be at least 1"@)
    } else if to - from > i64::MAX {
        Err("from_ms/to_ms range is too large"@)
    } else if step * 1000 > i64::MAX {
        Err("step_s is too large"@)
    } else if (to - from) / (step * 1000) > MAX_POINTS_PER_SERIES {
        Err(
            "range would return "@ + decimal(((to - from) / (step * 1000)) as nat)
                + " points per series at step_s="@ + decimal(step as nat)
                + "; raise step_s (limit 20000)"@,
        )
    } else {
        Ok(ParamsView { series, from_ms: from, to_ms: to, step_s: step })
    }
}

/// What a query string asks for.
pub open spec fn query_of(query: Option<Seq<char>>, now_ms: int) -> Result<ParamsView, Seq<char>> {
    let text = match query {
        Some(t) => t,
        None => Seq::empty(),
    };
    match all_said(pieces(text, '&')) {
        Err(error) => Err(error),
        Ok(asked) => match series_of(asked.series) {
            Err(error) => Err(error),
            Ok(series) => ranged(series, asked, now_ms),
        },
    }
}

/// A query.
#[derive(Debug)]
pub struct Params {
    pub series: Vec<String>,
    pub from_ms: i64,
    pub to_ms: i64,
    pub step_s: i64,
}

impl View for Params {
    type V = ParamsView;

    open spec fn view(&self) -> ParamsView {
        ParamsView {
            series: self.series.deep_view(),
            from_ms: self.from_ms as int,
            to_ms: self.to_ms as int,
            step_s: self.step_s as int,
        }
    }
}

pub open spec fn params_view(r: Result<Params, String>) -> Result<ParamsView, Seq<char>> {
    match r {
        Ok(params) => Ok(params@),
        Err(error) => Err(error@),
    }
}

/// An integer parameter.
pub fn integer(key: &str, value: &[char]) -> (r: Result<i64, String>)
    ensures
        match r {
            Ok(n) => integer_of(key@, value@) == Ok::<int, Seq<char>>(n as int),
            Err(error) => integer_of(key@, value@) == Err::<int, Seq<char>>(error@),
        },
{
    match read_i64(value) {
        Some(n) => Ok(n),
        None => Err(cat3("query parameter '", key, "' must be an integer")),
    }
}

/// Names in quotes, with commas between them.
pub fn quoted(names: &Vec<String>) -> (r: String)
    ensures
        r@ == quoted_names(names.deep_view()),
{
    let ghost all = names.deep_view();
    if names.len() == 0 {
        return String::new();
    }
    let mut r = cat3("'", names[0].as_str(), "'");
    assert(all.take(1)[0] == names@[0]@);
    let mut i: usize = 1;
    while i < names.len()
        invariant
            1 <= i <= names@.len(),
            all == names.deep_view(),
            r@ == quoted_names(all.take(i as int)),
        decreases names@.len() - i,
    {
        proof {
            let next = all.take(i + 1);
            assert(next.drop_last() =~= all.take(i as int));
            assert(next.last() == names@[i as int]@);
        }
        let head = cat2(r.as_str(), ", '");
        r = cat3(head.as_str(), names[i].as_str(), "'");
        i += 1;
    }
    assert(all.take(all.len() as int) =~= all);
    r
}

struct Parsed {
    series: Option<Vec<char>>,
    from_ms: Option<i64>,
    to_ms: Option<i64>,
    step_s: i64,
}

impl Parsed {
    spec fn asked(&self) -> Asked {
        Asked {
            series: match self.series {
                Some(text) => Some(text@),
                None => None,
            },
            from_ms: match self.from_ms {
                Some(n) => Some(n as int),
                None => None,
            },
            to_ms: match self.to_ms {
                Some(n) => Some(n as int),
                None => None,
            },
            step_s: self.step_s as int,
        }
    }
}

proof fn lemma_said_fails(pairs: Seq<Seq<char>>, n: int)
    requires
        0 <= n <= pairs.len(),
        all_said(pairs.take(n)) is Err,
    ensures
        all_said(pairs) == all_said(pairs.take(n)),
    decreases pairs.len() - n,
{
    if n == pairs.len() {
        assert(pairs.take(n) =~= pairs);
    } else {
        assert(pairs.take(n + 1).drop_last() =~= pairs.take(n));
        lemma_said_fails(pairs, n + 1);
    }
}

fn read_pairs(query: &str) -> (r: Result<Parsed, String>)
    ensures
        match r {
            Ok(parsed) => all_said(pieces(query@, '&')) == Ok::<Asked, Seq<char>>(parsed.asked()),
            Err(error) => all_said(pieces(query@, '&')) == Err::<Asked, Seq<char>>(error@),
        },
{
    let chars = chars_of(query);
    let pairs = split(chars.as_slice(), '&');
    let ghost list = views(pairs@);
    let mut parsed = Parsed { series: None, from_ms: None, to_ms: None, step_s: NATIVE_STEP_S };
    for i in 0..pairs.len()
        invariant
            list == views(pairs@),
            list == pieces(query@, '&'),
            all_said(list.take(i as int)) == Ok::<Asked, Seq<char>>(parsed.asked()),
    {
        proof {
            let next = list.take(i + 1);
            assert(next.drop_last() =~= list.take(i as int));
            assert(next.last() == pairs@[i as int]@);
        }
        if pairs[i].len() > 0 {
            let (key, value) = split_pair(pairs[i].as_slice());
            let key = text_of(key.as_slice());
            if same(key.as_str(), "series") {
                parsed.series = Some(value);
            } else if same(key.as_str(), "from_ms") {
                match integer(key.as_str(), value.as_slice()) {
                    Ok(n) => {
                        parsed.from_ms = Some(n);
                    },
                    Err(error) => {
                        proof {
                            lemma_said_fails(list, i + 1);
                        }
                        return Err(error);
                    },
                }
            } else if same(key.as_str(), "to_ms") {
                match integer(key.as_str(), value.as_slice()) {
                    Ok(n) => {
                        parsed.to_ms = Some(n);
                    },
                    Err(error) => {
                        proof {
                            lemma_said_fails(list, i + 1);
                        }
                        return Err(error);
                    },
                }
            } else if same(key.as_str(), "step_s") {
                match integer(key.as_str(), value.as_slice()) {
                    Ok(n) => {
                        parsed.step_s = n;
                    },
                    Err(error) => {
                        proof {
                            lemma_said_fails(list, i + 1);
                        }
                        return Err(error);
                    },
                }
            } else {
                proof {
                    lemma_said_fails(list, i + 1);
                }
                return Err(cat3("unknown query parameter '", key.as_str(), "'"));
            }
        }
    }
    assert(list.take(list.len() as int) =~= list);
    Ok(parsed)
}

fn catalog_names() -> (r: Vec<String>)
    ensures
        r.deep_view() == all_names(),
{
    let v = all();
    let mut r: Vec<String> = Vec::new();
    for i in 0..v.len()
        invariant
            entries(v@) == catalog(),
            r@.len() == i,
            forall|j: int| 0 <= j < i ==> (#[trigger] r@[j])@ == catalog()[j].name,
    {
        assert(entries(v@)[i as int] == v@[i as int]@);
        r.push(v[i].name.clone());
    }
    assert(entries(v@).len() == v@.len());
    assert(r.deep_view() =~= all_names());
    r
}

fn read_series(text: &Vec<char>) -> (r: Result<Vec<String>, String>)
    ensures
        match r {
            Ok(names) => series_of(Some(text@)) == Ok::<Seq<Seq<char>>, Seq<char>>(
                names.deep_view(),
            ),
            Err(error) => series_of(Some(text@)) == Err::<Seq<Seq<char>>, Seq<char>>(error@),
        },
{
    let names = split(text.as_slice(), ',');
    let ghost list = views(names@);
    let mut resolved: Vec<String> = Vec::new();
    let mut unknown: Vec<String> = Vec::new();
    assert(resolved.deep_view() =~= sifted(list.take(0), true));
    assert(unknown.deep_view() =~= sifted(list.take(0), false));
    for i in 0..names.len()
        invariant
            list == views(names@),
            resolved.deep_view() == sifted(list.take(i as int), true),
            unknown.deep_view() == sifted(list.take(i as int), false),
    {
        let ghost before = (resolved.deep_view(), unknown.deep_view());
        proof {
            let next = list.take(i + 1);
            assert(next.drop_last() =~= list.take(i as int));
            assert(next.last() == names@[i as int]@);
        }
        if names[i].len() > 0 {
            let name = text_of(names[i].as_slice());
            let ghost view = name@;
            if lookup(name.as_str()).is_some() {
                resolved.push(name);
                assert(resolved.deep_view() =~= before.0.push(view));
            } else {
                unknown.push(name);
                assert(unknown.deep_view() =~= before.1.push(view));
            }
        }
    }
    assert(list.take(list.len() as int) =~= list);
    assert(unknown.deep_view().len() == unknown@.len());
    assert(resolved.deep_view().len() == resolved@.len());
    if unknown.len() > 0 {
        return Err(cat2("unknown series: ", quoted(&unknown).as_str()));
    }
    if resolved.len() == 0 {
        return Err("query parameter 'series' named no series".to_owned());
    }
    Ok(resolved)
}

impl Params {
    /// What a query string asks for: strict, so that a typo can never look
    /// like a working narrower query, and byte-exact.
    pub fn parse(query: Option<&str>, now_ms: i64) -> (r: Result<Params, String>)
        ensures
            params_view(r) == query_of(opt_text(query), now_ms as int),
    {
        let parsed = match query {
            Some(text) => read_pairs(text),
            None => {
                proof {
                    reveal_strlit("");
                    assert(""@ =~= Seq::<char>::empty());
                }
                read_pairs("")
            },
        };
        let parsed = match parsed {
            Ok(parsed) => parsed,
            Err(error) => {
                return Err(error);
            },
        };
        let series = match &parsed.series {
            None => catalog_names(),
            Some(text) => match read_series(text) {
                Ok(names) => names,
                Err(error) => {
                    return Err(error);
                },
            },
        };
        let to_ms: i64 = match parsed.to_ms {
            Some(n) => n,
            None => now_ms,
        };
        let from_ms: i64 = match parsed.from_ms {
            Some(n) => n,
            None => match to_ms.checked_sub(DEFAULT_WINDOW_MS) {
                Some(n) => n,
                None => {
                    return Err("to_ms is out of range".to_owned());
                },
            },
        };
        let step_s: i64 = parsed.step_s;
        if to_ms <= from_ms {
            return Err("to_ms must be greater than from_ms".to_owned());
        }
        if step_s < 1 {
            return Err("step_s must be at least 1".to_owned());
        }
        let span_ms: i64 = match to_ms.checked_sub(from_ms) {
            Some(n) => n,
            None => {
                return Err("from_ms/to_ms range is too large".to_owned());
            },
        };
        let step_ms: i64 = match step_s.checked_mul(1000) {
            Some(n) => n,
            None => {
                return Err("step_s is too large".to_owned());
            },
        };
        let points: u64 = (span_ms as u64) / (step_ms as u64);
        if points > MAX_POINTS_PER_SERIES as u64 {
            let head = cat3(
                "range would return ",
                decimal_of(points).as_str(),
                " points per series at step_s=",
            );
            return Err(
                cat3(
                    head.as_str(),
                    decimal_of(step_s as u64).as_str(),
                    "; raise step_s (limit 20000)",
                ),
            );
        }
        Ok(Params { series, from_ms, to_ms, step_s })
    }
}

// ---------------------------------------------------------------------------
// Resolution

/// The instance segment of a history path.
pub open spec fn path_name(path: Seq<char>) -> Option<Seq<char>> {
    match stripped(path, "/v1/history/"@) {
        Some(rest) => Some(rest.take(run(rest, Class::Not('/')) as int)),
        None => None,
    }
}

/// The instance segment of a history path.
pub fn name_in_path(path: &str) -> (r: Option<String>)
    ensures
        match r {
            Some(name) => path_name(path@) == Some(name@),
            None => path_name(path@) is None,
        },
{
    let v = chars_of(path);
    match strip_prefix(v.as_slice(), "/v1/history/") {
        Some(rest) => {
            let end = run_end(rest, 0, &Class::Not('/'));
            proof {
                assert(rest@.skip(0) =~= rest@);
                assert(rest@.subrange(0, end as int) =~= rest@.take(end as int));
            }
            Some(text_of(slice_subrange(rest, 0, end)))
        },
        None => None,
    }
}

/// The history plane is switched off.
pub open spec fn history_disabled_view() -> ReplyView {
    error_view(
        503,
        "history_unavailable"@,
        "the history plane is disabled on this console"@,
    )
}

/// A name that is not configured.
pub open spec fn unknown_instance_view() -> ReplyView {
    error_view(404, "not_found"@, "unknown instance"@)
}

/// The answer for a name that is not configured.
pub fn unknown_instance() -> (r: Reply)
    ensures
        r@ == unknown_instance_view(),
{
    error_json(404, "not_found", "unknown instance")
}

/// The instance that a history request is about. Authentication comes first,
/// so that nobody can enumerate names; then the name; then the history plane.
pub open spec fn resolved(
    authorized: bool,
    config: &Config,
    history: bool,
    path: Seq<char>,
) -> Result<Seq<char>, ReplyView> {
    let known = match path_name(path) {
        Some(name) => instance_at(instance_views(config.instances@), name) is Some,
        None => false,
    };
    if !authorized {
        Err(auth_required_view())
    } else if !known {
        Err(unknown_instance_view())
    } else if !history {
        Err(history_disabled_view())
    } else {
        Ok(path_name(path)->0)
    }
}

/// The instance that a history request is about.
pub fn resolve(authorized: bool, config: &Config, history: bool, path: &str) -> (r: Result<
    String,
    Reply,
>)
    ensures
        match r {
            Ok(name) => resolved(authorized, config, history, path@) == Ok::<Seq<char>, ReplyView>(
                name@,
            ),
            Err(reply) => resolved(authorized, config, history, path@) == Err::<
                Seq<char>,
                ReplyView,
            >(reply@),
        },
{
    if !authorized {
        return Err(auth_required());
    }
    let name = match name_in_path(path) {
        Some(name) => name,
        None => {
            return Err(unknown_instance());
        },
    };
    if config.instance(name.as_str()).is_none() {
        return Err(unknown_instance());
    }
    if !history {
        return Err(
            error_json(
                503,
                "history_unavailable",
                "the history plane is disabled on this console",
            ),
        );
    }
    Ok(name)
}

// ---------------------------------------------------------------------------
// Answers

/// How the listing describes a series.
pub open spec fn described(series: SeriesView) -> Tree {
    Tree::Object(
        seq![
            ("name"@, Tree::Text(series.name)),
            ("kind"@, Tree::Text(series.kind.text())),
            ("source"@, Tree::Text(series.source.text())),
            ("honesty_path"@, t_opt_text(series.honesty_path)),
            ("unit"@, Tree::Text(series.unit)),
        ],
    )
}

/// How the listing describes a series.
pub fn describe(series: &Series) -> (r: Json)
    ensures
        r.tree() == described(series@),
{
    let mut object = ObjectBuilder::new();
    object.put("name", j_text(series.name.as_str()));
    object.put("kind", j_text(series.kind.as_str()));
    object.put("source", j_text(series.source.as_str()));
    object.put(
        "honesty_path",
        match series.honesty_path {
            Some(path) => j_text(path),
            None => Json::Null,
        },
    );
    object.put("unit", j_text(series.unit));
    proof {
        let expected = described(series@)->Object_0;
        assert(crate::json::member_trees(object.members@) =~= expected);
    }
    object.done()
}

/// The listing of the whole catalog.
pub open spec fn listing() -> Tree {
    t_object1("series"@, Tree::Array(catalog().map_values(|series: SeriesView| described(series))))
}

/// The listing of the whole catalog.
pub fn series_list() -> (r: Json)
    ensures
        r.tree() == listing(),
{
    let v = all();
    let mut items: Vec<Json> = Vec::new();
    for i in 0..v.len()
        invariant
            entries(v@) == catalog(),
            items@.len() == i,
            forall|j: int| 0 <= j < i ==> (#[trigger] items@[j]).tree() == described(catalog()[j]),
    {
        assert(entries(v@)[i as int] == v@[i as int]@);
        items.push(describe(&v[i]));
    }
    assert(entries(v@).len() == v@.len());
    assert(trees(items@) =~= catalog().map_values(|series: SeriesView| described(series)));
    j_object1("series", j_array(items))
}

/// A point of an answer: a timestamp and the bits of its value.
pub open spec fn point_tree(point: (i64, u64)) -> Tree {
    Tree::Array(
        seq![
            Tree::Whole(point.0 as int),
            Tree::Number(Numeric { notation: Notation::Double, bits: point.1 }),
        ],
    )
}

fn point_json(point: (i64, u64)) -> (r: Json)
    ensures
        r.tree() == point_tree(point),
{
    let mut items: Vec<Json> = Vec::new();
    items.push(Json::Whole(point.0));
    items.push(Json::Number(Numeric { notation: Notation::Double, bits: point.1 }));
    assert(trees(items@) =~= seq![
        Tree::Whole(point.0 as int),
        Tree::Number(Numeric { notation: Notation::Double, bits: point.1 }),
    ]);
    j_array(items)
}

/// What is answered for one series: no rows make no honesty claim, and rows
/// that disagree get none either.
pub open spec fn series_answer(
    name: Seq<char>,
    points: Seq<(i64, u64)>,
    tags: Seq<Honesty>,
) -> Tree {
    Tree::Object(
        seq![
            (
                "kind"@,
                t_opt_text(
                    match named(name) {
                        Some(series) => Some(series.kind.text()),
                        None => None,
                    },
                ),
            ),
            (
                "source"@,
                t_opt_text(
                    match named(name) {
                        Some(series) => Some(series.source.text()),
                        None => None,
                    },
                ),
            ),
            ("points"@, Tree::Array(points.map_values(|p: (i64, u64)| point_tree(p)))),
            (
                "honesty"@,
                t_opt_text(
                    match sole(tags) {
                        Some(tag) => Some(tag.text()),
                        None => None,
                    },
                ),
            ),
            ("honesty_tags"@, Tree::Array(tags.map_values(|tag: Honesty| Tree::Text(tag.text())))),
        ],
    )
}

/// What is answered for one series.
pub fn answer_series(name: &str, points: &Vec<(i64, u64)>, tags: &Vec<Honesty>) -> (r: Json)
    ensures
        r.tree() == series_answer(name@, points@, tags@),
{
    let entry = lookup(name);
    let mut point_items: Vec<Json> = Vec::new();
    for i in 0..points.len()
        invariant
            point_items@.len() == i,
            forall|j: int|
                0 <= j < i ==> (#[trigger] point_items@[j]).tree() == point_tree(points@[j]),
    {
        point_items.push(point_json(points[i]));
    }
    assert(trees(point_items@) =~= points@.map_values(|p: (i64, u64)| point_tree(p)));
    let mut tag_items: Vec<Json> = Vec::new();
    for i in 0..tags.len()
        invariant
            tag_items@.len() == i,
            forall|j: int|
                0 <= j < i ==> (#[trigger] tag_items@[j]).tree() == Tree::Text(tags@[j].text()),
    {
        tag_items.push(j_text(tags[i].as_str()));
    }
    assert(trees(tag_items@) =~= tags@.map_values(|tag: Honesty| Tree::Text(tag.text())));
    let mut object = ObjectBuilder::new();
    object.put(
        "kind",
        match &entry {
            Some(series) => j_text(series.kind.as_str()),
            None => Json::Null,
        },
    );
    object.put(
        "source",
        match &entry {
            Some(series) => j_text(series.source.as_str()),
            None => Json::Null,
        },
    );
    object.put("points", j_array(point_items));
    object.put(
        "honesty",
        if tags.len() == 1 {
            j_text(tags[0].as_str())
        } else {
            Json::Null
        },
    );
    object.put("honesty_tags", j_array(tag_items));
    proof {
        let expected = series_answer(name@, points@, tags@)->Object_0;
        assert(crate::json::member_trees(object.members@) =~= expected);
    }
    object.done()
}

/// The data of one series in an answer.
#[derive(Debug)]
pub struct Answered {
    pub name: String,
    pub points: Vec<(i64, u64)>,
    pub tags: Vec<Honesty>,
}

impl Answered {
    pub open spec fn tree(&self) -> Tree {
        series_answer(self.name@, self.points@, self.tags@)
    }
}

/// The place of a member.
pub open spec fn member_at(members: Seq<(Seq<char>, Tree)>, key: Seq<char>) -> Option<int>
    decreases members.len(),
{
    if members.len() == 0 {
        None
    } else if members[0].0 == key {
        Some(0)
    } else {
        shifted(1, member_at(members.skip(1), key))
    }
}

/// The members of an answer: each series once, under its name.
pub open spec fn answer_members(answers: Seq<Answered>) -> Seq<(Seq<char>, Tree)>
    decreases answers.len(),
{
    if answers.len() == 0 {
        Seq::empty()
    } else {
        let head = answer_members(answers.drop_last());
        let last = answers.last();
        match member_at(head, last.name@) {
            Some(i) => head.update(i, (last.name@, last.tree())),
            None => head.push((last.name@, last.tree())),
        }
    }
}

fn find_member(members: &Vec<(String, Json)>, key: &str) -> (r: Option<usize>)
    ensures
        match r {
            Some(i) => i < members@.len() && member_at(member_trees(members@), key@) == Some(
                i as int,
            ),
            None => member_at(member_trees(members@), key@) is None,
        },
{
    let ghost all = member_trees(members@);
    assert(all.skip(0) =~= all);
    let mut i: usize = 0;
    while i < members.len()
        invariant
            i <= members@.len(),
            all == member_trees(members@),
            member_at(all, key@) == shifted(i as int, member_at(all.skip(i as int), key@)),
        decreases members@.len() - i,
    {
        let ghost rest = all.skip(i as int);
        assert(rest[0] == (members@[i as int].0@, members@[i as int].1.tree()));
        if same(members[i].0.as_str(), key) {
            return Some(i);
        }
        assert(rest.skip(1) =~= all.skip(i + 1));
        i += 1;
    }
    assert(all.skip(all.len() as int).len() == 0);
    None
}

/// The answer to a query, given what was read for each of its series.
pub fn answer(answers: &Vec<Answered>) -> (r: Reply)
    ensures
        r@ == plain_view(200, t_object1("series"@, Tree::Object(answer_members(answers@)))),
{
    let mut members: Vec<(String, Json)> = Vec::new();
    assert(member_trees(members@) =~= answer_members(answers@.take(0)));
    for i in 0..answers.len()
        invariant
            member_trees(members@) == answer_members(answers@.take(i as int)),
    {
        let item = &answers[i];
        let ghost before = member_trees(members@);
        proof {
            let next = answers@.take(i + 1);
            assert(next.drop_last() =~= answers@.take(i as int));
            assert(next.last() == *item);
        }
        let json = answer_series(item.name.as_str(), &item.points, &item.tags);
        let ghost entry = (item.name@, item.tree());
        match find_member(&members, item.name.as_str()) {
            Some(at) => {
                members.set(at, (item.name.clone(), json));
                assert(member_trees(members@) =~= before.update(at as int, entry));
            },
            None => {
                members.push((item.name.clone(), json));
                assert(member_trees(members@) =~= before.push(entry));
            },
        }
    }
    assert(answers@.take(answers@.len() as int) =~= answers@);
    let object = ObjectBuilder { members };
    plain(200, j_object1("series", object.done()))
}

/// The answer where the store could not be read.
pub open spec fn store_unavailable_view() -> ReplyView {
    error_view(500, "internal_error"@, "history store unavailable"@)
}

/// The answer where the store could not be read, and the line to log.
pub fn query_failed(error: &StoreError) -> (r: (Reply, String))
    ensures
        r.0@ == store_unavailable_view(),
        r.1@ == "history query failed: "@ + error.text(),
{
    let reason = error.message();
    (
        error_json(500, "internal_error", "history store unavailable"),
        cat2("history query failed: ", reason.as_str()),
    )
}

impl AppState {
    /// The instance that a history request is about, or the refusal.
    pub open spec fn history_target(&self, headers: &Headers, path: Seq<char>, now: u64) -> Result<
        Seq<char>,
        ReplyView,
    > {
        resolved(self.may_read(headers, now), &self.config, self.history, path)
    }

    /// Lists the series.
    pub fn history_series(&mut self, headers: &Headers, path: &str, now: u64) -> (r: Reply)
        ensures
            r@ == (match old(self).history_target(headers, path@, now) {
                Ok(_) => plain_view(200, listing()),
                Err(view) => view,
            }),
            final(self).sessions@ == old(self).sessions_after(headers, now),
            final(self).keeps(old(self)),
            final(self).tickets == old(self).tickets,
            final(self).pairings == old(self).pairings,
    {
        let authorized = self.authorized_read(headers, now);
        match resolve(authorized, &self.config, self.history, path) {
            Ok(_) => plain(200, series_list()),
            Err(reply) => reply,
        }
    }

    /// What a history request reads, or the refusal.
    pub fn history_query(
        &mut self,
        headers: &Headers,
        path: &str,
        query: Option<&str>,
        now_ms: i64,
        now: u64,
    ) -> (r: Result<Query, Reply>)
        ensures
            match old(self).history_target(headers, path@, now) {
                Err(view) => r matches Err(reply) && reply@ == view,
                Ok(instance) => match query_of(opt_text(query), now_ms as int) {
                    Err(message) => r matches Err(reply) && reply@ == error_view(
                        400,
                        "invalid_request_error"@,
                        message,
                    ),
                    Ok(params) => r matches Ok(q) && q.instance@ == instance
                        && q.series.deep_view() == params.series && q.from_ms == params.from_ms
                        && q.to_ms == params.to_ms && q.step_s == params.step_s,
                },
            },
            final(self).sessions@ == old(self).sessions_after(headers, now),
            final(self).keeps(old(self)),
            final(self).tickets == old(self).tickets,
            final(self).pairings == old(self).pairings,
    {
        let authorized = self.authorized_read(headers, now);
        let instance = match resolve(authorized, &self.config, self.history, path) {
            Ok(instance) => instance,
            Err(reply) => {
                return Err(reply);
            },
        };
        match Params::parse(query, now_ms) {
            Ok(params) => Ok(
                Query {
                    instance,
                    series: params.series,
                    from_ms: params.from_ms,
                    to_ms: params.to_ms,
                    step_s: params.step_s,
                },
            ),
            Err(message) => Err(error_json(400, "invalid_request_error", message.as_str())),
        }
    }
}

// ---------------------------------------------------------------------------
// Laws

/// An accepted query names catalog series only, its range is not empty, its
/// arithmetic does not wrap, and it returns at most the capped number of
/// points.
pub proof fn law_accepted_queries_are_bounded(query: Option<Seq<char>>, now_ms: int)
    requires
        i64::MIN <= now_ms <= i64::MAX,
    ensures
        query_of(query, now_ms) matches Ok(params) ==> {
            &&& i64::MIN <= params.from_ms < params.to_ms <= i64::MAX
            &&& params.step_s >= 1
            &&& params.step_s * 1000 <= i64::MAX
            &&& (params.to_ms - params.from_ms) / (params.step_s * 1000) <= MAX_POINTS_PER_SERIES
            &&& forall|i: int|
                0 <= i < params.series.len() ==> named(#[trigger] params.series[i]) is Some
        },
{
    let text = match query {
        Some(t) => t,
        None => Seq::empty(),
    };
    let pairs = pieces(text, '&');
    lemma_said_in_range(pairs);
    if let Ok(asked) = all_said(pairs) {
        if let Some(t) = asked.series {
            lemma_sifted(pieces(t, ','), true);
        } else {
            assert forall|i: int| 0 <= i < all_names().len() implies named(
                #[trigger] all_names()[i],
            ) is Some by {
                crate::history::catalog::law_lookup_finds_every_entry(i);
            }
        }
    }
}

proof fn lemma_said_in_range(pairs: Seq<Seq<char>>)
    ensures
        all_said(pairs) matches Ok(asked) ==> {
            &&& asked.from_ms matches Some(n) ==> i64::MIN <= n <= i64::MAX
            &&& asked.to_ms matches Some(n) ==> i64::MIN <= n <= i64::MAX
            &&& i64::MIN <= asked.step_s <= i64::MAX
        },
    decreases pairs.len(),
{
    if pairs.len() > 0 {
        lemma_said_in_range(pairs.drop_last());
    }
}

proof fn lemma_sifted(names: Seq<Seq<char>>, known: bool)
    ensures
        forall|i: int|
            0 <= i < sifted(names, known).len() ==> (named(#[trigger] sifted(names, known)[i])
                is Some) == known,
    decreases names.len(),
{
    if names.len() > 0 {
        lemma_sifted(names.drop_last(), known);
        let head = sifted(names.drop_last(), known);
        let out = sifted(names, known);
        assert forall|i: int| 0 <= i < out.len() implies (named(#[trigger] out[i]) is Some)
            == known by {
            if i < head.len() {
                assert(out[i] == head[i]);
            }
        }
    }
}

/// A series without rows makes no honesty claim, and neither does a range
/// whose rows disagree.
pub proof fn law_mixed_ranges_claim_no_honesty(tags: Seq<Honesty>)
    requires
        tags.len() != 1,
    ensures
        sole(tags) is None,
{
}

// ---------------------------------------------------------------------------
// What is asked and answered

/// A parameter is named in front of the first equals sign and says all that
/// follows it; without an equals sign it says nothing.
pub proof fn law_parameters_split_at_the_first_equals(key: Seq<char>, value: Seq<char>)
    requires
        forall|i: int| 0 <= i < key.len() ==> key[i] != '=',
    ensures
        key_value(key + seq!['='] + value) == (key, value),
        key_value(key) == (key, Seq::<char>::empty()),
{
    let pair = key + seq!['='] + value;
    assert forall|i: int| 0 <= i < key.len() implies Class::Not('=').has(#[trigger] pair[i]) by {
        assert(pair[i] == key[i]);
    }
    assert(pair[key.len() as int] == '=');
    lemma_run_is(pair, Class::Not('='), key.len());
    assert(pair.take(key.len() as int) =~= key);
    assert(pair.skip(key.len() as int + 1) =~= value);
    lemma_run_is(key, Class::Not('='), key.len());
}

proof fn lemma_decimal_is_plain(n: int)
    ensures
        forall|i: int|
            0 <= i < decimal_int(n).len() ==> (#[trigger] decimal_int(n)[i]) != '&'
                && decimal_int(n)[i] != '=',
{
    let m = if n < 0 {
        (-n) as nat
    } else {
        n as nat
    };
    law_decimal_reads_back(m);
    let all = decimal_int(n);
    assert forall|i: int| 0 <= i < all.len() implies (#[trigger] all[i]) != '&' && all[i]
        != '=' by {
        if n < 0 {
            if i > 0 {
                assert(all[i] == decimal(m)[i - 1]);
                assert(is_ascii_digit(decimal(m)[i - 1]));
            }
        } else {
            assert(is_ascii_digit(decimal(m)[i]));
        }
    }
}

/// The parameter with this name and this number.
pub open spec fn numbered(key: Seq<char>, n: int) -> Seq<char> {
    key + seq!['='] + decimal_int(n)
}

proof fn lemma_numbered(key: Seq<char>, n: int)
    requires
        i64::MIN <= n <= i64::MAX,
        words_to(key, key.len() as int),
        key.len() > 0,
    ensures
        key_value(numbered(key, n)) == (key, decimal_int(n)),
        integer_of(key, decimal_int(n)) == Ok::<int, Seq<char>>(n),
        numbered(key, n).len() > 0,
        forall|i: int| 0 <= i < numbered(key, n).len() ==> numbered(key, n)[i] != '&',
{
    lemma_words(key, key.len() as int);
    law_parameters_split_at_the_first_equals(key, decimal_int(n));
    law_signed_decimal_reads_back(n);
    lemma_decimal_is_plain(n);
    let pair = numbered(key, n);
    assert forall|i: int| 0 <= i < pair.len() implies pair[i] != '&' by {
        if i < key.len() {
            assert(pair[i] == key[i]);
        } else if i > key.len() {
            assert(pair[i] == decimal_int(n)[i - key.len() - 1]);
        }
    }
}

proof fn lemma_parameter_names()
    ensures
        words_to("series"@, "series"@.len() as int),
        words_to("from_ms"@, "from_ms"@.len() as int),
        words_to("to_ms"@, "to_ms"@.len() as int),
        words_to("step_s"@, "step_s"@.len() as int),
        "series"@.len() == 6,
        "from_ms"@.len() == 7,
        "to_ms"@.len() == 5,
        "step_s"@.len() == 6,
        "series"@ != "step_s"@,
{
    reveal_with_fuel(words_to, 9);
    reveal_strlit("series");
    reveal_strlit("from_ms");
    reveal_strlit("to_ms");
    reveal_strlit("step_s");
    assert("series"@[1] != "step_s"@[1]);
}

/// A query that writes its range and step out is read back as it was written:
/// it asks for the whole catalog from the one time to the other at that step,
/// and it is accepted exactly where the range is not empty, the step is a
/// second or more, and no more than 20,000 steps fit into the range.
pub proof fn law_a_written_range_is_read_back(from: int, to: int, step: int, now_ms: int)
    requires
        i64::MIN <= from <= i64::MAX,
        i64::MIN <= to <= i64::MAX,
        i64::MIN <= step <= i64::MAX,
        i64::MIN <= now_ms <= i64::MAX,
    ensures
        ({
            let query = numbered("from_ms"@, from) + seq!['&'] + (numbered("to_ms"@, to)
                + seq!['&'] + numbered("step_s"@, step));
            let answer = query_of(Some(query), now_ms);
            &&& answer is Ok <==> from < to && step >= 1 && to - from <= i64::MAX && step * 1000
                <= i64::MAX && (to - from) / (step * 1000) <= 20_000
            &&& answer matches Ok(params) ==> params.from_ms == from && params.to_ms == to
                && params.step_s == step && params.series.len() == series_count() && forall|i: int|
                0 <= i < series_count() ==> (#[trigger] params.series[i]) == catalog()[i].name
        }),
{
    lemma_parameter_names();
    let (a, b, c) = (
        numbered("from_ms"@, from),
        numbered("to_ms"@, to),
        numbered("step_s"@, step),
    );
    lemma_numbered("from_ms"@, from);
    lemma_numbered("to_ms"@, to);
    lemma_numbered("step_s"@, step);
    let rest = b + seq!['&'] + c;
    law_pieces_end_at_the_separator(a, '&', rest);
    law_pieces_end_at_the_separator(b, '&', c);
    law_pieces_end_at_the_separator(c, '&', c);
    let pairs = pieces(a + seq!['&'] + rest, '&');
    assert(pairs =~= seq![a, b, c]);
    lemma_three_said(a, b, c);
}

proof fn lemma_three_said(a: Seq<char>, b: Seq<char>, c: Seq<char>)
    ensures
        all_said(seq![a, b, c]) == match said(
            Asked { series: None, from_ms: None, to_ms: None, step_s: 1 },
            a,
        ) {
            Err(error) => Err(error),
            Ok(first) => match said(first, b) {
                Err(error) => Err(error),
                Ok(second) => said(second, c),
            },
        },
{
    assert(seq![a, b, c].drop_last() =~= seq![a, b]);
    assert(seq![a, b].drop_last() =~= seq![a]);
    assert(seq![a].drop_last() =~= Seq::<Seq<char>>::empty());
    reveal_with_fuel(all_said, 5);
}

/// A query that says nothing asks for the whole catalog over the last fifteen
/// minutes, second by second; one that names only its end, for the fifteen
/// minutes in front of it.
pub proof fn law_a_bare_query_asks_for_fifteen_minutes(to: int, now_ms: int)
    requires
        i64::MIN + 900_000 <= now_ms <= i64::MAX,
        i64::MIN + 900_000 <= to <= i64::MAX,
    ensures
        query_of(None, now_ms) matches Ok(params) && params.from_ms == now_ms - 15 * 60 * 1000
            && params.to_ms == now_ms && params.step_s == 1 && params.series.len()
            == series_count() && forall|i: int|
            0 <= i < series_count() ==> (#[trigger] params.series[i]) == catalog()[i].name,
        query_of(Some(Seq::empty()), now_ms) == query_of(None, now_ms),
        query_of(Some(numbered("to_ms"@, to)), now_ms) == query_of(None, to),
{
    lemma_parameter_names();
    let nothing = Seq::<char>::empty();
    law_pieces_end_at_the_separator(nothing, '&', nothing);
    assert(seq![nothing].drop_last() =~= Seq::<Seq<char>>::empty());
    reveal_with_fuel(all_said, 3);
    lemma_numbered("to_ms"@, to);
    let pair = numbered("to_ms"@, to);
    law_pieces_end_at_the_separator(pair, '&', nothing);
    assert(seq![pair].drop_last() =~= Seq::<Seq<char>>::empty());
}

/// A parameter that is none of the four is refused by name, wherever it
/// stands, unless something before it is refused first.
pub proof fn law_unknown_parameters_are_refused(pairs: Seq<Seq<char>>, k: int)
    requires
        0 <= k < pairs.len(),
        pairs[k].len() > 0,
        key_value(pairs[k]).0 != "series"@,
        key_value(pairs[k]).0 != "from_ms"@,
        key_value(pairs[k]).0 != "to_ms"@,
        key_value(pairs[k]).0 != "step_s"@,
    ensures
        all_said(pairs) is Err,
        k == 0 ==> all_said(pairs) == Err::<Asked, Seq<char>>(
            "unknown query parameter '"@ + key_value(pairs[0]).0 + "'"@,
        ),
{
    let upto = pairs.take(k + 1);
    assert(upto.last() == pairs[k]);
    if k == 0 {
        assert(upto.drop_last() =~= Seq::<Seq<char>>::empty());
        assert(all_said(upto.drop_last()) is Ok);
    }
    assert(all_said(upto) is Err);
    lemma_said_fails(pairs, k + 1);
}

/// The names of a list of series are asked for in their order, empty ones
/// passed over; a name that the catalog does not know refuses them all, and so
/// does a list that names nothing.
pub proof fn law_named_series_are_asked_for(text: Seq<char>)
    ensures
        ({
            let names = pieces(text, ',').filter(|name: Seq<char>| name.len() > 0);
            &&& series_of(Some(text)) is Ok <==> names.len() > 0 && forall|i: int|
                0 <= i < names.len() ==> named(#[trigger] names[i]) is Some
            &&& series_of(Some(text)) matches Ok(asked) ==> asked == names
        }),
{
    let parts = pieces(text, ',');
    let names = parts.filter(|name: Seq<char>| name.len() > 0);
    let unknown = sifted(parts, false);
    let known = sifted(parts, true);
    lemma_sifted_filter(parts);
    if unknown.len() > 0 {
        lemma_sifted(parts, false);
        assert(names.contains(unknown[0]));
        let i = choose|i: int| 0 <= i < names.len() && names[i] == unknown[0];
        assert(named(names[i]) is None);
    } else {
        lemma_sifted(parts, true);
        assert forall|i: int| 0 <= i < names.len() implies named(#[trigger] names[i]) is Some by {
            assert(known[i] == names[i]);
        }
    }
}

proof fn lemma_sifted_filter(parts: Seq<Seq<char>>)
    ensures
        ({
            let names = parts.filter(|name: Seq<char>| name.len() > 0);
            &&& sifted(parts, false).len() == 0 ==> sifted(parts, true) == names
            &&& forall|i: int|
                0 <= i < sifted(parts, false).len() ==> names.contains(
                    #[trigger] sifted(parts, false)[i],
                )
        }),
    decreases parts.len(),
{
    reveal(Seq::filter);
    if parts.len() > 0 {
        let rest = parts.drop_last();
        lemma_sifted_filter(rest);
        let before = rest.filter(|name: Seq<char>| name.len() > 0);
        let names = parts.filter(|name: Seq<char>| name.len() > 0);
        let (old_unknown, unknown) = (sifted(rest, false), sifted(parts, false));
        assert forall|i: int| 0 <= i < unknown.len() implies names.contains(
            #[trigger] unknown[i],
        ) by {
            if i < old_unknown.len() {
                assert(unknown[i] == old_unknown[i]);
                let j = choose|j: int| 0 <= j < before.len() && before[j] == unknown[i];
                assert(names[j] == unknown[i]);
            } else {
                assert(unknown[i] == parts.last());
                assert(names[before.len() as int] == parts.last());
            }
        }
    }
}

/// A history path names its instance between its prefix and the next slash.
pub proof fn law_a_history_path_names_its_instance(name: Seq<char>, rest: Seq<char>)
    requires
        forall|i: int| 0 <= i < name.len() ==> name[i] != '/',
        rest.len() > 0 ==> rest[0] == '/',
    ensures
        path_name("/v1/history/"@ + name + rest) == Some(name),
{
    let path = "/v1/history/"@ + name + rest;
    let tail = name + rest;
    assert(path =~= "/v1/history/"@ + tail);
    law_a_prefix_is_what_stands_in_front(path, "/v1/history/"@, tail);
    assert forall|i: int| 0 <= i < name.len() implies Class::Not('/').has(#[trigger] tail[i]) by {
        assert(tail[i] == name[i]);
    }
    if rest.len() > 0 {
        assert(tail[name.len() as int] == rest[0]);
    }
    lemma_run_is(tail, Class::Not('/'), name.len());
    assert(tail.take(name.len() as int) =~= name);
}

/// Who may not read is told 401 and nothing else; who may is told 404 of a
/// name that is not configured, 503 of one that is while the history plane is
/// off, and otherwise gets the instance that the path names.
pub proof fn law_history_refusals_come_in_order(
    authorized: bool,
    config: &Config,
    history: bool,
    path: Seq<char>,
)
    ensures
        !authorized ==> (resolved(authorized, config, history, path) matches Err(view)
            && view.status == 401),
        ({
            let known = path_name(path) matches Some(name) && instance_at(
                instance_views(config.instances@),
                name,
            ) is Some;
            &&& authorized && !known ==> (resolved(authorized, config, history, path) matches Err(
                view,
            ) && view.status == 404)
            &&& authorized && known && !history ==> (resolved(
                authorized,
                config,
                history,
                path,
            ) matches Err(view) && view.status == 503)
            &&& authorized && known && history ==> (resolved(
                authorized,
                config,
                history,
                path,
            ) matches Ok(name) && Some(name) == path_name(path))
        }),
{
}

/// The listing tells of each series its name, kind, source, unit and the path
/// its honesty is read under.
pub proof fn law_the_listing_describes_every_series(i: int)
    requires
        0 <= i < series_count(),
    ensures
        listing().member("series"@) matches Some(Tree::Array(items)) && items.len()
            == series_count() && {
            let entry = catalog()[i];
            &&& items[i].member("name"@) == Some(Tree::Text(entry.name))
            &&& items[i].member("kind"@) == Some(
                Tree::Text(
                    match entry.kind {
                        Kind::Gauge => "gauge"@,
                        Kind::Counter => "counter"@,
                    },
                ),
            )
            &&& items[i].member("source"@) == Some(
                Tree::Text(
                    match entry.source {
                        Source::Metrics => "metrics"@,
                        Source::Snapshot => "snapshot"@,
                        Source::Agent => "agent"@,
                    },
                ),
            )
            &&& items[i].member("unit"@) == Some(Tree::Text(entry.unit))
            &&& items[i].member("honesty_path"@) == Some(
                match entry.honesty_path {
                    Some(path) => Tree::Text(path),
                    None => Tree::Null,
                },
            )
        },
{
    lemma_listing_names();
    reveal_with_fuel(crate::json::first_member, 6);
    let items = catalog().map_values(|series: SeriesView| described(series));
    assert(items[i] == described(catalog()[i]));
    lemma_five_members(described(catalog()[i])->Object_0);
}

/// The members of an object of five are found in turn.
proof fn lemma_five_members(members: Seq<(Seq<char>, Tree)>)
    requires
        members.len() == 5,
        forall|i: int, j: int|
            0 <= i < j < 5 ==> (#[trigger] members[i]).0 != (#[trigger] members[j]).0,
    ensures
        forall|i: int|
            0 <= i < 5 ==> Tree::Object(members).member((#[trigger] members[i]).0) == Some(
                members[i].1,
            ),
{
    assert forall|i: int| 0 <= i < 5 implies Tree::Object(members).member(
        (#[trigger] members[i]).0,
    ) == Some(members[i].1) by {
        let (front, rest) = (members.take(i), members.skip(i + 1));
        assert(members =~= front + seq![(members[i].0, members[i].1)] + rest);
        assert forall|j: int| 0 <= j < front.len() implies (#[trigger] front[j]).0
            != members[i].0 by {
            assert(front[j] == members[j]);
        }
        law_members_are_found_by_name(front, members[i].0, members[i].1, rest);
    }
}

proof fn lemma_listing_names()
    ensures
        "name"@.len() == 4,
        "kind"@.len() == 4,
        "source"@.len() == 6,
        "honesty_path"@.len() == 12,
        "unit"@.len() == 4,
        "points"@.len() == 6,
        "honesty"@.len() == 7,
        "honesty_tags"@.len() == 12,
        "name"@ != "kind"@,
        "name"@ != "unit"@,
        "kind"@ != "unit"@,
        "source"@ != "points"@,
{
    reveal_strlit("name");
    reveal_strlit("kind");
    reveal_strlit("source");
    reveal_strlit("honesty_path");
    reveal_strlit("unit");
    reveal_strlit("points");
    reveal_strlit("honesty");
    reveal_strlit("honesty_tags");
    assert("name"@[0] != "kind"@[0] && "name"@[0] != "unit"@[0] && "kind"@[0] != "unit"@[0]);
    assert("source"@[0] != "points"@[0]);
}

/// The answer for a series holds its points as pairs of time and value, in
/// their order, the tags of its rows, and as its honesty their only one; its
/// kind and source are the catalog's.
pub proof fn law_an_answer_holds_its_points(
    name: Seq<char>,
    points: Seq<(i64, u64)>,
    tags: Seq<Honesty>,
    i: int,
)
    ensures
        ({
            let answer = series_answer(name, points, tags);
            &&& answer.member("points"@) matches Some(Tree::Array(items)) && items.len()
                == points.len() && (0 <= i < points.len() ==> items[i] == Tree::Array(
                seq![
                    Tree::Whole(points[i].0 as int),
                    Tree::Number(Numeric { notation: Notation::Double, bits: points[i].1 }),
                ],
            ))
            &&& answer.member("honesty_tags"@) matches Some(Tree::Array(items)) && items.len()
                == tags.len() && (0 <= i < tags.len() ==> items[i] == Tree::Text(
                match tags[i] {
                    Honesty::Measured => "measured"@,
                    Honesty::Target => "target"@,
                    Honesty::AgentMeasured => "agent-measured"@,
                },
            ))
            &&& tags.len() == 1 ==> answer.member("honesty"@) == Some(
                Tree::Text(
                    match tags[0] {
                        Honesty::Measured => "measured"@,
                        Honesty::Target => "target"@,
                        Honesty::AgentMeasured => "agent-measured"@,
                    },
                ),
            )
            &&& tags.len() != 1 ==> answer.member("honesty"@) == Some(Tree::Null)
            &&& answer.member("kind"@) == Some(
                match named(name) {
                    Some(entry) => Tree::Text(
                        match entry.kind {
                            Kind::Gauge => "gauge"@,
                            Kind::Counter => "counter"@,
                        },
                    ),
                    None => Tree::Null,
                },
            )
            &&& answer.member("source"@) == Some(
                match named(name) {
                    Some(entry) => Tree::Text(
                        match entry.source {
                            Source::Metrics => "metrics"@,
                            Source::Snapshot => "snapshot"@,
                            Source::Agent => "agent"@,
                        },
                    ),
                    None => Tree::Null,
                },
            )
        }),
{
    lemma_listing_names();
    let members = series_answer(name, points, tags)->Object_0;
    lemma_five_members(members);
    assert(members[0].0 == "kind"@ && members[1].0 == "source"@ && members[2].0 == "points"@);
    assert(members[3].0 == "honesty"@ && members[4].0 == "honesty_tags"@);
}

/// An answer has a member for each series that was read and no other, and each
/// holds what was read last under that name.
pub proof fn law_answers_stand_under_their_names(answers: Seq<Answered>, k: int)
    requires
        0 <= k < answers.len(),
        forall|j: int| k < j < answers.len() ==> (#[trigger] answers[j]).name@ != answers[k].name@,
    ensures
        Tree::Object(answer_members(answers)).member(answers[k].name@) == Some(answers[k].tree()),
        answer_members(answers).len() <= answers.len(),
    decreases answers.len(),
{
    let rest = answers.drop_last();
    let head = answer_members(rest);
    let last = answers.last();
    let all = answer_members(answers);
    lemma_member_at(head, last.name@);
    lemma_answer_count(rest);
    if k < answers.len() - 1 {
        assert(rest[k] == answers[k]);
        assert forall|j: int| k < j < rest.len() implies (#[trigger] rest[j]).name@
            != rest[k].name@ by {
            assert(rest[j] == answers[j]);
        }
        law_answers_stand_under_their_names(rest, k);
        assert(answers[answers.len() - 1].name@ != answers[k].name@);
        lemma_member_kept(head, last.name@, last.tree(), answers[k].name@);
    } else {
        lemma_member_put(head, last.name@, last.tree());
    }
}

proof fn lemma_answer_count(answers: Seq<Answered>)
    ensures
        answer_members(answers).len() <= answers.len(),
    decreases answers.len(),
{
    if answers.len() > 0 {
        lemma_answer_count(answers.drop_last());
        lemma_member_at(answer_members(answers.drop_last()), answers.last().name@);
    }
}

proof fn lemma_member_at(members: Seq<(Seq<char>, Tree)>, key: Seq<char>)
    ensures
        match member_at(members, key) {
            Some(i) => 0 <= i < members.len() && members[i].0 == key && forall|j: int|
                0 <= j < i ==> (#[trigger] members[j]).0 != key,
            None => forall|j: int| 0 <= j < members.len() ==> (#[trigger] members[j]).0 != key,
        },
    decreases members.len(),
{
    if members.len() > 0 && members[0].0 != key {
        let t = members.skip(1);
        lemma_member_at(t, key);
        match member_at(t, key) {
            Some(i) => {
                assert(t[i] == members[i + 1]);
                assert forall|j: int| 0 <= j < i + 1 implies (#[trigger] members[j]).0 != key by {
                    if j > 0 {
                        assert(t[j - 1] == members[j]);
                    }
                }
            },
            None => {
                assert forall|j: int| 0 <= j < members.len() implies (#[trigger] members[j]).0
                    != key by {
                    if j > 0 {
                        assert(t[j - 1] == members[j]);
                    }
                }
            },
        }
    }
}

/// A member that is put is found.
proof fn lemma_member_put(head: Seq<(Seq<char>, Tree)>, key: Seq<char>, value: Tree)
    ensures
        ({
            let all = match member_at(head, key) {
                Some(i) => head.update(i, (key, value)),
                None => head.push((key, value)),
            };
            Tree::Object(all).member(key) == Some(value)
        }),
{
    lemma_member_at(head, key);
    match member_at(head, key) {
        Some(i) => {
            let (front, back) = (head.take(i), head.skip(i + 1));
            assert(head.update(i, (key, value)) =~= front + seq![(key, value)] + back);
            assert forall|j: int| 0 <= j < front.len() implies (#[trigger] front[j]).0 != key by {
                assert(front[j] == head[j]);
            }
            law_members_are_found_by_name(front, key, value, back);
        },
        None => {
            assert(head.push((key, value)) =~= head + seq![(key, value)] + Seq::empty());
            law_members_are_found_by_name(head, key, value, Seq::empty());
        },
    }
}

/// A member that is put changes no other.
proof fn lemma_member_kept(
    head: Seq<(Seq<char>, Tree)>,
    key: Seq<char>,
    value: Tree,
    other: Seq<char>,
)
    requires
        key != other,
        Tree::Object(head).member(other) is Some,
    ensures
        ({
            let all = match member_at(head, key) {
                Some(i) => head.update(i, (key, value)),
                None => head.push((key, value)),
            };
            Tree::Object(all).member(other) == Tree::Object(head).member(other)
        }),
{
    lemma_member_at(head, key);
    lemma_member_at(head, other);
    if member_at(head, other) is None {
        law_members_are_found_by_name(head, other, Tree::Null, Seq::empty());
    }
    let m = member_at(head, other)->0;
    let all = match member_at(head, key) {
        Some(i) => head.update(i, (key, value)),
        None => head.push((key, value)),
    };
    assert(all[m] == head[m]);
    let (front, back) = (all.take(m), all.skip(m + 1));
    assert(all =~= front + seq![(other, head[m].1)] + back);
    assert forall|j: int| 0 <= j < front.len() implies (#[trigger] front[j]).0 != other by {
        assert(front[j] == all[j]);
        if all[j] != head[j] {
            assert(all[j].0 == key);
        }
    }
    law_members_are_found_by_name(front, other, head[m].1, back);
    let (first, after) = (head.take(m), head.skip(m + 1));
    assert(head =~= first + seq![(other, head[m].1)] + after);
    assert forall|j: int| 0 <= j < first.len() implies (#[trigger] first[j]).0 != other by {
        assert(first[j] == head[j]);
    }
    law_members_are_found_by_name(first, other, head[m].1, after);
}

/// What a refused range says: the first thing that is wrong with it, and of too
/// many points how many there would be.
pub proof fn law_refused_ranges_say_why(
    series: Seq<Seq<char>>,
    text: Option<Seq<char>>,
    from: int,
    to: int,
    step: int,
    now_ms: int,
)
    requires
        i64::MIN <= from <= i64::MAX,
        i64::MIN <= to <= i64::MAX,
    ensures
        ({
            let asked = Asked { series: text, from_ms: Some(from), to_ms: Some(to), step_s: step };
            let answer = ranged(series, asked, now_ms);
            let count = (to - from) / (step * 1000);
            &&& to <= from ==> answer == Err::<ParamsView, Seq<char>>(
                "to_ms must be greater than from_ms"@,
            )
            &&& to > from && step < 1 ==> answer == Err::<ParamsView, Seq<char>>(
                "step_s must be at least 1"@,
            )
            &&& to > from && step >= 1 && to - from > i64::MAX ==> answer == Err::<
                ParamsView,
                Seq<char>,
            >("from_ms/to_ms range is too large"@)
            &&& to > from && step >= 1 && to - from <= i64::MAX && step * 1000 > i64::MAX ==> answer
                == Err::<ParamsView, Seq<char>>("step_s is too large"@)
            &&& to > from && step >= 1 && to - from <= i64::MAX && step * 1000 <= i64::MAX && count
                > 20_000 ==> answer == Err::<ParamsView, Seq<char>>(
                "range would return "@ + decimal(count as nat) + " points per series at step_s="@
                    + decimal(step as nat) + "; raise step_s (limit 20000)"@,
            )
            &&& answer matches Ok(params) ==> params.series == series
        }),
{
}

/// Of a parameter that is given twice the last one counts, and the parameters
/// do not touch one another.
pub proof fn law_the_last_parameter_counts(pairs: Seq<Seq<char>>, value: Seq<char>, n: int)
    requires
        i64::MIN <= n <= i64::MAX,
        all_said(pairs) is Ok,
    ensures
        ({
            let before = all_said(pairs)->Ok_0;
            &&& all_said(pairs.push("series"@ + seq!['='] + value)) == Ok::<Asked, Seq<char>>(
                Asked { series: Some(value), ..before },
            )
            &&& all_said(pairs.push(numbered("from_ms"@, n))) == Ok::<Asked, Seq<char>>(
                Asked { from_ms: Some(n), ..before },
            )
            &&& all_said(pairs.push(numbered("to_ms"@, n))) == Ok::<Asked, Seq<char>>(
                Asked { to_ms: Some(n), ..before },
            )
            &&& all_said(pairs.push(numbered("step_s"@, n))) == Ok::<Asked, Seq<char>>(
                Asked { step_s: n, ..before },
            )
            &&& all_said(pairs.push(Seq::empty())) == Ok::<Asked, Seq<char>>(before)
        }),
{
    lemma_parameter_names();
    lemma_numbered("from_ms"@, n);
    lemma_numbered("to_ms"@, n);
    lemma_numbered("step_s"@, n);
    lemma_words("series"@, "series"@.len() as int);
    let a = "series"@ + seq!['='] + value;
    law_parameters_split_at_the_first_equals("series"@, value);
    assert(pairs.push(a).drop_last() =~= pairs);
    assert(pairs.push(numbered("from_ms"@, n)).drop_last() =~= pairs);
    assert(pairs.push(numbered("to_ms"@, n)).drop_last() =~= pairs);
    assert(pairs.push(numbered("step_s"@, n)).drop_last() =~= pairs);
    assert(pairs.push(Seq::empty()).drop_last() =~= pairs);
}

/// A number that cannot be read is refused under its parameter's name.
pub proof fn law_unreadable_numbers_are_refused(key: Seq<char>, value: Seq<char>, n: int)
    ensures
        integer_value(value) is None ==> integer_of(key, value) == Err::<int, Seq<char>>(
            "query parameter '"@ + key + "' must be an integer"@,
        ),
        n > i64::MAX || n < i64::MIN ==> integer_of(key, decimal_int(n)) == Err::<int, Seq<char>>(
            "query parameter '"@ + key + "' must be an integer"@,
        ),
        i64::MIN <= n <= i64::MAX ==> integer_of(key, decimal_int(n)) == Ok::<int, Seq<char>>(n),
{
    law_signed_decimal_reads_back(n);
}

/// Series that are not known are all named in the refusal, each in quotes.
pub proof fn law_unknown_series_are_named(text: Seq<char>, one: Seq<char>, other: Seq<char>)
    ensures
        ({
            let names = pieces(text, ',').filter(
                |name: Seq<char>| name.len() > 0 && named(name) is None,
            );
            names.len() > 0 ==> series_of(Some(text)) == Err::<Seq<Seq<char>>, Seq<char>>(
                "unknown series: "@ + quoted_names(names),
            )
        }),
        pieces(text, ',').filter(|name: Seq<char>| name.len() > 0).len() == 0 ==> series_of(
            Some(text),
        ) == Err::<Seq<Seq<char>>, Seq<char>>("query parameter 'series' named no series"@),
        quoted_names(seq![one]) == "'"@ + one + "'"@,
        quoted_names(seq![one, other]) == "'"@ + one + "'"@ + ", '"@ + other + "'"@,
{
    let names = pieces(text, ',');
    lemma_sifted_out(names);
    assert(seq![one, other].drop_last() =~= seq![one]);
}

proof fn lemma_sifted_out(names: Seq<Seq<char>>)
    ensures
        sifted(names, false) == names.filter(
            |name: Seq<char>| name.len() > 0 && named(name) is None,
        ),
        names.filter(|name: Seq<char>| name.len() > 0).len() == 0 ==> sifted(names, true).len()
            == 0 && sifted(names, false).len() == 0,
    decreases names.len(),
{
    reveal(Seq::filter);
    if names.len() > 0 {
        lemma_sifted_out(names.drop_last());
    }
}

/// What the refusals of the history say.
pub proof fn law_history_refusals_say_why()
    ensures
        history_disabled_view() == error_view(
            503,
            "history_unavailable"@,
            "the history plane is disabled on this console"@,
        ),
        unknown_instance_view() == error_view(404, "not_found"@, "unknown instance"@),
        store_unavailable_view() == error_view(
            500,
            "internal_error"@,
            "history store unavailable"@,
        ),
{
}

/// The model of a query shows what the query holds.
pub proof fn law_the_model_shows_the_query(params: Params, i: int)
    ensures
        params@.from_ms == params.from_ms,
        params@.to_ms == params.to_ms,
        params@.step_s == params.step_s,
        params@.series.len() == params.series@.len(),
        0 <= i < params.series@.len() ==> params@.series[i] == params.series@[i]@,
{
}

} // verus!
