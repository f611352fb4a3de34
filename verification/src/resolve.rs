//! Resolution of a flow's value expressions against the state of an item:
//! literals, the item's input, variables, step results, and objects and
//! arrays built from them.

use crate::error::ExecutionError;
use crate::flow::{lemma_lookup_name_bound, lookup_name, step_names, FlowResult, SkipAction, ValueExpr};
use crate::item_state::{named_value, ItemState};
use vstd::prelude::*;

verus! {

/// The name of the JSON object that `serde_json` builds from `fields`, in
/// order (`serde_json::Map` collected from the pairs).
pub uninterp spec fn json_object_of(fields: Seq<(Seq<char>, serde_json::Value)>) -> serde_json::Value;

/// `serde_json::Value::Object` of the `serde_json::Map` collected from
/// `fields`; the result is named by [`json_object_of`] of the fields.
#[verifier::external_body]
fn json_object(fields: Vec<(String, serde_json::Value)>) -> (r: serde_json::Value)
    ensures
        r == json_object_of(fields@.map_values(|f: (String, serde_json::Value)| (f.0@, f.1))),
{
    serde_json::Value::Object(fields.into_iter().collect())
}

/// The name of the JSON array that `serde_json` builds from `members`, in
/// order.
pub uninterp spec fn json_array_of(members: Seq<serde_json::Value>) -> serde_json::Value;

/// `serde_json::Value::Array` of `members`; the result is named by
/// [`json_array_of`] of the members.
#[verifier::external_body]
fn json_array(members: Vec<serde_json::Value>) -> (r: serde_json::Value)
    ensures
        r == json_array_of(members@),
{
    serde_json::Value::Array(members)
}

/// The name of what `serde_json::Value::get` finds under the key `key` in
/// `v`.
pub uninterp spec fn json_field_of(v: serde_json::Value, key: Seq<char>) -> Option<serde_json::Value>;

/// `serde_json::Value::get` with a string key, the value found cloned: the
/// field `key` of an object; nothing for any other value.
#[verifier::external_body]
fn json_field(v: &serde_json::Value, key: &str) -> (r: Option<serde_json::Value>)
    ensures
        r == json_field_of(*v, key@),
{
    v.get(key).cloned()
}

/// Splitting at dots, character by character: the names completed so far
/// (empty ones left out) and the name being read.
pub open spec fn split_dots(s: Seq<char>) -> (Seq<Seq<char>>, Seq<char>)
    decreases s.len(),
{
    if s.len() == 0 {
        (Seq::empty(), Seq::empty())
    } else {
        let (done, cur) = split_dots(s.drop_last());
        if s.last() == '.' {
            (if cur.len() > 0 { done.push(cur) } else { done }, Seq::empty())
        } else {
            (done, cur.push(s.last()))
        }
    }
}

/// The field names of a path such as `$.a.b` or `a.b`: after an optional
/// leading `$`, the names between dots. No name (an empty path, or `$`)
/// addresses the whole value.
pub open spec fn path_fields(path: Seq<char>) -> Seq<Seq<char>> {
    let body = if path.len() > 0 && path[0] == '$' { path.skip(1) } else { path };
    let (done, cur) = split_dots(body);
    if cur.len() > 0 { done.push(cur) } else { done }
}

/// What the field names `fields` address in `v`, one after another.
pub open spec fn value_at_fields(v: serde_json::Value, fields: Seq<Seq<char>>) -> Option<serde_json::Value>
    decreases fields.len(),
{
    if fields.len() == 0 {
        Some(v)
    } else {
        match value_at_fields(v, fields.drop_last()) {
            Some(x) => json_field_of(x, fields.last()),
            None => None,
        }
    }
}

/// What `path` addresses in `v`.
pub open spec fn value_at_path(v: serde_json::Value, path: Seq<char>) -> Option<serde_json::Value> {
    value_at_fields(v, path_fields(path))
}

/// The field names of `path` (see [`path_fields`]).
pub fn split_path(path: &str) -> (r: Vec<String>)
    ensures
        r@.map_values(|f: String| f@) == path_fields(path@),
{
    let ghost fv = |f: String| f@;
    let n = path.unicode_len();
    let off: usize = if n > 0 && path.get_char(0) == '$' {
        1
    } else {
        0
    };
    let ghost body = path@.subrange(off as int, n as int);
    proof {
        if off == 1 {
            assert(path@.skip(1) =~= body);
        } else {
            assert(path@ =~= body);
        }
        assert(body.take(0) =~= Seq::<char>::empty());
        assert(path@.subrange(off as int, off as int) =~= Seq::<char>::empty());
    }
    let mut done: Vec<String> = Vec::new();
    let mut start: usize = off;
    let mut i: usize = off;
    while i < n
        invariant
            off <= start <= i <= n,
            n == path@.len(),
            fv == (|f: String| f@),
            body == path@.subrange(off as int, n as int),
            split_dots(body.take(i - off)) == (done@.map_values(fv), path@.subrange(start as int, i as int)),
        decreases n - i,
    {
        let c = path.get_char(i);
        let ghost prev = split_dots(body.take(i - off));
        proof {
            assert(body.take(i + 1 - off).drop_last() =~= body.take(i - off));
            assert(body.take(i + 1 - off).last() == c);
        }
        if c == '.' {
            if start < i {
                let ghost before = done@;
                done.push(path.substring_char(start, i).to_owned());
                proof {
                    assert(done@.map_values(fv) =~= before.map_values(fv).push(path@.subrange(start as int, i as int)));
                }
            }
            start = i + 1;
            proof {
                assert(path@.subrange(start as int, start as int) =~= Seq::<char>::empty());
            }
        } else {
            proof {
                assert(path@.subrange(start as int, i + 1) =~= path@.subrange(start as int, i as int).push(c));
            }
        }
        i = i + 1;
    }
    proof {
        assert(body.take(n - off) =~= body);
    }
    if start < n {
        let ghost before = done@;
        done.push(path.substring_char(start, n).to_owned());
        proof {
            assert(done@.map_values(fv) =~= before.map_values(fv).push(path@.subrange(start as int, n as int)));
        }
    }
    done
}

/// What `path` addresses in `v` (see [`value_at_path`]).
fn follow_path(v: &serde_json::Value, path: &String) -> (r: Option<serde_json::Value>)
    ensures
        r == value_at_path(*v, path@),
{
    let fields = split_path(path.as_str());
    let ghost fs = path_fields(path@);
    let mut cur: serde_json::Value = v.clone();
    let mut i: usize = 0;
    proof {
        assert(fields@.map_values(|f: String| f@).len() == fields@.len());
        assert(fs.take(0) =~= Seq::<Seq<char>>::empty());
    }
    while i < fields.len()
        invariant
            i <= fields@.len(),
            fs == path_fields(path@),
            fs == fields@.map_values(|f: String| f@),
            value_at_fields(*v, fs.take(i as int)) == Some(cur),
        decreases fields@.len() - i,
    {
        proof {
            assert(fs.take(i + 1).drop_last() =~= fs.take(i as int));
            assert(fs.take(i + 1).last() == fields@[i as int]@);
        }
        match json_field(&cur, fields[i].as_str()) {
            Some(x) => {
                cur = x;
            },
            None => {
                proof {
                    lemma_fields_missing(*v, fs, i as int + 1);
                }
                return None;
            },
        }
        i = i + 1;
    }
    proof {
        assert(fs.take(fields@.len() as int) =~= fs);
    }
    Some(cur)
}

/// Once a prefix of the field names addresses nothing, neither does the
/// whole list.
proof fn lemma_fields_missing(v: serde_json::Value, fs: Seq<Seq<char>>, i: int)
    requires
        0 <= i <= fs.len(),
        value_at_fields(v, fs.take(i)) is None,
    ensures
        value_at_fields(v, fs) is None,
    decreases fs.len() - i,
{
    if i < fs.len() {
        assert(fs.take(i + 1).drop_last() =~= fs.take(i));
        lemma_fields_missing(v, fs, i + 1);
    } else {
        assert(fs.take(i) =~= fs);
    }
}

/// A value at a path: what the path addresses, an error when it addresses
/// nothing.
pub open spec fn at_path(v: serde_json::Value, path: Seq<char>) -> Result<FlowResult, ExecutionError> {
    match value_at_path(v, path) {
        Some(x) => Ok(FlowResult::Success(x)),
        None => Err(ExecutionError::UndefinedField),
    }
}

/// Applies a path to a result: to the value of a success; a skipped or failed
/// result is passed on.
pub open spec fn result_at_path(r: FlowResult, path: Seq<char>) -> Result<FlowResult, ExecutionError> {
    match r {
        FlowResult::Success(v) => at_path(v, path),
        other => Ok(other),
    }
}

/// Applies `path` to `r` (see [`result_at_path`]).
fn apply_path(r: FlowResult, path: &String) -> (out: Result<FlowResult, ExecutionError>)
    ensures
        out == result_at_path(r, path@),
{
    match r {
        FlowResult::Success(v) => match follow_path(&v, path) {
            Some(x) => Ok(FlowResult::Success(x)),
            None => Err(ExecutionError::UndefinedField),
        },
        other => Ok(other),
    }
}

/// A skipped result handled as `action` says: `UseDefault` gives its value
/// instead; anything else is kept.
pub open spec fn on_skipped(r: Result<FlowResult, ExecutionError>, action: SkipAction) -> Result<FlowResult, ExecutionError> {
    match (r, action) {
        (Ok(FlowResult::Skipped), SkipAction::UseDefault { default_value }) => Ok(FlowResult::Success(default_value)),
        _ => r,
    }
}

/// The value of variable `name` for an item: given to it, else the flow's
/// default.
pub open spec fn variable_of(it: ItemState, name: Seq<char>) -> Option<serde_json::Value> {
    match named_value(it.variables_spec(), name) {
        Some(v) => Some(v),
        None => named_value(it.flow_spec().variable_defaults@, name),
    }
}

/// What expression `e` resolves to for item `it`. A literal is itself, the
/// input is what its path addresses in the item's input, a variable its
/// value or else its default expression; a step reference is the step's
/// result, with its path applied to a success and its skip action to a
/// skipped result. An object is built from its fields in order, an array
/// from its members in order: the first field or member that is skipped or
/// failed gives the result. A reference to an undefined variable or step is an
/// error, as is one to a step that has not completed.
pub open spec fn resolved(e: ValueExpr, it: ItemState) -> Result<FlowResult, ExecutionError>
    decreases e,
{
    match e {
        ValueExpr::Literal(v) => Ok(FlowResult::Success(v)),
        ValueExpr::Input { path } => at_path(it.input_spec(), path@),
        ValueExpr::Variable { variable, default } => match variable_of(it, variable@) {
            Some(v) => Ok(FlowResult::Success(v)),
            None => match default {
                Some(d) => resolved(*d, it),
                None => Err(ExecutionError::UndefinedValue),
            },
        },
        ValueExpr::Step { step, path, on_skip } => match lookup_name(step_names(it.flow_spec().steps@), step@) {
            Some(i) => match it@.results[i as int] {
                Some(r) => on_skipped(result_at_path(r, path@), on_skip),
                None => Err(ExecutionError::StepNotCompleted),
            },
            None => Err(ExecutionError::UndefinedValue),
        },
        ValueExpr::Object(fields) => match resolved_fields(fields@, it) {
            Ok(Ok(vals)) => Ok(FlowResult::Success(json_object_of(vals))),
            Ok(Err(r)) => Ok(r),
            Err(x) => Err(x),
        },
        ValueExpr::Array(members) => match resolved_members(members@, it) {
            Ok(Ok(vals)) => Ok(FlowResult::Success(json_array_of(vals))),
            Ok(Err(r)) => Ok(r),
            Err(x) => Err(x),
        },
    }
}

/// The members of an array resolved in order: their values, or the first
/// non-success result, or the first error.
pub open spec fn resolved_members(members: Seq<ValueExpr>, it: ItemState) -> Result<
    Result<Seq<serde_json::Value>, FlowResult>,
    ExecutionError,
>
    decreases members,
{
    if members.len() == 0 {
        Ok(Ok(Seq::empty()))
    } else {
        match resolved_members(members.drop_last(), it) {
            Ok(Ok(acc)) => match resolved(members.last(), it) {
                Ok(FlowResult::Success(v)) => Ok(Ok(acc.push(v))),
                Ok(other) => Ok(Err(other)),
                Err(x) => Err(x),
            },
            other => other,
        }
    }
}

/// Once a prefix of the members stops at a non-success or an error, so does
/// every longer prefix.
proof fn lemma_members_stop(members: Seq<ValueExpr>, i: int, it: ItemState)
    requires
        0 <= i <= members.len(),
        !(resolved_members(members.take(i), it) is Ok && resolved_members(members.take(i), it)->Ok_0 is Ok),
    ensures
        resolved_members(members, it) == resolved_members(members.take(i), it),
    decreases members.len() - i,
{
    if i < members.len() {
        let t = members.take(i + 1);
        assert(t.drop_last() =~= members.take(i));
        lemma_members_stop(members, i + 1, it);
    } else {
        assert(members.take(i) =~= members);
    }
}

/// The fields of an object resolved in order: their values, or the first
/// non-success result, or the first error.
pub open spec fn resolved_fields(fields: Seq<(String, ValueExpr)>, it: ItemState) -> Result<
    Result<Seq<(Seq<char>, serde_json::Value)>, FlowResult>,
    ExecutionError,
>
    decreases fields,
{
    if fields.len() == 0 {
        Ok(Ok(Seq::empty()))
    } else {
        match resolved_fields(fields.drop_last(), it) {
            Ok(Ok(acc)) => match resolved(fields.last().1, it) {
                Ok(FlowResult::Success(v)) => Ok(Ok(acc.push((fields.last().0@, v)))),
                Ok(other) => Ok(Err(other)),
                Err(x) => Err(x),
            },
            other => other,
        }
    }
}

/// Once a prefix of the fields stops at a non-success or an error, so does
/// every longer prefix.
proof fn lemma_fields_stop(fields: Seq<(String, ValueExpr)>, i: int, it: ItemState)
    requires
        0 <= i <= fields.len(),
        !(resolved_fields(fields.take(i), it) is Ok && resolved_fields(fields.take(i), it)->Ok_0 is Ok),
    ensures
        resolved_fields(fields, it) == resolved_fields(fields.take(i), it),
    decreases fields.len() - i,
{
    if i < fields.len() {
        let t = fields.take(i + 1);
        assert(t.drop_last() =~= fields.take(i));
        lemma_fields_stop(fields, i + 1, it);
    } else {
        assert(fields.take(i) =~= fields);
    }
}

/// Resolve expression `e` for item `it`.
pub fn resolve(it: &ItemState, e: &ValueExpr) -> (r: Result<FlowResult, ExecutionError>)
    requires
        it.wf(),
    ensures
        r == resolved(*e, *it),
    decreases e,
{
    match e {
        ValueExpr::Literal(v) => Ok(FlowResult::Success(v.clone())),
        ValueExpr::Input { path } => match follow_path(it.input(), path) {
            Some(x) => Ok(FlowResult::Success(x)),
            None => Err(ExecutionError::UndefinedField),
        },
        ValueExpr::Variable { variable, default } => match it.get_variable(variable) {
            Some(v) => Ok(FlowResult::Success(v)),
            None => match default {
                Some(d) => resolve(it, &**d),
                None => Err(ExecutionError::UndefinedValue),
            },
        },
        ValueExpr::Step { step, path, on_skip } => {
            let found = it.step_index_map().step_index(step.as_str());
            proof {
                it.lemma_wf();
                lemma_lookup_name_bound(step_names(it.flow_spec().steps@), step@);
            }
            match found {
                Some(i) => match it.get_step_result(i) {
                    Some(r) => match (apply_path(r.clone(), path), on_skip) {
                        (Ok(FlowResult::Skipped), SkipAction::UseDefault { default_value }) => Ok(
                            FlowResult::Success(default_value.clone()),
                        ),
                        (other, _) => other,
                    },
                    None => Err(ExecutionError::StepNotCompleted),
                },
                None => Err(ExecutionError::UndefinedValue),
            }
        },
        ValueExpr::Object(fields) => {
            let ghost fv = |f: (String, serde_json::Value)| (f.0@, f.1);
            let mut acc: Vec<(String, serde_json::Value)> = Vec::new();
            let mut i: usize = 0;
            proof {
                assert(fields@.take(0) =~= Seq::<(String, ValueExpr)>::empty());
                assert(acc@.map_values(fv) =~= Seq::<(Seq<char>, serde_json::Value)>::empty());
            }
            while i < fields.len()
                invariant
                    it.wf(),
                    *e == ValueExpr::Object(*fields),
                    fv == (|f: (String, serde_json::Value)| (f.0@, f.1)),
                    i <= fields@.len(),
                    resolved_fields(fields@.take(i as int), *it) == Ok::<
                        Result<Seq<(Seq<char>, serde_json::Value)>, FlowResult>,
                        ExecutionError,
                    >(Ok(acc@.map_values(fv))),
                decreases fields@.len() - i,
            {
                proof {
                    assert(decreases_to!(*e => (*e)->Object_0));
                    assert(decreases_to!(*fields => fields@));
                    assert(decreases_to!(fields@ => fields@[i as int]));
                    assert(decreases_to!(fields@[i as int] => fields@[i as int].1));
                    assert(decreases_to!(*e => fields@[i as int].1));
                    let t = fields@.take(i + 1);
                    assert(t.drop_last() =~= fields@.take(i as int));
                    assert(t.last() == fields@[i as int]);
                }
                let v = resolve(it, &fields[i].1);
                match v {
                    Ok(FlowResult::Success(value)) => {
                        let ghost before = acc@;
                        acc.push((fields[i].0.clone(), value));
                        proof {
                            assert(acc@.map_values(fv) =~= before.map_values(fv).push((fields@[i as int].0@, value)));
                        }
                    },
                    Ok(other) => {
                        proof {
                            lemma_fields_stop(fields@, i + 1, *it);
                        }
                        return Ok(other);
                    },
                    Err(x) => {
                        proof {
                            lemma_fields_stop(fields@, i + 1, *it);
                        }
                        return Err(x);
                    },
                }
                i = i + 1;
            }
            proof {
                assert(fields@.take(fields@.len() as int) =~= fields@);
            }
            Ok(FlowResult::Success(json_object(acc)))
        },
        ValueExpr::Array(members) => {
            let mut acc: Vec<serde_json::Value> = Vec::new();
            let mut i: usize = 0;
            proof {
                assert(members@.take(0) =~= Seq::<ValueExpr>::empty());
            }
            while i < members.len()
                invariant
                    it.wf(),
                    *e == ValueExpr::Array(*members),
                    i <= members@.len(),
                    resolved_members(members@.take(i as int), *it) == Ok::<
                        Result<Seq<serde_json::Value>, FlowResult>,
                        ExecutionError,
                    >(Ok(acc@)),
                decreases members@.len() - i,
            {
                proof {
                    assert(decreases_to!(*e => (*e)->Array_0));
                    assert(decreases_to!(*members => members@));
                    assert(decreases_to!(members@ => members@[i as int]));
                    assert(decreases_to!(*e => members@[i as int]));
                    let t = members@.take(i + 1);
                    assert(t.drop_last() =~= members@.take(i as int));
                    assert(t.last() == members@[i as int]);
                }
                let v = resolve(it, &members[i]);
                match v {
                    Ok(FlowResult::Success(value)) => {
                        acc.push(value);
                    },
                    Ok(other) => {
                        proof {
                            lemma_members_stop(members@, i + 1, *it);
                        }
                        return Ok(other);
                    },
                    Err(x) => {
                        proof {
                            lemma_members_stop(members@, i + 1, *it);
                        }
                        return Err(x);
                    },
                }
                i = i + 1;
            }
            proof {
                assert(members@.take(members@.len() as int) =~= members@);
            }
            Ok(FlowResult::Success(json_array(acc)))
        },
    }
}

} // verus!
