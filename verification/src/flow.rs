//! The workflow model that execution runs on: steps, their input expressions,
//! step results and error actions.


use vstd::prelude::*;

verus! {

/// The name of `serde_json::Value::is_null` on a value.
pub uninterp spec fn json_is_null(v: serde_json::Value) -> bool;

/// `serde_json::Value::Null`; `Value::is_null` holds of it.
#[verifier::external_body]
pub(crate) fn json_null() -> (r: serde_json::Value)
    ensures
        json_is_null(r),
{
    serde_json::Value::Null
}

/// An error produced by a step or by input resolution.
pub struct FlowError {
    pub code: i64,
    pub message: String,
}

impl FlowError {
    pub fn new(code: i64, message: String) -> (r: Self)
        ensures
            r.code == code,
            r.message == message,
    {
        FlowError { code, message }
    }
}

impl Clone for FlowError {
    fn clone(&self) -> (r: Self)
        ensures
            r == *self,
    {
        FlowError { code: self.code, message: self.message.clone() }
    }
}

/// The outcome of a step (or of resolving an expression).
pub enum FlowResult {
    Success(serde_json::Value),
    Skipped,
    Failed(FlowError),
}

impl Clone for FlowResult {
    fn clone(&self) -> (r: Self)
        ensures
            r == *self,
    {
        match self {
            FlowResult::Success(v) => FlowResult::Success(v.clone()),
            FlowResult::Skipped => FlowResult::Skipped,
            FlowResult::Failed(e) => FlowResult::Failed(e.clone()),
        }
    }
}

impl FlowResult {
    pub fn is_success(&self) -> (r: bool)
        ensures
            r == (*self is Success),
    {
        match self {
            FlowResult::Success(_) => true,
            _ => false,
        }
    }

    pub fn is_failed(&self) -> (r: bool)
        ensures
            r == (*self is Failed),
    {
        match self {
            FlowResult::Failed(_) => true,
            _ => false,
        }
    }
}

/// What a step reference gives when the step was skipped.
pub enum SkipAction {
    /// The reference is skipped as well.
    Skip,
    /// The reference succeeds with this value.
    UseDefault { default_value: serde_json::Value },
}

impl SkipAction {
    /// `UseDefault` with the given value, `null` when none is given.
    pub fn use_default(default_value: Option<serde_json::Value>) -> (r: Self)
        ensures
            match default_value {
                Some(v) => r == SkipAction::UseDefault { default_value: v },
                None => r matches SkipAction::UseDefault { default_value } && json_is_null(default_value),
            },
    {
        match default_value {
            Some(v) => SkipAction::UseDefault { default_value: v },
            None => SkipAction::UseDefault { default_value: json_null() },
        }
    }
}

/// An input or output expression of a flow. What execution reads of it is
/// which steps it refers to.
pub enum ValueExpr {
    /// A constant value.
    Literal(serde_json::Value),
    /// The value that `path` addresses in the item's input: field names
    /// after an optional `$`, separated by dots, as in `$.user.name` or
    /// `user` (the whole input for an empty path or `$`).
    Input { path: String },
    /// A run variable, with an expression used when the variable is not set.
    Variable { variable: String, default: Option<Box<ValueExpr>> },
    /// The result of the step with the given id; of a successful result, the
    /// value that `path` addresses in it (as for `Input`). A skipped result
    /// is handled as `on_skip` says.
    Step { step: String, path: String, on_skip: SkipAction },
    /// An object whose fields are expressions.
    Object(Vec<(String, ValueExpr)>),
    /// An array whose members are expressions.
    Array(Vec<ValueExpr>),
}

/// `a` and `b` are the same expression: the same literals, names and paths,
/// field by field. (Two lists of fields are told apart by their contents.)
pub open spec fn same_expr(a: ValueExpr, b: ValueExpr) -> bool
    decreases a,
{
    match (a, b) {
        (ValueExpr::Literal(x), ValueExpr::Literal(y)) => x == y,
        (ValueExpr::Input { path: p }, ValueExpr::Input { path: q }) => p@ == q@,
        (ValueExpr::Variable { variable: v, default: d }, ValueExpr::Variable { variable: w, default: e }) => {
            &&& v@ == w@
            &&& match (d, e) {
                (Some(x), Some(y)) => same_expr(*x, *y),
                (None, None) => true,
                _ => false,
            }
        },
        (ValueExpr::Step { step: s, path: p, on_skip: a }, ValueExpr::Step { step: t, path: q, on_skip: b }) => {
            s@ == t@ && p@ == q@ && a == b
        },
        (ValueExpr::Object(f), ValueExpr::Object(g)) => same_fields(f@, g@),
        (ValueExpr::Array(f), ValueExpr::Array(g)) => same_members(f@, g@),
        _ => false,
    }
}

/// The fields of two object expressions are the same, in order.
pub open spec fn same_fields(f: Seq<(String, ValueExpr)>, g: Seq<(String, ValueExpr)>) -> bool
    decreases f,
{
    if f.len() == 0 {
        g.len() == 0
    } else {
        &&& g.len() == f.len()
        &&& same_fields(f.drop_last(), g.drop_last())
        &&& f.last().0@ == g.last().0@
        &&& same_expr(f.last().1, g.last().1)
    }
}

/// The members of two array expressions are the same, in order.
pub open spec fn same_members(f: Seq<ValueExpr>, g: Seq<ValueExpr>) -> bool
    decreases f,
{
    if f.len() == 0 {
        g.len() == 0
    } else {
        &&& g.len() == f.len()
        &&& same_members(f.drop_last(), g.drop_last())
        &&& same_expr(f.last(), g.last())
    }
}

/// A copy of an expression.
pub fn clone_expr(e: &ValueExpr) -> (r: ValueExpr)
    ensures
        same_expr(r, *e),
    decreases e,
{
    match e {
        ValueExpr::Literal(v) => ValueExpr::Literal(v.clone()),
        ValueExpr::Input { path } => ValueExpr::Input { path: path.clone() },
        ValueExpr::Variable { variable, default } => {
            let d = match default {
                Some(d) => Some(Box::new(clone_expr(&**d))),
                None => None,
            };
            ValueExpr::Variable { variable: variable.clone(), default: d }
        },
        ValueExpr::Step { step, path, on_skip } => {
            let on_skip = match on_skip {
                SkipAction::Skip => SkipAction::Skip,
                SkipAction::UseDefault { default_value } => SkipAction::UseDefault { default_value: default_value.clone() },
            };
            ValueExpr::Step { step: step.clone(), path: path.clone(), on_skip }
        },
        ValueExpr::Object(fields) => {
            let mut out: Vec<(String, ValueExpr)> = Vec::new();
            let mut i: usize = 0;
            while i < fields.len()
                invariant
                    *e == ValueExpr::Object(*fields),
                    i <= fields@.len(),
                    out@.len() == i,
                    same_fields(out@, fields@.take(i as int)),
                decreases fields@.len() - i,
            {
                proof {
                    assert(decreases_to!(*e => (*e)->Object_0));
                    assert(decreases_to!(*fields => fields@));
                    assert(decreases_to!(fields@ => fields@[i as int]));
                    assert(decreases_to!(fields@[i as int] => fields@[i as int].1));
                    assert(decreases_to!(*e => fields@[i as int].1));
                }
                let v = clone_expr(&fields[i].1);
                let ghost before = out@;
                out.push((fields[i].0.clone(), v));
                proof {
                    let t = fields@.take(i + 1);
                    assert(t.drop_last() =~= fields@.take(i as int));
                    assert(out@.drop_last() =~= before);
                    assert(t.last() == fields@[i as int]);
                }
                i = i + 1;
            }
            proof {
                assert(fields@.take(fields@.len() as int) =~= fields@);
            }
            ValueExpr::Object(out)
        },
        ValueExpr::Array(members) => {
            let mut out: Vec<ValueExpr> = Vec::new();
            let mut i: usize = 0;
            while i < members.len()
                invariant
                    *e == ValueExpr::Array(*members),
                    i <= members@.len(),
                    out@.len() == i,
                    same_members(out@, members@.take(i as int)),
                decreases members@.len() - i,
            {
                proof {
                    assert(decreases_to!(*e => (*e)->Array_0));
                    assert(decreases_to!(*members => members@));
                    assert(decreases_to!(members@ => members@[i as int]));
                    assert(decreases_to!(*e => members@[i as int]));
                }
                let v = clone_expr(&members[i]);
                let ghost before = out@;
                out.push(v);
                proof {
                    let t = members@.take(i + 1);
                    assert(t.drop_last() =~= members@.take(i as int));
                    assert(out@.drop_last() =~= before);
                    assert(t.last() == members@[i as int]);
                }
                i = i + 1;
            }
            proof {
                assert(members@.take(members@.len() as int) =~= members@);
            }
            ValueExpr::Array(out)
        },
    }
}

/// What to do when a step fails.
pub enum ErrorAction {
    /// The failure is the step's result.
    Fail,
    /// The step succeeds with the given value (`null` when none is given).
    UseDefault { default_value: Option<serde_json::Value> },
    /// The step is attempted again, at most `max_retries` more times.
    Retry { max_retries: u32 },
}

impl ErrorAction {
    /// The retry budget of the action, if it retries.
    pub open spec fn max_retries_spec(&self) -> Option<u32> {
        match *self {
            ErrorAction::Retry { max_retries } => Some(max_retries),
            _ => None,
        }
    }

    /// The retry budget of the action, if it retries.
    pub fn max_retries(&self) -> (r: Option<u32>)
        ensures
            r == self.max_retries_spec(),
    {
        match self {
            ErrorAction::Retry { max_retries } => Some(*max_retries),
            _ => None,
        }
    }
}

impl Clone for ErrorAction {
    fn clone(&self) -> (r: Self)
        ensures
            r == *self,
    {
        match self {
            ErrorAction::Fail => ErrorAction::Fail,
            ErrorAction::UseDefault { default_value } => ErrorAction::UseDefault {
                default_value: match default_value {
                    Some(v) => Some(v.clone()),
                    None => None,
                },
            },
            ErrorAction::Retry { max_retries } => ErrorAction::Retry { max_retries: *max_retries },
        }
    }
}

/// A step of a flow.
pub struct Step {
    pub id: String,
    pub component: String,
    pub input: ValueExpr,
    pub must_execute: bool,
    pub on_error: ErrorAction,
}

/// A workflow: its steps, its output expression and the default values of its
/// variables.
pub struct Flow {
    pub name: Option<String>,
    pub steps: Vec<Step>,
    pub output: ValueExpr,
    pub variable_defaults: Vec<(String, serde_json::Value)>,
}

/// The ids of the steps of `steps`, in order.
pub open spec fn step_names(steps: Seq<Step>) -> Seq<Seq<char>> {
    steps.map_values(|s: Step| s.id@)
}

/// The index that a step id refers to: the last step with that id (later
/// steps with the same id shadow earlier ones).
pub open spec fn lookup_name(names: Seq<Seq<char>>, name: Seq<char>) -> Option<usize>
    decreases names.len(),
{
    if names.len() == 0 {
        None
    } else if names.last() == name {
        Some((names.len() - 1) as usize)
    } else {
        lookup_name(names.drop_last(), name)
    }
}

pub proof fn lemma_lookup_name_bound(names: Seq<Seq<char>>, name: Seq<char>)
    requires
        names.len() <= usize::MAX,
    ensures
        lookup_name(names, name) matches Some(i) ==> i < names.len() && names[i as int] == name,
        lookup_name(names, name) is None ==> forall|i: int| 0 <= i < names.len() ==> names[i] != name,
        lookup_name(names, name) matches Some(i) ==> forall|j: int| i < j < names.len() ==> names[j] != name,
    decreases names.len(),
{
    if names.len() > 0 && names.last() != name {
        let rest = names.drop_last();
        lemma_lookup_name_bound(rest, name);
        assert forall|i: int| 0 <= i < rest.len() implies names[i] == rest[i] by {}
    }
}

/// The steps that an expression refers to, given the step ids of the flow and
/// the set of variable names that have a value. A variable's default
/// expression counts only when the variable has no value.
pub open spec fn expr_refs(e: ValueExpr, names: Seq<Seq<char>>, defined: Set<Seq<char>>) -> Set<usize>
    decreases e,
{
    match e {
        ValueExpr::Literal(_) => Set::empty(),
        ValueExpr::Input { .. } => Set::empty(),
        ValueExpr::Variable { variable, default } => {
            if defined.contains(variable@) {
                Set::empty()
            } else {
                match default {
                    Some(d) => expr_refs(*d, names, defined),
                    None => Set::empty(),
                }
            }
        },
        ValueExpr::Step { step, .. } => match lookup_name(names, step@) {
            Some(i) => Set::empty().insert(i),
            None => Set::empty(),
        },
        ValueExpr::Object(fields) => fields_refs(fields@, names, defined),
        ValueExpr::Array(members) => members_refs(members@, names, defined),
    }
}

/// The steps that the members of an array expression refer to.
pub open spec fn members_refs(members: Seq<ValueExpr>, names: Seq<Seq<char>>, defined: Set<Seq<char>>) -> Set<usize>
    decreases members,
{
    if members.len() == 0 {
        Set::empty()
    } else {
        members_refs(members.drop_last(), names, defined).union(expr_refs(members.last(), names, defined))
    }
}

/// The steps that the fields of an object expression refer to.
pub open spec fn fields_refs(fields: Seq<(String, ValueExpr)>, names: Seq<Seq<char>>, defined: Set<Seq<char>>) -> Set<usize>
    decreases fields,
{
    if fields.len() == 0 {
        Set::empty()
    } else {
        fields_refs(fields.drop_last(), names, defined).union(expr_refs(fields.last().1, names, defined))
    }
}

} // verus!
