//! The validation engine: checks an environment against a parsed schema and
//! collects every violation — a missing or empty required variable, or a
//! value the declared type rejects — before any decision is made.

use vstd::prelude::*;
use vstd::string::StrSliceExecFns;
use vstd::string::StringExecFns;
use crate::schema::Config;
use crate::strmap::{lemma_map_of_at, lemma_map_of_domain, map_of, unique_keys};
use crate::text::str_eq;
use crate::vartype::VarType;

verus! {

/// A mapping from variable names to their raw values, as one run of the
/// program sees its environment.
pub struct EnvMap {
    entries: Vec<(String, String)>,
}

impl EnvMap {
    /// The entries as character sequences, in order.
    pub closed spec fn entries_view(&self) -> Seq<(Seq<char>, Seq<char>)> {
        Seq::new(self.entries@.len(), |i: int| (self.entries@[i].0@, self.entries@[i].1@))
    }

    /// No two entries share a name.
    pub open spec fn wf(&self) -> bool {
        unique_keys(self.entries_view())
    }

    /// An empty environment.
    pub fn new() -> (r: EnvMap)
        ensures
            r.wf(),
            r@ == Map::<Seq<char>, Seq<char>>::empty(),
    {
        let r = EnvMap { entries: Vec::new() };
        proof {
            assert(r.entries_view() =~= Seq::<(Seq<char>, Seq<char>)>::empty());
        }
        r
    }

    /// Position of the entry holding `key`, if any.
    fn position(&self, key: &str) -> (r: Option<usize>)
        ensures
            match r {
                Some(i) => i < self.entries_view().len() && self.entries_view()[i as int].0
                    == key@,
                None => forall|i: int|
                    0 <= i < self.entries_view().len() ==> self.entries_view()[i].0 != key@,
            },
    {
        let n = self.entries.len();
        let mut i: usize = 0;
        while i < n
            invariant
                0 <= i <= n,
                n == self.entries_view().len(),
                forall|j: int| 0 <= j < i ==> self.entries_view()[j].0 != key@,
            decreases n - i,
        {
            if str_eq(self.entries[i].0.as_str(), key) {
                return Some(i);
            }
            i = i + 1;
        }
        None
    }

    /// Stores a variable; a later entry for the same name wins.
    pub fn insert(&mut self, key: String, value: String)
        requires
            old(self).wf(),
        ensures
            final(self).wf(),
            final(self)@ == old(self)@.insert(key@, value@),
    {
        let ghost prev = self.entries_view();
        match self.position(key.as_str()) {
            Some(i) => {
                let ghost k = prev[i as int].0;
                self.entries[i] = (key, value);
                proof {
                    assert(self.entries_view() =~= prev.update(i as int, (k, value@)));
                    crate::strmap::lemma_map_of_update(prev, i as int, value@);
                }
            },
            None => {
                self.entries.push((key, value));
                proof {
                    assert(self.entries_view() =~= prev.push((key@, value@)));
                    crate::strmap::lemma_map_of_push(prev, key@, value@);
                    assert forall|x: int, y: int|
                        0 <= x < y < self.entries_view().len() implies self.entries_view()[x].0
                        != self.entries_view()[y].0 by {
                        if y < prev.len() {
                            assert(self.entries_view()[x] == prev[x]);
                            assert(self.entries_view()[y] == prev[y]);
                        } else {
                            assert(self.entries_view()[x] == prev[x]);
                        }
                    }
                }
            },
        }
    }

    /// The value stored under `key`, if any.
    pub fn get(&self, key: &str) -> (r: Option<&String>)
        requires
            self.wf(),
        ensures
            match r {
                Some(v) => self@.contains_key(key@) && v@ == self@[key@],
                None => !self@.contains_key(key@),
            },
    {
        match self.position(key) {
            Some(i) => {
                proof {
                    lemma_map_of_at(self.entries_view(), i as int);
                }
                Some(&self.entries[i].1)
            },
            None => {
                proof {
                    lemma_map_of_domain(self.entries_view(), key@);
                }
                None
            },
        }
    }
}

impl View for EnvMap {
    type V = Map<Seq<char>, Seq<char>>;

    /// The environment as a map, a later entry for a name winning.
    open spec fn view(&self) -> Map<Seq<char>, Seq<char>> {
        map_of(self.entries_view())
    }
}

/// One environment variable failing its schema constraint (ghost form).
pub enum SpecViolation {
    RequiredMissing { key: Seq<char> },
    RequiredEmpty { key: Seq<char> },
    RequiredInvalid { key: Seq<char>, value: Seq<char>, expected: VarType },
    OptionalInvalid { key: Seq<char>, value: Seq<char>, expected: VarType },
}

/// One environment variable failing its schema constraint: a required
/// variable missing, a required variable empty, or a variable whose value
/// its declared type rejects.
#[derive(Debug)]
pub enum Violation {
    RequiredMissing { key: String },
    RequiredEmpty { key: String },
    RequiredInvalid { key: String, value: String, expected: VarType },
    OptionalInvalid { key: String, value: String, expected: VarType },
}

impl View for Violation {
    type V = SpecViolation;

    open spec fn view(&self) -> SpecViolation {
        match self {
            Violation::RequiredMissing { key } => SpecViolation::RequiredMissing { key: key@ },
            Violation::RequiredEmpty { key } => SpecViolation::RequiredEmpty { key: key@ },
            Violation::RequiredInvalid { key, value, expected } => SpecViolation::RequiredInvalid {
                key: key@,
                value: value@,
                expected: *expected,
            },
            Violation::OptionalInvalid { key, value, expected } => SpecViolation::OptionalInvalid {
                key: key@,
                value: value@,
                expected: *expected,
            },
        }
    }
}

impl DeepView for Violation {
    type V = SpecViolation;

    open spec fn deep_view(&self) -> SpecViolation {
        self.view()
    }
}

/// What a required entry contributes: missing and empty values are
/// violations whatever the declared type says, and otherwise the type's own
/// rule decides.
pub open spec fn spec_required_violation(
    key: Seq<char>,
    ty: VarType,
    env: Map<Seq<char>, Seq<char>>,
) -> Option<SpecViolation> {
    if !env.contains_key(key) {
        Some(SpecViolation::RequiredMissing { key })
    } else if env[key].len() == 0 {
        Some(SpecViolation::RequiredEmpty { key })
    } else if !ty.spec_validate(env[key]) {
        Some(SpecViolation::RequiredInvalid { key, value: env[key], expected: ty })
    } else {
        None
    }
}

/// What an optional entry contributes: absence is never a violation, and a
/// present value answers to the type's own rule alone.
pub open spec fn spec_optional_violation(
    key: Seq<char>,
    ty: VarType,
    env: Map<Seq<char>, Seq<char>>,
) -> Option<SpecViolation> {
    if env.contains_key(key) && !ty.spec_validate(env[key]) {
        Some(SpecViolation::OptionalInvalid { key, value: env[key], expected: ty })
    } else {
        None
    }
}

/// The violations the entries contribute, in entry order. `required`
/// selects which rule applies.
pub open spec fn spec_collect(
    entries: Seq<(Seq<char>, VarType)>,
    env: Map<Seq<char>, Seq<char>>,
    required: bool,
) -> Seq<SpecViolation>
    decreases entries.len(),
{
    if entries.len() == 0 {
        Seq::empty()
    } else {
        let head = spec_collect(entries.drop_last(), env, required);
        let last = if required {
            spec_required_violation(entries.last().0, entries.last().1, env)
        } else {
            spec_optional_violation(entries.last().0, entries.last().1, env)
        };
        match last {
            Some(v) => head.push(v),
            None => head,
        }
    }
}

/// Every violation of a schema against an environment: all required
/// entries' violations, then all optional entries' violations.
pub open spec fn spec_check(
    req: Seq<(Seq<char>, VarType)>,
    opt: Seq<(Seq<char>, VarType)>,
    env: Map<Seq<char>, Seq<char>>,
) -> Seq<SpecViolation> {
    spec_collect(req, env, true) + spec_collect(opt, env, false)
}

/// Checks the environment against the schema, collecting every violation;
/// an empty result means the environment satisfies the schema.
pub fn check(config: &Config, env: &EnvMap) -> (r: Vec<Violation>)
    requires
        config.wf(),
        env.wf(),
    ensures
        r.deep_view() == spec_check(
            config.required.entries_view(),
            config.optional.entries_view(),
            env@,
        ),
{
    let mut out: Vec<Violation> = Vec::new();
    let ghost req_entries = config.required.entries_view();
    let ghost opt_entries = config.optional.entries_view();
    proof {
        assert(out.deep_view() =~= Seq::<SpecViolation>::empty());
        assert(req_entries.take(0) =~= Seq::<(Seq<char>, VarType)>::empty());
    }
    let nreq = config.required.len();
    let mut i: usize = 0;
    while i < nreq
        invariant
            0 <= i <= nreq,
            nreq == req_entries.len(),
            req_entries == config.required.entries_view(),
            config.wf(),
            env.wf(),
            out.deep_view() == spec_collect(req_entries.take(i as int), env@, true),
        decreases nreq - i,
    {
        let key = config.required.key_at(i);
        let ty = config.required.type_at(i);
        let ghost prev = out.deep_view();
        match env.get(key.as_str()) {
            None => {
                out.push(Violation::RequiredMissing { key: key.clone() });
                proof {
                    assert(out.deep_view() =~= prev.push(out@[out@.len() - 1]@));
                }
            },
            Some(val) => {
                if val.as_str().unicode_len() == 0 {
                    out.push(Violation::RequiredEmpty { key: key.clone() });
                    proof {
                        assert(out.deep_view() =~= prev.push(out@[out@.len() - 1]@));
                    }
                } else if !ty.validate(val.as_str()) {
                    out.push(
                        Violation::RequiredInvalid {
                            key: key.clone(),
                            value: val.clone(),
                            expected: ty,
                        },
                    );
                    proof {
                        assert(out.deep_view() =~= prev.push(out@[out@.len() - 1]@));
                    }
                }
            },
        }
        proof {
            assert(req_entries.take(i + 1).drop_last() =~= req_entries.take(i as int));
            assert(req_entries.take(i + 1).last() == req_entries[i as int]);
        }
        i = i + 1;
    }
    proof {
        assert(req_entries.take(nreq as int) =~= req_entries);
        assert(opt_entries.take(0) =~= Seq::<(Seq<char>, VarType)>::empty());
        assert(spec_collect(opt_entries.take(0), env@, false) =~= Seq::<SpecViolation>::empty());
    }
    let nopt = config.optional.len();
    let mut j: usize = 0;
    while j < nopt
        invariant
            0 <= j <= nopt,
            nopt == opt_entries.len(),
            opt_entries == config.optional.entries_view(),
            req_entries == config.required.entries_view(),
            config.wf(),
            env.wf(),
            out.deep_view() == spec_collect(req_entries, env@, true) + spec_collect(
                opt_entries.take(j as int),
                env@,
                false,
            ),
        decreases nopt - j,
    {
        let key = config.optional.key_at(j);
        let ty = config.optional.type_at(j);
        let ghost prev = out.deep_view();
        match env.get(key.as_str()) {
            None => {},
            Some(val) => {
                if !ty.validate(val.as_str()) {
                    out.push(
                        Violation::OptionalInvalid {
                            key: key.clone(),
                            value: val.clone(),
                            expected: ty,
                        },
                    );
                    proof {
                        assert(out.deep_view() =~= prev.push(out@[out@.len() - 1]@));
                    }
                }
            },
        }
        proof {
            assert(opt_entries.take(j + 1).drop_last() =~= opt_entries.take(j as int));
            assert(opt_entries.take(j + 1).last() == opt_entries[j as int]);
        }
        j = j + 1;
    }
    proof {
        assert(opt_entries.take(nopt as int) =~= opt_entries);
    }
    out
}

/// The message of a violation, as the diagnostics print it.
pub open spec fn spec_violation_message(v: SpecViolation) -> Seq<char> {
    match v {
        SpecViolation::RequiredMissing { key } => "required variable '"@ + key + "' is missing"@,
        SpecViolation::RequiredEmpty { key } => "required variable '"@ + key + "' is empty"@,
        SpecViolation::RequiredInvalid { key, value, expected } => "required variable '"@ + key
            + "' has invalid value '"@ + value + "' (expected "@ + expected.spec_name() + ")"@,
        SpecViolation::OptionalInvalid { key, value, expected } => "optional variable '"@ + key
            + "' has invalid value '"@ + value + "' (expected "@ + expected.spec_name() + ")"@,
    }
}

impl Violation {
    /// Renders the violation for the diagnostics.
    pub fn message(&self) -> (r: String)
        ensures
            r@ == spec_violation_message(self@),
    {
        match self {
            Violation::RequiredMissing { key } => {
                let mut s = "required variable '".to_owned();
                s.append(key.as_str());
                s.append("' is missing");
                s
            },
            Violation::RequiredEmpty { key } => {
                let mut s = "required variable '".to_owned();
                s.append(key.as_str());
                s.append("' is empty");
                s
            },
            Violation::RequiredInvalid { key, value, expected } => {
                let mut s = "required variable '".to_owned();
                s.append(key.as_str());
                s.append("' has invalid value '");
                s.append(value.as_str());
                s.append("' (expected ");
                s.append(expected.as_str());
                s.append(")");
                s
            },
            Violation::OptionalInvalid { key, value, expected } => {
                let mut s = "optional variable '".to_owned();
                s.append(key.as_str());
                s.append("' has invalid value '");
                s.append(value.as_str());
                s.append("' (expected ");
                s.append(expected.as_str());
                s.append(")");
                s
            },
        }
    }
}

/// A violation contributed by some entry stands in the collected list.
proof fn lemma_collect_contains(
    entries: Seq<(Seq<char>, VarType)>,
    env: Map<Seq<char>, Seq<char>>,
    required: bool,
    i: int,
    v: SpecViolation,
)
    requires
        0 <= i < entries.len(),
        if required {
            spec_required_violation(entries[i].0, entries[i].1, env) == Some(v)
        } else {
            spec_optional_violation(entries[i].0, entries[i].1, env) == Some(v)
        },
    ensures
        spec_collect(entries, env, required).contains(v),
    decreases entries.len(),
{
    if i == entries.len() - 1 {
        let head = spec_collect(entries.drop_last(), env, required);
        assert(spec_collect(entries, env, required)[head.len() as int] == v);
    } else {
        assert(entries.drop_last()[i] == entries[i]);
        lemma_collect_contains(entries.drop_last(), env, required, i, v);
        let head = spec_collect(entries.drop_last(), env, required);
        let k = choose|k: int| 0 <= k < head.len() && head[k] == v;
        assert(spec_collect(entries, env, required)[k] == v);
    }
}

/// Law: the engine never drops a violation — if the required entry at `i`
/// fails its check, its violation appears in the collected list.
pub proof fn lemma_check_complete_required(
    req: Seq<(Seq<char>, VarType)>,
    opt: Seq<(Seq<char>, VarType)>,
    env: Map<Seq<char>, Seq<char>>,
    i: int,
    v: SpecViolation,
)
    requires
        0 <= i < req.len(),
        spec_required_violation(req[i].0, req[i].1, env) == Some(v),
    ensures
        spec_check(req, opt, env).contains(v),
{
    lemma_collect_contains(req, env, true, i, v);
    let head = spec_collect(req, env, true);
    let k = choose|k: int| 0 <= k < head.len() && head[k] == v;
    assert(spec_check(req, opt, env)[k] == v);
}

/// Law: the engine never drops a violation — if the optional entry at `i`
/// fails its check, its violation appears in the collected list.
pub proof fn lemma_check_complete_optional(
    req: Seq<(Seq<char>, VarType)>,
    opt: Seq<(Seq<char>, VarType)>,
    env: Map<Seq<char>, Seq<char>>,
    i: int,
    v: SpecViolation,
)
    requires
        0 <= i < opt.len(),
        spec_optional_violation(opt[i].0, opt[i].1, env) == Some(v),
    ensures
        spec_check(req, opt, env).contains(v),
{
    lemma_collect_contains(opt, env, false, i, v);
    let head = spec_collect(req, env, true);
    let tail = spec_collect(opt, env, false);
    let k = choose|k: int| 0 <= k < tail.len() && tail[k] == v;
    assert(spec_check(req, opt, env)[head.len() + k] == v);
}

} // verus!
