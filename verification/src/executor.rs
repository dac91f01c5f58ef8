//! The execution and dependency-resolution engine.  An `Executor` is a
//! step machine: `step` looks at the run's accumulated state and says what
//! must happen next — an outside value the host should fetch, an HTTP
//! exchange to perform, a finished response to render, or a failure — and
//! the `provide_*` methods record what the host observed.  Everything the
//! host reports is kept, first answer winning, so one run never asks for
//! the same thing twice, resolution is deterministic, and a failed run
//! stays failed.

use vstd::prelude::*;

use crate::json::{parse, parse_spec, ser, to_text, Json};
use crate::options::Options;
use crate::request::{
    find_dependency, find_dep_spec, req_like, Dependencies, Dependency, Request, RequestBody,
    ResponseTarget,
};
use crate::resolvers::env_var_resolver::{EnvVarResolver, EnvVarResolverError};
use crate::resolvers::one_password_resolver::{
    make_reference, reference_of, OnePasswordResolver, OnePasswordResolverError,
    SecretFetchOutcome,
};
use crate::resolvers::prompt_resolver::{PromptResolver, PromptResolverError};
use crate::resolvers::response_resolver::{ResponseResolver, ResponseResolverError};
use crate::response::Response;
use crate::table::Table;
use crate::template::{
    distinct_names, scan_template, str_map_views, subst_spec, substitute, views_of,
};
use crate::text::{quoted, quoted_spec, str_eq, trim_spec};

verus! {

/// Why the execution of a request failed.
#[derive(Debug, PartialEq, Eq)]
pub enum ExecutionError {
    /// The named request is not declared in this run.
    RequestNotFound { request: String },
    /// A placeholder in the URL did not resolve.
    DependencyResolutionFailed(DependencyResolutionError),
    /// Anything else: a header or body that did not resolve, or a failure
    /// while performing the call.
    Unknown(String),
}

/// Why one dependency did not resolve.
#[derive(Debug, PartialEq, Eq)]
pub enum DependencyResolutionError {
    /// The environment could not produce the variable.
    EnvVarDependencyFailed(EnvVarResolverError),
    /// The secret store failed.
    OnePasswordDependencyFailed(OnePasswordResolverError),
    /// A prompt failed.
    PromptDependencyFailed(PromptResolverError),
    /// A source could not produce the value; the message says which.
    NotImplemented(String),
    /// A placeholder has no declared dependency entry.
    PlaceholderDefinitionNotFound { placeholder: String },
    /// A response dependency names a request this run does not declare.
    RequestNotFound { request: String },
    /// A response dependency leads back to a request that is already being
    /// resolved.
    CyclicDependency { request: String },
}

impl DependencyResolutionError {
    /// The error in words.
    pub open spec fn message_view(&self) -> Seq<char> {
        match self {
            DependencyResolutionError::EnvVarDependencyFailed(e) => e.message_view(),
            DependencyResolutionError::OnePasswordDependencyFailed(e) => e.message_view(),
            DependencyResolutionError::PromptDependencyFailed(e) => e.message_view(),
            DependencyResolutionError::NotImplemented(m) => "Not yet implemented: `"@ + m@ + "`"@,
            DependencyResolutionError::PlaceholderDefinitionNotFound { placeholder } => {
                "Dependency definition for "@ + quoted_spec(placeholder@)
                    + " could not be found"@
            },
            DependencyResolutionError::RequestNotFound { request } => {
                "Request configuration for "@ + quoted_spec(request@) + " could not be found"@
            },
            DependencyResolutionError::CyclicDependency { request } => {
                "Cyclic dependency on request "@ + quoted_spec(request@)
            },
        }
    }

    /// The error in words.
    pub fn message(&self) -> (r: String)
        ensures
            r@ == self.message_view(),
    {
        match self {
            DependencyResolutionError::EnvVarDependencyFailed(e) => e.message(),
            DependencyResolutionError::OnePasswordDependencyFailed(e) => e.message(),
            DependencyResolutionError::PromptDependencyFailed(e) => e.message(),
            DependencyResolutionError::NotImplemented(s) => {
                let mut m: String = "Not yet implemented: `".to_owned();
                m.append(s.as_str());
                m.append("`");
                m
            },
            DependencyResolutionError::PlaceholderDefinitionNotFound { placeholder } => {
                let mut m: String = "Dependency definition for ".to_owned();
                m.append(quoted(placeholder.as_str()).as_str());
                m.append(" could not be found");
                m
            },
            DependencyResolutionError::RequestNotFound { request } => {
                let mut m: String = "Request configuration for ".to_owned();
                m.append(quoted(request.as_str()).as_str());
                m.append(" could not be found");
                m
            },
            DependencyResolutionError::CyclicDependency { request } => {
                let mut m: String = "Cyclic dependency on request ".to_owned();
                m.append(quoted(request.as_str()).as_str());
                m
            },
        }
    }
}

impl ExecutionError {
    /// The error in words.
    pub open spec fn message_view(&self) -> Seq<char> {
        match self {
            ExecutionError::RequestNotFound { request } => "Request "@ + quoted_spec(request@)
                + " was not found in history"@,
            ExecutionError::DependencyResolutionFailed(e) => e.message_view(),
            ExecutionError::Unknown(m) => "Unknown error: "@ + quoted_spec(m@),
        }
    }

    /// The error in words.
    pub fn message(&self) -> (r: String)
        ensures
            r@ == self.message_view(),
    {
        match self {
            ExecutionError::RequestNotFound { request } => {
                let mut m: String = "Request ".to_owned();
                m.append(quoted(request.as_str()).as_str());
                m.append(" was not found in history");
                m
            },
            ExecutionError::DependencyResolutionFailed(e) => e.message(),
            ExecutionError::Unknown(s) => {
                let mut m: String = "Unknown error: ".to_owned();
                m.append(quoted(s.as_str()).as_str());
                m
            },
        }
    }
}

/// A request with every template resolved, ready to be performed.
#[derive(Debug)]
pub struct ResolvedRequest {
    pub name: String,
    pub method: String,
    pub url: String,
    pub headers: Vec<(String, String)>,
    pub body: Option<ResolvedBody>,
}

/// A resolved body, ready for the wire.
#[derive(Debug)]
pub enum ResolvedBody {
    Text(String),
    Json(Json),
    Form(Vec<(String, String)>),
}

/// What the engine asks of its host next.
#[derive(Debug)]
pub enum EngineStep {
    /// Look the variable up in the process environment.
    NeedEnvVar { name: String },
    /// Solicit interactive input under this label.
    NeedPrompt { label: String },
    /// Solicit interactive input for an unset environment variable; the
    /// value is kept under the variable's name, so another variable with
    /// the same prompt text is asked on its own.
    NeedEnvVarPrompt { name: String, label: String },
    /// Read this file as text.
    NeedFile { path: String },
    /// Read and parse this key/value side file.
    NeedEnvFile { path: String },
    /// Write these entries back to the side file.
    NeedEnvFileSave { path: String, entries: Vec<(String, String)> },
    /// Invoke the secret-store tool for this reference.
    NeedSecret { vault: String, item: String, field: String },
    /// Perform this resolved request and report what came back.
    Perform { request: ResolvedRequest },
    /// The current request is complete; render it, then `advance`.
    Finished,
    /// Every request of the run is complete.
    RunComplete,
    /// The run failed; nothing further will be performed.
    Failed { error: ExecutionError },
}

/// What the host observed when it performed an HTTP exchange.
#[derive(Debug)]
pub enum HttpOutcome {
    /// The exchange completed: status, headers (a value is `None` where
    /// its bytes were not text), and the body text.
    Success { status: u16, headers: Vec<(String, Option<String>)>, text: String },
    /// The exchange could not be completed.
    Failure { message: String },
}

/// The engine.  It owns the declared requests, the run-scoped caches, and
/// everything the host has reported.
#[derive(Debug)]
pub struct Executor {
    requests: Vec<Request>,
    options: Options,
    env_var_resolver: EnvVarResolver,
    prompt_resolver: PromptResolver,
    one_password_resolver: OnePasswordResolver,
    response_resolver: ResponseResolver,
    env_file_cache: Table<Vec<(String, String)>>,
    env_missing: Table<bool>,
    env_prompt_refused: Table<bool>,
    prompt_refused: Table<bool>,
    file_contents: Table<String>,
    file_errors: Table<String>,
    env_file_errors: Table<String>,
    env_file_save_errors: Table<String>,
    secret_outcomes: Table<SecretFetchOutcome>,
    http_failures: Table<String>,
    targets: Vec<String>,
    cursor: usize,
    finished_current: Option<Response>,
}

impl Executor {
    /// The declared requests, in order, names unique.
    pub closed spec fn req_table(&self) -> Seq<Request> {
        self.requests@
    }

    /// Environment values this run has resolved, keyed by variable name.
    pub closed spec fn env_cache(&self) -> Map<Seq<char>, String> {
        self.env_var_resolver@
    }

    /// Variable names the host reported unset.
    pub closed spec fn env_missing_set(&self) -> Map<Seq<char>, bool> {
        self.env_missing@
    }

    /// Unset variables whose fallback prompt the host could not answer.
    pub closed spec fn env_prompt_refused_set(&self) -> Map<Seq<char>, bool> {
        self.env_prompt_refused@
    }

    /// Interactive input this run has gathered, keyed by label.
    pub closed spec fn prompt_cache(&self) -> Map<Seq<char>, String> {
        self.prompt_resolver@
    }

    /// Labels the host could not solicit input for.
    pub closed spec fn prompt_refused_set(&self) -> Map<Seq<char>, bool> {
        self.prompt_refused@
    }

    /// File contents the host has read, keyed by path.
    pub closed spec fn files(&self) -> Map<Seq<char>, String> {
        self.file_contents@
    }

    /// Files the host could not read; the value is its report.
    pub closed spec fn file_errors_map(&self) -> Map<Seq<char>, String> {
        self.file_errors@
    }

    /// Parsed side files, keyed by path.
    pub closed spec fn env_files(&self) -> Map<Seq<char>, Vec<(String, String)>> {
        self.env_file_cache@
    }

    /// Side files the host could not load; the value is its report.
    pub closed spec fn env_file_errors_map(&self) -> Map<Seq<char>, String> {
        self.env_file_errors@
    }

    /// Side files the host could not write back; the value is its report.
    pub closed spec fn save_errors(&self) -> Map<Seq<char>, String> {
        self.env_file_save_errors@
    }

    /// Secret-store outcomes, keyed by reference string.
    pub closed spec fn secrets(&self) -> Map<Seq<char>, SecretFetchOutcome> {
        self.secret_outcomes@
    }

    /// Exchanges the host could not complete, keyed by request name.
    pub closed spec fn http_failures_map(&self) -> Map<Seq<char>, String> {
        self.http_failures@
    }

    /// The response history: one entry per request name, last write wins.
    pub closed spec fn history(&self) -> Map<Seq<char>, Response> {
        self.response_resolver@
    }

    /// The names this run executes, in order.
    pub closed spec fn targets_view(&self) -> Seq<String> {
        self.targets@
    }

    /// How many targets are complete.
    pub closed spec fn cursor_at(&self) -> int {
        self.cursor as int
    }

    /// The response of the current target once it is complete.
    pub closed spec fn finished(&self) -> Option<Response> {
        self.finished_current
    }

    /// A request of this name is declared.
    pub open spec fn has_request(&self, name: Seq<char>) -> bool {
        exists|i: int| 0 <= i < self.req_table().len() && self.req_table()[i].name@ == name
    }

    /// Well-formed: declared names are unique, and the cursor is within
    /// the run.
    pub open spec fn wf(&self) -> bool {
        &&& forall|i: int, j: int|
            0 <= i < j < self.req_table().len() ==> self.req_table()[i].name@
                != self.req_table()[j].name@
        &&& 0 <= self.cursor_at() <= self.targets_view().len()
        &&& (self.finished() matches Some(_) ==> self.cursor_at() < self.targets_view().len())
    }

    /// Build an engine for one run: the declared requests (a later
    /// declaration under the same name supersedes an earlier one), and the
    /// options that pick a single named request or the whole collection,
    /// in declared order.
    pub fn new(requests: Vec<Request>, options: Options) -> (r: Executor)
        ensures
            r.wf(),
            r.cursor_at() == 0,
            r.finished() == None::<Response>,
            r.env_cache() == Map::<Seq<char>, String>::empty(),
            r.prompt_cache() == Map::<Seq<char>, String>::empty(),
            r.history() == Map::<Seq<char>, Response>::empty(),
            match options.request {
                Some(name) => r.targets_view().len() == 1 && r.targets_view()[0]@ == name@,
                None => r.targets_view().len() == r.req_table().len() && forall|i: int|
                    0 <= i < r.req_table().len() ==> r.targets_view()[i]@
                        == r.req_table()[i].name@,
            },
            forall|i: int|
                0 <= i < r.req_table().len() ==> requests@.contains(#[trigger] r.req_table()[i]),
            forall|j: int|
                0 <= j < requests@.len() ==> r.has_request((#[trigger] requests@[j]).name@),
            forall|i: int|
                0 <= i < r.req_table().len() ==> last_declaration(
                    requests@,
                    (#[trigger] r.req_table()[i]).name@,
                ) == Some(r.req_table()[i]),
            forall|i1: int, i2: int|
                0 <= i1 < i2 < r.req_table().len() ==> first_declared_at(
                    requests@,
                    r.req_table()[i1].name@,
                ) < first_declared_at(requests@, r.req_table()[i2].name@),
    {
        let ghost n = requests@.len();
        let mut table: Vec<Request> = Vec::new();
        let mut rest = requests;
        let ghost mut k: int = 0;
        while rest.len() > 0
            invariant
                0 <= k <= n,
                n == requests@.len(),
                rest@ == requests@.skip(k),
                forall|i: int, j: int|
                    0 <= i < j < table@.len() ==> table@[i].name@ != table@[j].name@,
                forall|i: int|
                    0 <= i < table@.len() ==> requests@.contains(#[trigger] table@[i]),
                forall|j: int|
                    0 <= j < k ==> table_has_name(table@, (#[trigger] requests@[j]).name@),
                forall|i: int|
                    0 <= i < table@.len() ==> last_declaration(
                        requests@.take(k),
                        (#[trigger] table@[i]).name@,
                    ) == Some(table@[i]),
                forall|i: int|
                    0 <= i < table@.len() ==> 0 <= first_declared_at(
                        requests@,
                        (#[trigger] table@[i]).name@,
                    ) < k,
                forall|i1: int, i2: int|
                    0 <= i1 < i2 < table@.len() ==> first_declared_at(
                        requests@,
                        table@[i1].name@,
                    ) < first_declared_at(requests@, table@[i2].name@),
            decreases rest.len(),
        {
            proof {
                assert(rest@[0] == requests@[k]);
                assert(requests@.skip(k).drop_first() =~= requests@.skip(k + 1));
            }
            let ghost old_table = table@;
            let req = rest.remove(0);
            match position_of(&table, req.name.as_str()) {
                Some(i) => {
                    table.remove(i);
                    proof {
                        assert(forall|x: int|
                            0 <= x < table@.len() ==> #[trigger] table@[x] == if x < i {
                                old_table[x]
                            } else {
                                old_table[x + 1]
                            });
                    }
                    let ghost mid_table = table@;
                    table.insert(i, req);
                    proof {
                        assert(forall|x: int|
                            0 <= x < table@.len() && x != i ==> #[trigger] table@[x] == if x
                                < i {
                                mid_table[x]
                            } else {
                                mid_table[x - 1]
                            });
                        assert(table@[i as int] == requests@[k]);
                        assert(forall|i2: int, j2: int|
                            0 <= i2 < j2 < table@.len() ==> table@[i2].name@
                                != table@[j2].name@);
                        assert(forall|x: int|
                            0 <= x < table@.len() ==> (#[trigger] table@[x]).name@
                                == old_table[x].name@);
                        assert forall|j: int| 0 <= j < k + 1 implies table_has_name(
                            table@,
                            (#[trigger] requests@[j]).name@,
                        ) by {
                            if j < k {
                                let w = choose|w: int|
                                    0 <= w < old_table.len() && (#[trigger] old_table[w]).name@
                                        == requests@[j].name@;
                                assert(table@[w].name@ == requests@[j].name@);
                            } else {
                                assert(table@[i as int].name@ == requests@[j].name@);
                            }
                        };
                        assert(requests@.take(k + 1) =~= requests@.take(k).push(requests@[k]));
                        assert forall|x: int| 0 <= x < table@.len() implies last_declaration(
                            requests@.take(k + 1),
                            (#[trigger] table@[x]).name@,
                        ) == Some(table@[x]) by {
                            lemma_last_decl_push(requests@.take(k), requests@[k], table@[x].name@);
                        };
                    }
                },
                None => {
                    table.push(req);
                    proof {
                        assert(table@.drop_last() =~= old_table);
                        assert(table@.last() == requests@[k]);
                        let last = table@.len() - 1;
                        assert forall|j: int| 0 <= j < k implies requests@[j].name@
                            != requests@[k].name@ by {
                            if requests@[j].name@ == requests@[k].name@ {
                                let w = choose|w: int|
                                    0 <= w < old_table.len() && (#[trigger] old_table[w]).name@
                                        == requests@[j].name@;
                            }
                        };
                        lemma_first_at(requests@, k);
                        assert forall|j: int| 0 <= j < k + 1 implies table_has_name(
                            table@,
                            (#[trigger] requests@[j]).name@,
                        ) by {
                            if j < k {
                                let w = choose|w: int|
                                    0 <= w < old_table.len() && (#[trigger] old_table[w]).name@
                                        == requests@[j].name@;
                                assert(table@[w].name@ == requests@[j].name@);
                            } else {
                                assert(table@[last].name@ == requests@[j].name@);
                            }
                        };
                        assert(requests@.take(k + 1) =~= requests@.take(k).push(requests@[k]));
                        assert forall|x: int| 0 <= x < table@.len() implies last_declaration(
                            requests@.take(k + 1),
                            (#[trigger] table@[x]).name@,
                        ) == Some(table@[x]) by {
                            lemma_last_decl_push(requests@.take(k), requests@[k], table@[x].name@);
                            if x < last {
                                assert(table@[x] == old_table[x]);
                            }
                        };
                    }
                },
            }
            proof {
                k = k + 1;
            }
        }
        proof {
            assert(requests@.take(k) =~= requests@);
        }
        let mut targets: Vec<String> = Vec::new();
        match &options.request {
            Some(name) => {
                targets.push(name.clone());
            },
            None => {
                let n2 = table.len();
                let mut i: usize = 0;
                while i < n2
                    invariant
                        0 <= i <= n2,
                        n2 == table@.len(),
                        targets@.len() == i,
                        forall|k: int| 0 <= k < i ==> targets@[k]@ == table@[k].name@,
                        forall|x: int, y: int|
                            0 <= x < y < table@.len() ==> table@[x].name@ != table@[y].name@,
                        forall|x: int|
                            0 <= x < table@.len() ==> requests@.contains(#[trigger] table@[x]),
                        forall|j: int|
                            0 <= j < requests@.len() ==> table_has_name(
                                table@,
                                (#[trigger] requests@[j]).name@,
                            ),
                        forall|x: int|
                            0 <= x < table@.len() ==> last_declaration(
                                requests@,
                                (#[trigger] table@[x]).name@,
                            ) == Some(table@[x]),
                        forall|x1: int, x2: int|
                            0 <= x1 < x2 < table@.len() ==> first_declared_at(
                                requests@,
                                table@[x1].name@,
                            ) < first_declared_at(requests@, table@[x2].name@),
                    decreases n2 - i,
                {
                    targets.push(table[i].name.clone());
                    i = i + 1;
                }
            },
        }
        Executor {
            requests: table,
            options,
            env_var_resolver: EnvVarResolver::new(),
            prompt_resolver: PromptResolver::new(),
            one_password_resolver: OnePasswordResolver::new(),
            response_resolver: ResponseResolver::new(),
            env_file_cache: Table::new(),
            env_missing: Table::new(),
            env_prompt_refused: Table::new(),
            prompt_refused: Table::new(),
            file_contents: Table::new(),
            file_errors: Table::new(),
            env_file_errors: Table::new(),
            env_file_save_errors: Table::new(),
            secret_outcomes: Table::new(),
            http_failures: Table::new(),
            targets,
            cursor: 0,
            finished_current: None,
        }
    }
}

/// Some entry of the table carries this name.
pub open spec fn table_has_name(tbl: Seq<Request>, name: Seq<char>) -> bool {
    exists|i: int| 0 <= i < tbl.len() && (#[trigger] tbl[i]).name@ == name
}

/// The last declaration of this name among the requests, the one that a
/// run keeps.
pub open spec fn last_declaration(rs: Seq<Request>, name: Seq<char>) -> Option<Request>
    decreases rs.len(),
{
    if rs.len() == 0 {
        None
    } else if rs.last().name@ == name {
        Some(rs.last())
    } else {
        last_declaration(rs.drop_last(), name)
    }
}

/// Position of the first declaration of this name, which fixes where the
/// name stands in a run.
pub open spec fn first_declared_at(rs: Seq<Request>, name: Seq<char>) -> int
    decreases rs.len(),
{
    if rs.len() == 0 {
        0
    } else if rs.first().name@ == name {
        0
    } else {
        1 + first_declared_at(rs.drop_first(), name)
    }
}

proof fn lemma_last_decl_push(rs: Seq<Request>, x: Request, name: Seq<char>)
    ensures
        last_declaration(rs.push(x), name) == if x.name@ == name {
            Some(x)
        } else {
            last_declaration(rs, name)
        },
{
    assert(rs.push(x).drop_last() =~= rs);
    assert(rs.push(x).last() == x);
}

proof fn lemma_first_at(rs: Seq<Request>, j: int)
    requires
        0 <= j < rs.len(),
        forall|x: int| 0 <= x < j ==> rs[x].name@ != rs[j].name@,
    ensures
        first_declared_at(rs, rs[j].name@) == j,
    decreases j,
{
    if j > 0 {
        assert(forall|x: int|
            0 <= x < j - 1 ==> rs.drop_first()[x] == rs[x + 1]);
        assert(rs.drop_first()[j - 1] == rs[j]);
        lemma_first_at(rs.drop_first(), j - 1);
    }
}

/// Index of the request with this name, if declared.
fn position_of(table: &Vec<Request>, name: &str) -> (r: Option<usize>)
    ensures
        match r {
            Some(i) => i < table@.len() && table@[i as int].name@ == name@,
            None => forall|i: int| 0 <= i < table@.len() ==> table@[i].name@ != name@,
        },
{
    let n = table.len();
    let mut i: usize = 0;
    while i < n
        invariant
            0 <= i <= n,
            n == table@.len(),
            forall|k: int| 0 <= k < i ==> table@[k].name@ != name@,
        decreases n - i,
    {
        if str_eq(table[i].name.as_str(), name) {
            return Some(i);
        }
        i = i + 1;
    }
    None
}

/// The first entry of a key/value side file that matches the key.
pub open spec fn pairs_value(es: Seq<(String, String)>, key: Seq<char>) -> Option<String>
    decreases es.len(),
{
    if es.len() == 0 {
        None
    } else if es.first().0@ == key {
        Some(es.first().1)
    } else {
        pairs_value(es.drop_first(), key)
    }
}

/// Look a key up in a parsed side file.
fn pairs_get<'a>(es: &'a Vec<(String, String)>, key: &str) -> (r: Option<&'a String>)
    ensures
        match r {
            Some(v) => pairs_value(es@, key@) == Some(*v),
            None => pairs_value(es@, key@) == None::<String>,
        },
{
    let n = es.len();
    let mut i: usize = 0;
    proof {
        assert(es@.subrange(0, n as int) =~= es@);
    }
    while i < n
        invariant
            0 <= i <= n,
            n == es@.len(),
            pairs_value(es@, key@) == pairs_value(es@.subrange(i as int, n as int), key@),
        decreases n - i,
    {
        proof {
            assert(es@.subrange(i as int, n as int).first() == es@[i as int]);
            assert(es@.subrange(i as int, n as int).drop_first() =~= es@.subrange(
                i + 1,
                n as int,
            ));
        }
        if str_eq(es[i].0.as_str(), key) {
            return Some(&es[i].1);
        }
        i = i + 1;
    }
    proof {
        assert(es@.subrange(n as int, n as int) =~= Seq::<(String, String)>::empty());
    }
    None
}

/// What one dependency resolution attempt concluded.
enum DepOutcome {
    /// The value is at hand.
    Val(String),
    /// The host must fetch something first.
    Need(EngineStep),
    /// A prerequisite request must be executed first.
    Blocked { request: String },
    /// The dependency cannot resolve.
    Fail(DependencyResolutionError),
}

impl Executor {
    /// The value the run's state holds for a dependency right now: `None`
    /// where something outside is still wanted or the source failed.
    pub open spec fn spec_dep_value(&self, dep: Dependency) -> Option<Seq<char>> {
        match dep {
            Dependency::EnvVar { name, .. } => {
                if self.env_cache().contains_key(name@) {
                    Some(self.env_cache()[name@]@)
                } else {
                    None
                }
            },
            Dependency::EnvFile { env_file, key, prompt } => {
                if self.env_files().contains_key(env_file@) {
                    match pairs_value(self.env_files()[env_file@]@, key@) {
                        Some(v) => Some(v@),
                        None => None,
                    }
                } else {
                    None
                }
            },
            Dependency::OnePassword { vault, item, field } => {
                let rf = reference_of(vault@, item@, field@);
                if self.secrets().contains_key(rf) {
                    match self.secrets()[rf] {
                        SecretFetchOutcome::Output { success, stdout, stderr } => if success {
                            match stdout {
                                Some(s) => Some(trim_spec(s@)),
                                None => None,
                            }
                        } else {
                            None
                        },
                        SecretFetchOutcome::CliNotFound => None,
                    }
                } else {
                    None
                }
            },
            Dependency::File { path } => {
                if self.files().contains_key(path@) {
                    Some(trim_spec(self.files()[path@]@))
                } else {
                    None
                }
            },
            Dependency::Prompt { label } => {
                if self.prompt_cache().contains_key(label@) {
                    Some(self.prompt_cache()[label@]@)
                } else {
                    None
                }
            },
            Dependency::Response { request, target } => {
                crate::resolvers::response_resolver::extraction_view(
                    self.history(),
                    request@,
                    target,
                )
            },
        }
    }

    /// An effect is only requested while its answer is unknown: this is
    /// what makes every outside value fetched at most once per run.
    pub open spec fn effect_unknown(&self, s: EngineStep) -> bool {
        match s {
            EngineStep::NeedEnvVar { name } => !self.env_cache().contains_key(name@)
                && !self.env_missing_set().contains_key(name@),
            EngineStep::NeedPrompt { label } => !self.prompt_cache().contains_key(label@)
                && !self.prompt_refused_set().contains_key(label@),
            EngineStep::NeedEnvVarPrompt { name, label } => !self.env_cache().contains_key(name@)
                && self.env_missing_set().contains_key(name@)
                && !self.env_prompt_refused_set().contains_key(name@),
            EngineStep::NeedFile { path } => !self.files().contains_key(path@)
                && !self.file_errors_map().contains_key(path@),
            EngineStep::NeedEnvFile { path } => !self.env_files().contains_key(path@)
                && !self.env_file_errors_map().contains_key(path@),
            EngineStep::NeedEnvFileSave { path, entries } => self.env_files().contains_key(path@)
                && !self.save_errors().contains_key(path@),
            EngineStep::NeedSecret { vault, item, field } => !self.secrets().contains_key(
                reference_of(vault@, item@, field@),
            ),
            _ => false,
        }
    }

    /// The source of one dependency has failed for good: nothing further
    /// from the host can resolve it.
    pub open spec fn dep_failing(&self, dep: Dependency) -> bool {
        match dep {
            Dependency::EnvVar { name, prompt } => !self.env_cache().contains_key(name@)
                && self.env_missing_set().contains_key(name@) && (match prompt {
                Some(_) => self.env_prompt_refused_set().contains_key(name@),
                None => true,
            }),
            Dependency::EnvFile { env_file, key, prompt } => {
                if self.env_files().contains_key(env_file@) {
                    pairs_value(self.env_files()[env_file@]@, key@) is None && (match prompt {
                        Some(label) => (!self.prompt_cache().contains_key(label@)
                            && self.prompt_refused_set().contains_key(label@)) || (
                        self.prompt_cache().contains_key(label@)
                            && self.save_errors().contains_key(env_file@)),
                        None => true,
                    })
                } else {
                    self.env_file_errors_map().contains_key(env_file@)
                }
            },
            Dependency::OnePassword { vault, item, field } => {
                let rf = reference_of(vault@, item@, field@);
                self.secrets().contains_key(rf) && (match self.secrets()[rf] {
                    SecretFetchOutcome::Output { success, stdout, .. } => !(success && stdout
                        is Some),
                    SecretFetchOutcome::CliNotFound => true,
                })
            },
            Dependency::File { path } => !self.files().contains_key(path@)
                && self.file_errors_map().contains_key(path@),
            Dependency::Prompt { label } => !self.prompt_cache().contains_key(label@)
                && self.prompt_refused_set().contains_key(label@),
            Dependency::Response { request, target } => {
                if self.history().contains_key(request@) {
                    crate::resolvers::response_resolver::extraction_view(
                        self.history(),
                        request@,
                        target,
                    ) is None
                } else {
                    !self.has_request(request@)
                }
            },
        }
    }

    /// The one outside fetch a dependency is waiting for right now, with
    /// exactly what the host is to be handed — in particular, a side-file
    /// write-back carries the loaded entries plus the prompted key and
    /// value, and nothing else.
    pub open spec fn dep_wants(&self, dep: Dependency, s: EngineStep) -> bool {
        match dep {
            Dependency::EnvVar { name, prompt } => {
                if self.env_cache().contains_key(name@) {
                    false
                } else if !self.env_missing_set().contains_key(name@) {
                    s matches EngineStep::NeedEnvVar { name: n } && n@ == name@
                } else {
                    match prompt {
                        Some(label) => !self.env_prompt_refused_set().contains_key(name@) && (
                        s matches EngineStep::NeedEnvVarPrompt { name: n, label: l } && n@
                            == name@ && l@ == label@),
                        None => false,
                    }
                }
            },
            Dependency::EnvFile { env_file, key, prompt } => {
                if !self.env_files().contains_key(env_file@) {
                    !self.env_file_errors_map().contains_key(env_file@) && (s matches
                    EngineStep::NeedEnvFile { path } && path@ == env_file@)
                } else if pairs_value(self.env_files()[env_file@]@, key@) is None {
                    match prompt {
                        Some(label) => {
                            if !self.prompt_cache().contains_key(label@) {
                                !self.prompt_refused_set().contains_key(label@) && (s matches
                                EngineStep::NeedPrompt { label: l } && l@ == label@)
                            } else {
                                !self.save_errors().contains_key(env_file@) && (s matches
                                EngineStep::NeedEnvFileSave { path, entries } && path@
                                    == env_file@ && entries@ == self.env_files().index(
                                    env_file@,
                                )@.push((key, self.prompt_cache()[label@])))
                            }
                        },
                        None => false,
                    }
                } else {
                    false
                }
            },
            Dependency::OnePassword { vault, item, field } => !self.secrets().contains_key(
                reference_of(vault@, item@, field@),
            ) && (s matches EngineStep::NeedSecret { vault: v, item: it, field: f } && v@
                == vault@ && it@ == item@ && f@ == field@),
            Dependency::File { path } => !self.files().contains_key(path@)
                && !self.file_errors_map().contains_key(path@) && (s matches
            EngineStep::NeedFile { path: p } && p@ == path@),
            Dependency::Prompt { label } => !self.prompt_cache().contains_key(label@)
                && !self.prompt_refused_set().contains_key(label@) && (s matches
            EngineStep::NeedPrompt { label: l } && l@ == label@),
            Dependency::Response { .. } => false,
        }
    }

    /// Resolve one dependency from the run's state: its value, the effect
    /// the host must perform first, the prerequisite request that must run
    /// first, or the failure.
    fn resolve_dependency(&self, dep: &Dependency) -> (r: DepOutcome)
        ensures
            match r {
                DepOutcome::Val(v) => self.spec_dep_value(*dep) == Some(v@),
                _ => self.spec_dep_value(*dep) == None::<Seq<char>>,
            },
            r matches DepOutcome::Need(s) ==> self.effect_unknown(s),
            r matches DepOutcome::Blocked { request } ==> (dep matches Dependency::Response {
                request: rq,
                ..
            } && rq@ == request@) && !self.history().contains_key(request@) && self.has_request(
                request@,
            ),
            r matches DepOutcome::Fail(e) ==> !(e matches
                DependencyResolutionError::PlaceholderDefinitionNotFound { .. }) && !(e matches
                DependencyResolutionError::CyclicDependency { .. }) && self.dep_failing(*dep),
            r matches DepOutcome::Fail(e) ==> (dep matches Dependency::Response {
                request: rq,
                ..
            } ==> (!self.has_request(rq@) && !self.history().contains_key(rq@) ==> (e matches
            DependencyResolutionError::RequestNotFound { request: rn } && rn@ == rq@))),
            r matches DepOutcome::Fail(e) ==> (dep matches Dependency::EnvVar { name, .. } ==> (
            e matches DependencyResolutionError::EnvVarDependencyFailed(inner) && inner matches
                EnvVarResolverError::EnvVarNotFound { name: n } && n@ == name@)),
            r matches DepOutcome::Need(s) ==> self.dep_wants(*dep, s),
    {
        match dep {
            Dependency::EnvVar { name, prompt } => {
                match self.env_var_resolver.cached(name.as_str()) {
                    Some(v) => DepOutcome::Val(v.clone()),
                    None => {
                        if !self.env_missing.contains_key(name.as_str()) {
                            DepOutcome::Need(EngineStep::NeedEnvVar { name: name.clone() })
                        } else {
                            match prompt {
                                Some(label) => {
                                    if !self.env_prompt_refused.contains_key(name.as_str()) {
                                        DepOutcome::Need(
                                            EngineStep::NeedEnvVarPrompt {
                                                name: name.clone(),
                                                label: label.clone(),
                                            },
                                        )
                                    } else {
                                        DepOutcome::Fail(
                                            DependencyResolutionError::EnvVarDependencyFailed(
                                                EnvVarResolverError::EnvVarNotFound {
                                                    name: name.clone(),
                                                },
                                            ),
                                        )
                                    }
                                },
                                None => DepOutcome::Fail(
                                    DependencyResolutionError::EnvVarDependencyFailed(
                                        EnvVarResolverError::EnvVarNotFound {
                                            name: name.clone(),
                                        },
                                    ),
                                ),
                            }
                        }
                    },
                }
            },
            Dependency::EnvFile { env_file, key, prompt } => {
                match self.env_file_cache.get(env_file.as_str()) {
                    Some(entries) => {
                        match pairs_get(entries, key.as_str()) {
                            Some(v) => DepOutcome::Val(v.clone()),
                            None => {
                                match prompt {
                                    Some(label) => {
                                        match self.prompt_resolver.cached(label.as_str()) {
                                            Some(v) => {
                                                match self.env_file_save_errors.get(
                                                    env_file.as_str(),
                                                ) {
                                                    Some(msg) => DepOutcome::Fail(
                                                        DependencyResolutionError::NotImplemented(
                                                            msg.clone(),
                                                        ),
                                                    ),
                                                    None => {
                                                        let mut updated = clone_pairs(entries);
                                                        updated.push(
                                                            (key.clone(), v.clone()),
                                                        );
                                                        DepOutcome::Need(
                                                            EngineStep::NeedEnvFileSave {
                                                                path: env_file.clone(),
                                                                entries: updated,
                                                            },
                                                        )
                                                    },
                                                }
                                            },
                                            None => {
                                                if !self.prompt_refused.contains_key(
                                                    label.as_str(),
                                                ) {
                                                    DepOutcome::Need(
                                                        EngineStep::NeedPrompt {
                                                            label: label.clone(),
                                                        },
                                                    )
                                                } else {
                                                    DepOutcome::Fail(
                                                        DependencyResolutionError::PromptDependencyFailed(
                                                            PromptResolverError::PromptFailed {
                                                                key: label.clone(),
                                                            },
                                                        ),
                                                    )
                                                }
                                            },
                                        }
                                    },
                                    None => DepOutcome::Fail(
                                        DependencyResolutionError::NotImplemented(
                                            env_file_miss_message(
                                                key.as_str(),
                                                env_file.as_str(),
                                            ),
                                        ),
                                    ),
                                }
                            },
                        }
                    },
                    None => {
                        match self.env_file_errors.get(env_file.as_str()) {
                            Some(msg) => DepOutcome::Fail(
                                DependencyResolutionError::NotImplemented(msg.clone()),
                            ),
                            None => DepOutcome::Need(
                                EngineStep::NeedEnvFile { path: env_file.clone() },
                            ),
                        }
                    },
                }
            },
            Dependency::OnePassword { vault, item, field } => {
                let reference = make_reference(vault.as_str(), item.as_str(), field.as_str());
                match self.secret_outcomes.get(reference.as_str()) {
                    Some(outcome) => {
                        match OnePasswordResolver::classify(
                            vault.clone(),
                            item.clone(),
                            field.clone(),
                            outcome.clone(),
                        ) {
                            Ok(v) => DepOutcome::Val(v),
                            Err(e) => DepOutcome::Fail(
                                DependencyResolutionError::OnePasswordDependencyFailed(e),
                            ),
                        }
                    },
                    None => DepOutcome::Need(
                        EngineStep::NeedSecret {
                            vault: vault.clone(),
                            item: item.clone(),
                            field: field.clone(),
                        },
                    ),
                }
            },
            Dependency::File { path } => {
                match self.file_contents.get(path.as_str()) {
                    Some(content) => DepOutcome::Val(crate::text::trim(content.as_str())),
                    None => {
                        match self.file_errors.get(path.as_str()) {
                            Some(msg) => DepOutcome::Fail(
                                DependencyResolutionError::NotImplemented(msg.clone()),
                            ),
                            None => DepOutcome::Need(
                                EngineStep::NeedFile { path: path.clone() },
                            ),
                        }
                    },
                }
            },
            Dependency::Prompt { label } => {
                match self.prompt_resolver.cached(label.as_str()) {
                    Some(v) => DepOutcome::Val(v.clone()),
                    None => {
                        if !self.prompt_refused.contains_key(label.as_str()) {
                            DepOutcome::Need(EngineStep::NeedPrompt { label: label.clone() })
                        } else {
                            DepOutcome::Fail(
                                DependencyResolutionError::PromptDependencyFailed(
                                    PromptResolverError::PromptFailed { key: label.clone() },
                                ),
                            )
                        }
                    },
                }
            },
            Dependency::Response { request, target } => {
                match self.response_resolver.lookup(request, target) {
                    Ok(v) => DepOutcome::Val(v),
                    Err(ResponseResolverError::RequestNotFound { .. }) => {
                        match position_of(&self.requests, request.as_str()) {
                            Some(_) => DepOutcome::Blocked { request: request.clone() },
                            None => DepOutcome::Fail(
                                DependencyResolutionError::RequestNotFound {
                                    request: request.clone(),
                                },
                            ),
                        }
                    },
                    Err(e) => DepOutcome::Fail(
                        DependencyResolutionError::NotImplemented(e.message()),
                    ),
                }
            },
        }
    }
}

fn clone_header_entries(v: &Vec<(String, Option<String>)>) -> (r: Vec<(String, Option<String>)>)
    ensures
        r@ == v@,
{
    let mut out: Vec<(String, Option<String>)> = Vec::new();
    let n = v.len();
    let mut i: usize = 0;
    while i < n
        invariant
            0 <= i <= n,
            n == v@.len(),
            out@.len() == i,
            forall|k: int| 0 <= k < i ==> out@[k] == v@[k],
        decreases n - i,
    {
        let value = match &v[i].1 {
            Option::Some(x) => Option::Some(x.clone()),
            Option::None => Option::None,
        };
        out.push((v[i].0.clone(), value));
        i = i + 1;
    }
    proof {
        assert(out@ =~= v@);
    }
    out
}

fn clone_pairs(v: &Vec<(String, String)>) -> (r: Vec<(String, String)>)
    ensures
        r@ == v@,
{
    let mut out: Vec<(String, String)> = Vec::new();
    let n = v.len();
    let mut i: usize = 0;
    while i < n
        invariant
            0 <= i <= n,
            n == v@.len(),
            out@.len() == i,
            forall|k: int| 0 <= k < i ==> out@[k] == v@[k],
        decreases n - i,
    {
        out.push((v[i].0.clone(), v[i].1.clone()));
        i = i + 1;
    }
    proof {
        assert(out@ =~= v@);
    }
    out
}

/// The words of the side-file miss: they name the key and the file.
pub open spec fn env_file_miss_view(key: Seq<char>, env_file: Seq<char>) -> Seq<char> {
    "Could resolve "@ + key + " key from env file "@ + env_file
}

fn env_file_miss_message(key: &str, env_file: &str) -> (r: String)
    ensures
        r@ == env_file_miss_view(key@, env_file@),
{
    let mut m: String = "Could resolve ".to_owned();
    m.append(key);
    m.append(" key from env file ");
    m.append(env_file);
    m
}

/// The declared dependencies as a sequence, an absent map reading as
/// empty.
pub open spec fn deps_view_of(d: Option<Dependencies>) -> Seq<(String, Dependency)> {
    match d {
        Some(v) => v@,
        None => Seq::empty(),
    }
}

spec fn dsv(deps: Option<&Dependencies>) -> Seq<(String, Dependency)> {
    match deps {
        Some(ds) => ds@,
        None => Seq::empty(),
    }
}

/// What one template field resolution concluded.
enum FieldOutcome {
    /// Every placeholder resolved; the substituted text.
    Text(String),
    /// The host must fetch something first.
    Need(EngineStep),
    /// A prerequisite request must be executed first.
    Blocked { request: String },
    /// A placeholder cannot resolve.
    Fail(DependencyResolutionError),
}

impl Executor {
    /// `b` is exactly the binding this state gives the template's
    /// placeholders: one entry per distinct name, each declared and each
    /// resolved to its source's value.
    pub open spec fn resolves_template(
        &self,
        t: Seq<char>,
        ds: Seq<(String, Dependency)>,
        b: Map<Seq<char>, Seq<char>>,
    ) -> bool {
        &&& forall|k: Seq<char>| #[trigger] distinct_names(t).contains(k) ==> b.contains_key(k)
        &&& forall|k: Seq<char>| #[trigger] b.contains_key(k) ==> distinct_names(t).contains(k)
            && (find_dep_spec(ds, k) matches Some(d) && self.spec_dep_value(d) == Some(b[k]))
    }

    /// `p` is the first placeholder of the template with no declaration,
    /// and every name scanned before it resolves from the state right now
    /// — the one situation where resolution must fail naming `p`.
    pub open spec fn names_force_pdnf(
        &self,
        t: Seq<char>,
        ds: Seq<(String, Dependency)>,
        p: Seq<char>,
    ) -> bool {
        exists|fi: int|
            0 <= fi < distinct_names(t).len() && #[trigger] distinct_names(t)[fi] == p
                && find_dep_spec(ds, p) is None && (forall|j: int|
                0 <= j < fi ==> (find_dep_spec(ds, #[trigger] distinct_names(t)[j]) matches Some(
                    d,
                ) && self.spec_dep_value(d) is Some))
    }

    /// Resolution stopped at a declared name whose source gives no value
    /// right now: no placeholder forces a naming failure.
    proof fn lemma_no_forcing_here(
        &self,
        t: Seq<char>,
        ds: Seq<(String, Dependency)>,
        names: Seq<String>,
        b: Map<Seq<char>, String>,
        i: int,
        d: Dependency,
    )
        requires
            views_of(names) == distinct_names(t),
            0 <= i < names.len(),
            forall|k: Seq<char>| #[trigger]
                str_map_views(b).contains_key(k) <==> exists|j: int|
                    0 <= j < i && #[trigger] names[j]@ == k,
            forall|k: Seq<char>| #[trigger]
                str_map_views(b).contains_key(k) ==> (find_dep_spec(ds, k) matches Some(d2)
                    && self.spec_dep_value(d2) is Some),
            find_dep_spec(ds, names[i]@) == Some(d),
            self.spec_dep_value(d) is None,
        ensures
            !(exists|p: Seq<char>| self.names_force_pdnf(t, ds, p)),
    {
        if exists|p: Seq<char>| self.names_force_pdnf(t, ds, p) {
            let p = choose|p: Seq<char>| self.names_force_pdnf(t, ds, p);
            let fi = choose|fi: int|
                0 <= fi < distinct_names(t).len() && #[trigger] distinct_names(t)[fi] == p
                    && find_dep_spec(ds, p) is None && (forall|j: int|
                    0 <= j < fi ==> (find_dep_spec(ds, #[trigger] distinct_names(t)[j]) matches
                        Some(d2) && self.spec_dep_value(d2) is Some));
            assert(views_of(names)[fi] == names[fi]@);
            if fi < i {
                assert(str_map_views(b).contains_key(names[fi]@));
            } else {
                assert(views_of(names)[i] == names[i]@);
                assert(distinct_names(t)[i] == names[i]@);
            }
            assert(false);
        }
    }

    /// Every placeholder resolved: no placeholder forces a naming failure.
    proof fn lemma_no_forcing_done(
        &self,
        t: Seq<char>,
        ds: Seq<(String, Dependency)>,
        names: Seq<String>,
        b: Map<Seq<char>, String>,
    )
        requires
            views_of(names) == distinct_names(t),
            forall|k: Seq<char>| #[trigger]
                str_map_views(b).contains_key(k) <==> exists|j: int|
                    0 <= j < names.len() && #[trigger] names[j]@ == k,
            forall|k: Seq<char>| #[trigger]
                str_map_views(b).contains_key(k) ==> (find_dep_spec(ds, k) matches Some(d2)
                    && self.spec_dep_value(d2) is Some),
        ensures
            !(exists|p: Seq<char>| self.names_force_pdnf(t, ds, p)),
    {
        if exists|p: Seq<char>| self.names_force_pdnf(t, ds, p) {
            let p = choose|p: Seq<char>| self.names_force_pdnf(t, ds, p);
            let fi = choose|fi: int|
                0 <= fi < distinct_names(t).len() && #[trigger] distinct_names(t)[fi] == p
                    && find_dep_spec(ds, p) is None && (forall|j: int|
                    0 <= j < fi ==> (find_dep_spec(ds, #[trigger] distinct_names(t)[j]) matches
                        Some(d2) && self.spec_dep_value(d2) is Some));
            assert(views_of(names)[fi] == names[fi]@);
            assert(str_map_views(b).contains_key(names[fi]@));
            assert(false);
        }
    }

    /// Resolve every placeholder of one template field and substitute.
    fn resolve_field(&self, template: &str, deps: Option<&Dependencies>) -> (r: FieldOutcome)
        ensures
            match r {
                FieldOutcome::Text(out) => exists|b: Map<Seq<char>, Seq<char>>|
                    self.resolves_template(template@, dsv(deps), b) && out@ == subst_spec(
                        template@,
                        b,
                    ),
                FieldOutcome::Need(s) => self.effect_unknown(s),
                FieldOutcome::Blocked { request } => !self.history().contains_key(request@)
                    && self.has_request(request@),
                FieldOutcome::Fail(e) => !(e matches
                    DependencyResolutionError::CyclicDependency { .. }) && match e {
                    DependencyResolutionError::PlaceholderDefinitionNotFound { placeholder } => {
                        distinct_names(template@).contains(placeholder@) && find_dep_spec(
                            dsv(deps),
                            placeholder@,
                        ) == None::<Dependency>
                    },
                    _ => true,
                },
            },
            (forall|k: Seq<char>| #[trigger]
                distinct_names(template@).contains(k) ==> find_dep_spec(dsv(deps), k)
                    != None::<Dependency>) ==> !(r matches FieldOutcome::Fail(
                DependencyResolutionError::PlaceholderDefinitionNotFound { .. },
            )),
            distinct_names(template@).len() == 0 ==> (r matches FieldOutcome::Text(out) && out@
                == template@),
            r matches FieldOutcome::Need(s) ==> exists|k: Seq<char>|
                #[trigger] distinct_names(template@).contains(k) && (find_dep_spec(
                    dsv(deps),
                    k,
                ) matches Some(d) && self.dep_wants(d, s)),
            (r matches FieldOutcome::Fail(e) && !(e matches
            DependencyResolutionError::PlaceholderDefinitionNotFound { .. })) ==> exists|
                k: Seq<char>,
            |
                #[trigger] distinct_names(template@).contains(k) && (find_dep_spec(
                    dsv(deps),
                    k,
                ) matches Some(d) && self.dep_failing(d)),
            r matches FieldOutcome::Blocked { request } ==> exists|k: Seq<char>|
                #[trigger] distinct_names(template@).contains(k) && (find_dep_spec(
                    dsv(deps),
                    k,
                ) matches Some(d) && d matches Dependency::Response { request: rn, .. } && rn@
                    == request@),
            (exists|p: Seq<char>| self.names_force_pdnf(template@, dsv(deps), p)) ==> (r matches
            FieldOutcome::Fail(DependencyResolutionError::PlaceholderDefinitionNotFound {
                placeholder,
            }) && self.names_force_pdnf(template@, dsv(deps), placeholder@)),
    {
        let names = scan_template(template);
        let mut bindings: Table<String> = Table::new();
        let n = names.len();
        let mut i: usize = 0;
        while i < n
            invariant
                0 <= i <= n,
                n == names@.len(),
                views_of(names@) == distinct_names(template@),
                forall|k: Seq<char>| #[trigger]
                    str_map_views(bindings@).contains_key(k) <==> exists|j: int|
                        0 <= j < i && #[trigger] names@[j]@ == k,
                forall|k: Seq<char>| #[trigger]
                    str_map_views(bindings@).contains_key(k) ==> (find_dep_spec(
                        dsv(deps),
                        k,
                    ) matches Some(d) && self.spec_dep_value(d) == Some(
                        str_map_views(bindings@)[k],
                    )),
            decreases n - i,
        {
            let name = &names[i];
            proof {
                assert(views_of(names@)[i as int] == names@[i as int]@);
            }
            let dep_opt = match deps {
                Some(ds) => find_dependency(ds, name.as_str()),
                None => None,
            };
            match dep_opt {
                None => {
                    proof {
                        assert(distinct_names(template@).contains(name@));
                        assert(distinct_names(template@)[i as int] == names@[i as int]@);
                        assert forall|j: int| 0 <= j < i implies (find_dep_spec(
                            dsv(deps),
                            #[trigger] distinct_names(template@)[j],
                        ) matches Some(d2) && self.spec_dep_value(d2) is Some) by {
                            assert(distinct_names(template@)[j] == names@[j]@);
                            assert(str_map_views(bindings@).contains_key(names@[j]@));
                        };
                        assert(self.names_force_pdnf(template@, dsv(deps), name@));
                    }
                    return FieldOutcome::Fail(
                        DependencyResolutionError::PlaceholderDefinitionNotFound {
                            placeholder: name.clone(),
                        },
                    );
                },
                Some(dep) => {
                    match self.resolve_dependency(dep) {
                        DepOutcome::Val(v) => {
                            let ghost old_b = str_map_views(bindings@);
                            let ghost vv = v@;
                            bindings.insert(name.clone(), v);
                            proof {
                                assert(str_map_views(bindings@) =~= old_b.insert(name@, vv));
                            }
                        },
                        DepOutcome::Need(s) => {
                            proof {
                                assert(distinct_names(template@).contains(name@) && (
                                find_dep_spec(dsv(deps), name@) matches Some(d)
                                    && self.dep_wants(d, s)));
                                self.lemma_no_forcing_here(
                                    template@,
                                    dsv(deps),
                                    names@,
                                    bindings@,
                                    i as int,
                                    *dep,
                                );
                            }
                            return FieldOutcome::Need(s);
                        },
                        DepOutcome::Blocked { request } => {
                            proof {
                                assert(distinct_names(template@).contains(name@) && (
                                find_dep_spec(dsv(deps), name@) matches Some(d) && d matches
                                    Dependency::Response { request: rn, .. } && rn@
                                    == request@));
                                self.lemma_no_forcing_here(
                                    template@,
                                    dsv(deps),
                                    names@,
                                    bindings@,
                                    i as int,
                                    *dep,
                                );
                            }
                            return FieldOutcome::Blocked { request };
                        },
                        DepOutcome::Fail(e) => {
                            proof {
                                assert(distinct_names(template@).contains(name@) && (
                                find_dep_spec(dsv(deps), name@) matches Some(d)
                                    && self.dep_failing(d)));
                                self.lemma_no_forcing_here(
                                    template@,
                                    dsv(deps),
                                    names@,
                                    bindings@,
                                    i as int,
                                    *dep,
                                );
                            }
                            return FieldOutcome::Fail(e);
                        },
                    }
                },
            }
            i = i + 1;
        }
        let out = substitute(template, &bindings);
        proof {
            let b = str_map_views(bindings@);
            assert forall|k: Seq<char>| #[trigger]
                distinct_names(template@).contains(k) implies b.contains_key(k) by {
                let j = choose|j: int|
                    0 <= j < views_of(names@).len() && views_of(names@)[j] == k;
                assert(names@[j]@ == k);
            };
            assert forall|k: Seq<char>| #[trigger] b.contains_key(k) implies distinct_names(
                template@,
            ).contains(k) by {
                let j = choose|j: int| 0 <= j < n && #[trigger] names@[j]@ == k;
                assert(views_of(names@)[j] == k);
            };
            if distinct_names(template@).len() == 0 {
                assert(distinct_names(template@) =~= Seq::<Seq<char>>::empty());
                crate::template::lemma_no_placeholders_identity(template@, b);
            }
            self.lemma_no_forcing_done(template@, dsv(deps), names@, bindings@);
        }
        FieldOutcome::Text(out)
    }
}

/// The request declares a response dependency on the named one.
pub open spec fn response_dep_of(req: Request, next: Seq<char>) -> bool {
    exists|di: int|
        0 <= di < deps_view_of(req.dependencies).len() && ((#[trigger] deps_view_of(
            req.dependencies,
        )[di]).1 matches Dependency::Response { request: rn, .. } && rn@ == next)
}

/// The template of some field of the request names this placeholder.
pub open spec fn req_mentions(req: Request, k: Seq<char>) -> bool {
    ||| distinct_names(req.url@).contains(k)
    ||| match req.headers {
        Option::Some(hs) => exists|i: int|
            0 <= i < hs@.len() && (distinct_names((#[trigger] hs@[i]).0@).contains(k)
                || distinct_names(hs@[i].1@).contains(k)),
        Option::None => false,
    }
    ||| match req.body {
        Option::Some(RequestBody::Text(t)) => distinct_names(t@).contains(k),
        Option::Some(RequestBody::Json(j)) => distinct_names(ser(j)).contains(k),
        Option::Some(RequestBody::Form(fs)) => exists|i: int|
            0 <= i < fs@.len() && distinct_names((#[trigger] fs@[i]).1@).contains(k),
        Option::None => false,
    }
}

/// The first request of this name among the declared ones.
pub open spec fn spec_request_of_in(rs: Seq<Request>, name: Seq<char>) -> Option<Request>
    decreases rs.len(),
{
    if rs.len() == 0 {
        None
    } else if rs.first().name@ == name {
        Some(rs.first())
    } else {
        spec_request_of_in(rs.drop_first(), name)
    }
}

proof fn lemma_spec_request_of_some(rs: Seq<Request>, name: Seq<char>)
    requires
        spec_request_of_in(rs, name) matches Some(_),
    ensures
        exists|i: int| 0 <= i < rs.len() && (#[trigger] rs[i]).name@ == name,
    decreases rs.len(),
{
    if rs.len() > 0 {
        if rs.first().name@ == name {
            assert(rs[0].name@ == name);
        } else {
            lemma_spec_request_of_some(rs.drop_first(), name);
            let i = choose|i: int|
                0 <= i < rs.drop_first().len() && (#[trigger] rs.drop_first()[i]).name@ == name;
            assert(rs[i + 1].name@ == name);
        }
    }
}

proof fn lemma_spec_request_of(rs: Seq<Request>, i: int)
    requires
        0 <= i < rs.len(),
        forall|a: int, b: int| 0 <= a < b < rs.len() ==> rs[a].name@ != rs[b].name@,
    ensures
        spec_request_of_in(rs, rs[i].name@) == Some(rs[i]),
    decreases rs.len(),
{
    if i > 0 {
        lemma_spec_request_of(rs.drop_first(), i - 1);
        assert(rs.drop_first()[i - 1] == rs[i]);
    }
}

impl Executor {
    /// The declared request of this name, if any.
    pub open spec fn spec_request_of(&self, name: Seq<char>) -> Option<Request> {
        spec_request_of_in(self.req_table(), name)
    }

    /// Something about this request is beyond help from the host: a
    /// placeholder with no declaration, a declared source that has failed
    /// for good, or a structured body whose substituted text no longer
    /// parses.
    pub open spec fn request_blocked(&self, req: Request) -> bool {
        let ds = deps_view_of(req.dependencies);
        ||| exists|k: Seq<char>| #[trigger] req_mentions(req, k) && find_dep_spec(ds, k) is None
        ||| exists|i: int| 0 <= i < ds.len() && self.dep_failing((#[trigger] ds[i]).1)
        ||| match req.body {
            Option::Some(RequestBody::Json(j)) => exists|b: Map<Seq<char>, Seq<char>>|
                self.resolves_template(ser(j), ds, b) && parse_spec(subst_spec(ser(j), b))
                    is None,
            _ => false,
        }
    }

    /// Some declared request has a response dependency naming this one:
    /// what makes it a prerequisite of the run.
    pub open spec fn some_response_dep_on(&self, name: Seq<char>) -> bool {
        exists|i: int, di: int|
            0 <= i < self.req_table().len() && 0 <= di < deps_view_of(
                self.req_table()[i].dependencies,
            ).len() && ((#[trigger] deps_view_of(self.req_table()[i].dependencies)[di]).1
                matches Dependency::Response { request: rn, .. } && rn@ == name)
    }

    /// The request matters to the run right now: it is the current target,
    /// or some declared request demands it as a prerequisite.
    pub open spec fn run_relevant(&self, name: Seq<char>) -> bool {
        ||| (self.cursor_at() < self.targets_view().len() && name == self.targets_view().index(
            self.cursor_at(),
        )@)
        ||| self.some_response_dep_on(name)
    }

    /// Some declared dependency of a request that matters to the run is
    /// waiting for exactly this fetch: nothing unneeded is ever asked.
    pub open spec fn some_dep_wants(&self, s: EngineStep) -> bool {
        exists|i: int, di: int|
            0 <= i < self.req_table().len() && self.run_relevant(self.req_table()[i].name@) && 0
                <= di < deps_view_of(self.req_table()[i].dependencies).len() && self.dep_wants(
                (#[trigger] deps_view_of(self.req_table()[i].dependencies)[di]).1,
                s,
            )
    }

    /// A chain of declared requests the current target demands: it starts
    /// at the target, each later link is named by a response dependency of
    /// the one before, and none of the later links has a response in the
    /// history yet.
    pub open spec fn demand_path(&self, p: Seq<Seq<char>>) -> bool {
        &&& p.len() >= 1
        &&& self.cursor_at() < self.targets_view().len()
        &&& p[0] == self.targets_view().index(self.cursor_at())@
        &&& forall|a: int| 0 <= a < p.len() ==> self.has_request(#[trigger] p[a])
        &&& forall|a: int|
            0 <= a < p.len() - 1 ==> (self.spec_request_of(#[trigger] p[a]) matches Some(req)
                && response_dep_of(req, p[a + 1]))
        &&& forall|a: int| 1 <= a < p.len() ==> !self.history().contains_key(#[trigger] p[a])
    }

    /// A fetch demanded through some template of the declaration list is
    /// demanded by one of its entries.
    proof fn lemma_need_entry(&self, t: Seq<char>, ds: Seq<(String, Dependency)>, s: EngineStep)
        requires
            exists|k: Seq<char>|
                #[trigger] distinct_names(t).contains(k) && (find_dep_spec(ds, k) matches Some(
                    d,
                ) && self.dep_wants(d, s)),
        ensures
            exists|di: int| 0 <= di < ds.len() && self.dep_wants((#[trigger] ds[di]).1, s),
    {
        let k = choose|k: Seq<char>|
            #[trigger] distinct_names(t).contains(k) && (find_dep_spec(ds, k) matches Some(d)
                && self.dep_wants(d, s));
        crate::request::lemma_find_dep_entry(ds, k);
    }

    /// A failure found through some template of the declaration list lies
    /// in one of its entries.
    proof fn lemma_fail_entry(&self, t: Seq<char>, ds: Seq<(String, Dependency)>)
        requires
            exists|k: Seq<char>|
                #[trigger] distinct_names(t).contains(k) && (find_dep_spec(ds, k) matches Some(
                    d,
                ) && self.dep_failing(d)),
        ensures
            exists|di: int| 0 <= di < ds.len() && self.dep_failing((#[trigger] ds[di]).1),
    {
        let k = choose|k: Seq<char>|
            #[trigger] distinct_names(t).contains(k) && (find_dep_spec(ds, k) matches Some(d)
                && self.dep_failing(d));
        crate::request::lemma_find_dep_entry(ds, k);
    }

    /// A failure reported through one of the request's templates blocks
    /// the request.
    proof fn lemma_fail_blocked(&self, req: Request, t: Seq<char>, e: DependencyResolutionError)
        requires
            e matches DependencyResolutionError::PlaceholderDefinitionNotFound { placeholder }
                ==> distinct_names(t).contains(placeholder@) && find_dep_spec(
                deps_view_of(req.dependencies),
                placeholder@,
            ) is None,
            !(e matches DependencyResolutionError::PlaceholderDefinitionNotFound { .. })
                ==> exists|k: Seq<char>|
                #[trigger] distinct_names(t).contains(k) && (find_dep_spec(
                    deps_view_of(req.dependencies),
                    k,
                ) matches Some(d) && self.dep_failing(d)),
            forall|k: Seq<char>| #[trigger] distinct_names(t).contains(k) ==> req_mentions(
                req,
                k,
            ),
        ensures
            self.request_blocked(req),
    {
        match e {
            DependencyResolutionError::PlaceholderDefinitionNotFound { placeholder } => {
                assert(req_mentions(req, placeholder@) && find_dep_spec(
                    deps_view_of(req.dependencies),
                    placeholder@,
                ) is None);
            },
            _ => {
                self.lemma_fail_entry(t, deps_view_of(req.dependencies));
            },
        }
    }

    /// A prerequisite demanded through some template of the declaration
    /// list is named by a response dependency among its entries.
    proof fn lemma_blocked_entry(
        &self,
        t: Seq<char>,
        ds: Seq<(String, Dependency)>,
        rq: Seq<char>,
    )
        requires
            exists|k: Seq<char>|
                #[trigger] distinct_names(t).contains(k) && (find_dep_spec(ds, k) matches Some(
                    d,
                ) && d matches Dependency::Response { request: rn, .. } && rn@ == rq),
        ensures
            exists|di: int|
                0 <= di < ds.len() && ((#[trigger] ds[di]).1 matches Dependency::Response {
                    request: rn,
                    ..
                } && rn@ == rq),
    {
        let k = choose|k: Seq<char>|
            #[trigger] distinct_names(t).contains(k) && (find_dep_spec(ds, k) matches Some(d)
                && d matches Dependency::Response { request: rn, .. } && rn@ == rq);
        crate::request::lemma_find_dep_entry(ds, k);
    }
}

/// What one attempt at a whole request concluded.
pub enum AttemptOutcome {
    /// Everything resolved: ready to perform.
    Ready(ResolvedRequest),
    /// The host must fetch something first.
    Need(EngineStep),
    /// A prerequisite request must be executed first; `from_url` says
    /// whether the demanding placeholder stood in the URL.
    Blocked { request: String, from_url: bool },
    /// The request cannot resolve.
    Failed(ExecutionError),
}

impl Executor {
    /// `rr` is what `req` resolves to under this state: name and method
    /// carried over, URL, header and body templates substituted with the
    /// values their declared dependencies have, and a structured body
    /// re-parsed from its substituted text.
    pub open spec fn resolves_request(&self, req: Request, rr: ResolvedRequest) -> bool {
        let ds = deps_view_of(req.dependencies);
        &&& rr.name@ == req.name@
        &&& rr.method@ == req.method@
        &&& exists|b: Map<Seq<char>, Seq<char>>|
            self.resolves_template(req.url@, ds, b) && rr.url@ == subst_spec(req.url@, b)
        &&& exists|bks: Seq<Map<Seq<char>, Seq<char>>>, bvs: Seq<Map<Seq<char>, Seq<char>>>|
            self.headers_resolved(req, ds, rr.headers@, bks, bvs)
        &&& match (req.body, rr.body) {
            (Option::None, Option::None) => true,
            (Option::Some(RequestBody::Text(t)), Option::Some(ResolvedBody::Text(v))) => exists|
                b: Map<Seq<char>, Seq<char>>,
            |
                self.resolves_template(t@, ds, b) && v@ == subst_spec(t@, b),
            (Option::Some(RequestBody::Json(j)), Option::Some(ResolvedBody::Json(v))) => exists|
                b: Map<Seq<char>, Seq<char>>,
            |
                self.resolves_template(ser(j), ds, b) && parse_spec(subst_spec(ser(j), b))
                    == Some(v.model()),
            (Option::Some(RequestBody::Form(fs)), Option::Some(ResolvedBody::Form(out))) => exists|
                fbs: Seq<Map<Seq<char>, Seq<char>>>,
            |
                self.form_resolved(fs@, ds, out@, fbs),
            _ => false,
        }
    }

    /// The headers are fully resolved: one pair per declared pair, each
    /// side substituted under the recorded binding of its template.
    pub open spec fn headers_resolved(
        &self,
        req: Request,
        ds: Seq<(String, Dependency)>,
        hdrs: Seq<(String, String)>,
        bks: Seq<Map<Seq<char>, Seq<char>>>,
        bvs: Seq<Map<Seq<char>, Seq<char>>>,
    ) -> bool {
        match req.headers {
            Option::None => hdrs.len() == 0,
            Option::Some(hs) => hdrs.len() == hs@.len() && bks.len() == hs@.len() && bvs.len()
                == hs@.len() && (forall|k: int|
                0 <= k < hs@.len() ==> self.resolves_template(hs@[k].0@, ds, #[trigger] bks[k]))
                && (forall|k: int|
                0 <= k < hs@.len() ==> (#[trigger] hdrs[k]).0@ == subst_spec(hs@[k].0@, bks[k]))
                && (forall|k: int|
                0 <= k < hs@.len() ==> self.resolves_template(hs@[k].1@, ds, #[trigger] bvs[k]))
                && (forall|k: int|
                0 <= k < hs@.len() ==> (#[trigger] hdrs[k]).1@ == subst_spec(hs@[k].1@, bvs[k])),
        }
    }

    /// The form fields are fully resolved: keys carried over, each value
    /// substituted under the recorded binding of its template.
    pub open spec fn form_resolved(
        &self,
        fs: Seq<(String, String)>,
        ds: Seq<(String, Dependency)>,
        out: Seq<(String, String)>,
        fbs: Seq<Map<Seq<char>, Seq<char>>>,
    ) -> bool {
        &&& out.len() == fs.len()
        &&& fbs.len() == fs.len()
        &&& forall|k: int|
            0 <= k < fs.len() ==> self.resolves_template(fs[k].1@, ds, #[trigger] fbs[k])
        &&& forall|k: int|
            0 <= k < fs.len() ==> (#[trigger] out[k]).0@ == fs[k].0@ && out[k].1@ == subst_spec(
                fs[k].1@,
                fbs[k],
            )
    }

    /// The request's URL has a first undeclared placeholder with every
    /// earlier name resolving now: the attempt must fail naming it.
    pub open spec fn url_pdnf_forced(&self, req: Request) -> bool {
        exists|p: Seq<char>|
            self.names_force_pdnf(req.url@, deps_view_of(req.dependencies), p)
    }

    /// Everything an attempt promises: a ready request is the state's
    /// resolution of the declared one, an effect is only asked while
    /// unknown, a prerequisite is declared and not yet in history, and a
    /// failure names a placeholder only when the URL truly lacks its
    /// declaration.
    pub open spec fn attempt_post(&self, req: Request, r: AttemptOutcome) -> bool {
        match r {
            AttemptOutcome::Ready(rr) => self.resolves_request(req, rr),
            AttemptOutcome::Need(s) => self.effect_unknown(s) && (exists|di: int|
                0 <= di < deps_view_of(req.dependencies).len() && self.dep_wants(
                    (#[trigger] deps_view_of(req.dependencies)[di]).1,
                    s,
                )),
            AttemptOutcome::Blocked { request, .. } => !self.history().contains_key(request@)
                && self.has_request(request@) && response_dep_of(req, request@),
            AttemptOutcome::Failed(e) => self.request_blocked(req) && match e {
                ExecutionError::DependencyResolutionFailed(de) => !(de matches
                    DependencyResolutionError::CyclicDependency { .. }) && match de {
                    DependencyResolutionError::PlaceholderDefinitionNotFound { placeholder } => {
                        distinct_names(req.url@).contains(placeholder@) && find_dep_spec(
                            deps_view_of(req.dependencies),
                            placeholder@,
                        ) == None::<Dependency>
                    },
                    _ => true,
                },
                ExecutionError::RequestNotFound { .. } => false,
                _ => true,
            },
        }
    }

    /// Resolve URL, header names, header values, and body, in that order:
    /// a failure on the URL is reported before any header work begins, and
    /// one on a header or the body is reported as an unclassified error.
    #[verifier::rlimit(60)]
    fn attempt_request(&self, req: &Request) -> (r: AttemptOutcome)
        ensures
            self.attempt_post(*req, r),
            self.url_pdnf_forced(*req) ==> (r matches AttemptOutcome::Failed(
                ExecutionError::DependencyResolutionFailed(
                    DependencyResolutionError::PlaceholderDefinitionNotFound { placeholder },
                ),
            ) && self.names_force_pdnf(
                req.url@,
                deps_view_of(req.dependencies),
                placeholder@,
            )),
    {
        let deps = match &req.dependencies {
            Some(ds) => Some(ds),
            None => None,
        };
        let ghost dv = deps_view_of(req.dependencies);
        proof {
            assert(dsv(deps) == dv);
        }
        let url = match self.resolve_field(req.url.as_str(), deps) {
            FieldOutcome::Text(u) => u,
            FieldOutcome::Need(st) => {
                proof {
                    self.lemma_need_entry(req.url@, dsv(deps), st);
                }
                return AttemptOutcome::Need(st);
            },
            FieldOutcome::Blocked { request } => {
                proof {
                    self.lemma_blocked_entry(req.url@, dsv(deps), request@);
                }
                return AttemptOutcome::Blocked { request, from_url: true };
            },
            FieldOutcome::Fail(e) => {
                proof {
                    self.lemma_fail_blocked(*req, req.url@, e);
                }
                return AttemptOutcome::Failed(ExecutionError::DependencyResolutionFailed(e));
            },
        };
        let ghost ub = choose|b: Map<Seq<char>, Seq<char>>|
            self.resolves_template(req.url@, dv, b) && url@ == subst_spec(req.url@, b);
        let mut headers: Vec<(String, String)> = Vec::new();
        let ghost mut bks: Seq<Map<Seq<char>, Seq<char>>> = Seq::empty();
        let ghost mut bvs: Seq<Map<Seq<char>, Seq<char>>> = Seq::empty();
        match &req.headers {
            Some(hs) => {
                let hn = hs.len();
                let mut i: usize = 0;
                while i < hn
                    invariant
                        0 <= i <= hn,
                        hn == hs@.len(),
                        req.headers == Option::Some(*hs),
                        dsv(deps) == dv,
                        dv == deps_view_of(req.dependencies),
                        !self.url_pdnf_forced(*req),
                        headers@.len() == i,
                        bks.len() == i,
                        bvs.len() == i,
                        forall|k: int|
                            0 <= k < i ==> self.resolves_template(hs@[k].0@, dv, #[trigger] bks[k]),
                        forall|k: int|
                            0 <= k < i ==> (#[trigger] headers@[k]).0@ == subst_spec(
                                hs@[k].0@,
                                bks[k],
                            ),
                        forall|k: int|
                            0 <= k < i ==> self.resolves_template(hs@[k].1@, dv, #[trigger] bvs[k]),
                        forall|k: int|
                            0 <= k < i ==> (#[trigger] headers@[k]).1@ == subst_spec(
                                hs@[k].1@,
                                bvs[k],
                            ),
                    decreases hn - i,
                {
                    let rk = match self.resolve_field(hs[i].0.as_str(), deps) {
                        FieldOutcome::Text(v) => v,
                        FieldOutcome::Need(st) => {
                            proof {
                                self.lemma_need_entry(hs@[i as int].0@, dsv(deps), st);
                            }
                            return AttemptOutcome::Need(st);
                        },
                        FieldOutcome::Blocked { request } => {
                            proof {
                                self.lemma_blocked_entry(hs@[i as int].0@, dsv(deps), request@);
                            }
                            return AttemptOutcome::Blocked { request, from_url: false };
                        },
                        FieldOutcome::Fail(e) => {
                            proof {
                                assert forall|k2: Seq<char>| #[trigger] distinct_names(
                                    hs@[i as int].0@,
                                ).contains(k2) implies req_mentions(*req, k2) by {
                                    match &req.headers {
                                        Option::Some(hs2) => {
                                            assert(*hs2 == *hs);
                                            assert(distinct_names(
                                                (hs2@[i as int]).0@,
                                            ).contains(k2));
                                        },
                                        Option::None => {},
                                    }
                                };
                                self.lemma_fail_blocked(*req, hs@[i as int].0@, e);
                            }
                            return AttemptOutcome::Failed(ExecutionError::Unknown(e.message()));
                        },
                    };
                    let rv = match self.resolve_field(hs[i].1.as_str(), deps) {
                        FieldOutcome::Text(v) => v,
                        FieldOutcome::Need(st) => {
                            proof {
                                self.lemma_need_entry(hs@[i as int].1@, dsv(deps), st);
                            }
                            return AttemptOutcome::Need(st);
                        },
                        FieldOutcome::Blocked { request } => {
                            proof {
                                self.lemma_blocked_entry(hs@[i as int].1@, dsv(deps), request@);
                            }
                            return AttemptOutcome::Blocked { request, from_url: false };
                        },
                        FieldOutcome::Fail(e) => {
                            proof {
                                assert forall|k2: Seq<char>| #[trigger] distinct_names(
                                    hs@[i as int].1@,
                                ).contains(k2) implies req_mentions(*req, k2) by {
                                    match &req.headers {
                                        Option::Some(hs2) => {
                                            assert(*hs2 == *hs);
                                            assert(distinct_names(
                                                (hs2@[i as int]).1@,
                                            ).contains(k2));
                                        },
                                        Option::None => {},
                                    }
                                };
                                self.lemma_fail_blocked(*req, hs@[i as int].1@, e);
                            }
                            return AttemptOutcome::Failed(ExecutionError::Unknown(e.message()));
                        },
                    };
                    proof {
                        let bk = choose|b: Map<Seq<char>, Seq<char>>|
                            self.resolves_template(hs@[i as int].0@, dv, b) && rk@ == subst_spec(
                                hs@[i as int].0@,
                                b,
                            );
                        let bv = choose|b: Map<Seq<char>, Seq<char>>|
                            self.resolves_template(hs@[i as int].1@, dv, b) && rv@ == subst_spec(
                                hs@[i as int].1@,
                                b,
                            );
                        bks = bks.push(bk);
                        bvs = bvs.push(bv);
                    }
                    headers.push((rk, rv));
                    i = i + 1;
                }
            },
            None => {},
        }
        proof {
            assert(self.headers_resolved(*req, dv, headers@, bks, bvs));
        }
        let ghost mut body_b: Map<Seq<char>, Seq<char>> = Map::empty();
        let ghost mut form_bs: Seq<Map<Seq<char>, Seq<char>>> = Seq::empty();
        let body = match &req.body {
            None => None,
            Some(RequestBody::Text(t)) => {
                match self.resolve_field(t.as_str(), deps) {
                    FieldOutcome::Text(v) => {
                        proof {
                            body_b = choose|b: Map<Seq<char>, Seq<char>>|
                                self.resolves_template(t@, dv, b) && v@ == subst_spec(t@, b);
                            assert(self.resolves_template(t@, dv, body_b) && v@ == subst_spec(
                                t@,
                                body_b,
                            ));
                        }
                        Some(ResolvedBody::Text(v))
                    },
                    FieldOutcome::Need(st) => {
                        proof {
                            self.lemma_need_entry(t@, dsv(deps), st);
                        }
                        return AttemptOutcome::Need(st);
                    },
                    FieldOutcome::Blocked { request } => {
                        proof {
                            self.lemma_blocked_entry(t@, dsv(deps), request@);
                        }
                        return AttemptOutcome::Blocked { request, from_url: false };
                    },
                    FieldOutcome::Fail(e) => {
                        proof {
                            self.lemma_fail_blocked(*req, t@, e);
                        }
                        return AttemptOutcome::Failed(ExecutionError::Unknown(e.message()));
                    },
                }
            },
            Some(RequestBody::Json(j)) => {
                let text = to_text(j);
                match self.resolve_field(text.as_str(), deps) {
                    FieldOutcome::Text(resolved) => {
                        match parse(resolved.as_str()) {
                            Some(v) => {
                                proof {
                                    body_b = choose|b: Map<Seq<char>, Seq<char>>|
                                        self.resolves_template(text@, dv, b) && resolved@
                                            == subst_spec(text@, b);
                                    assert(self.resolves_template(ser(*j), dv, body_b));
                                    assert(parse_spec(subst_spec(ser(*j), body_b)) == Some(
                                        v.model(),
                                    ));
                                }
                                Some(ResolvedBody::Json(v))
                            },
                            None => {
                                proof {
                                    let b = choose|b: Map<Seq<char>, Seq<char>>|
                                        self.resolves_template(text@, dv, b) && resolved@
                                            == subst_spec(text@, b);
                                    assert(self.resolves_template(
                                        ser(*j),
                                        deps_view_of(req.dependencies),
                                        b,
                                    ) && parse_spec(subst_spec(ser(*j), b)) is None);
                                    assert(self.request_blocked(*req));
                                }
                                return AttemptOutcome::Failed(
                                    ExecutionError::Unknown(deserialization_error_message()),
                                );
                            },
                        }
                    },
                    FieldOutcome::Need(st) => {
                        proof {
                            self.lemma_need_entry(text@, dsv(deps), st);
                        }
                        return AttemptOutcome::Need(st);
                    },
                    FieldOutcome::Blocked { request } => {
                        proof {
                            self.lemma_blocked_entry(text@, dsv(deps), request@);
                        }
                        return AttemptOutcome::Blocked { request, from_url: false };
                    },
                    FieldOutcome::Fail(e) => {
                        proof {
                            assert forall|k2: Seq<char>| #[trigger] distinct_names(
                                text@,
                            ).contains(k2) implies req_mentions(*req, k2) by {
                                assert(distinct_names(ser(*j)).contains(k2));
                            };
                            self.lemma_fail_blocked(*req, text@, e);
                        }
                        return AttemptOutcome::Failed(ExecutionError::Unknown(e.message()));
                    },
                }
            },
            Some(RequestBody::Form(fs)) => {
                let mut out: Vec<(String, String)> = Vec::new();
                let ghost mut fbs: Seq<Map<Seq<char>, Seq<char>>> = Seq::empty();
                let fnum = fs.len();
                let mut i: usize = 0;
                while i < fnum
                    invariant
                        0 <= i <= fnum,
                        fnum == fs@.len(),
                        req.body == Option::Some(RequestBody::Form(*fs)),
                        dsv(deps) == dv,
                        dv == deps_view_of(req.dependencies),
                        !self.url_pdnf_forced(*req),
                        self.headers_resolved(*req, dv, headers@, bks, bvs),
                        out@.len() == i,
                        fbs.len() == i,
                        forall|k: int|
                            0 <= k < i ==> self.resolves_template(fs@[k].1@, dv, #[trigger] fbs[k]),
                        forall|k: int|
                            0 <= k < i ==> (#[trigger] out@[k]).0@ == fs@[k].0@ && out@[k].1@
                                == subst_spec(fs@[k].1@, fbs[k]),
                    decreases fnum - i,
                {
                    let rv = match self.resolve_field(fs[i].1.as_str(), deps) {
                        FieldOutcome::Text(v) => v,
                        FieldOutcome::Need(st) => {
                            proof {
                                self.lemma_need_entry(fs@[i as int].1@, dsv(deps), st);
                            }
                            return AttemptOutcome::Need(st);
                        },
                        FieldOutcome::Blocked { request } => {
                            proof {
                                self.lemma_blocked_entry(fs@[i as int].1@, dsv(deps), request@);
                            }
                            return AttemptOutcome::Blocked { request, from_url: false };
                        },
                        FieldOutcome::Fail(e) => {
                            proof {
                                assert forall|k2: Seq<char>| #[trigger] distinct_names(
                                    fs@[i as int].1@,
                                ).contains(k2) implies req_mentions(*req, k2) by {
                                    match &req.body {
                                        Option::Some(RequestBody::Form(fs2)) => {
                                            assert(*fs2 == *fs);
                                            assert(distinct_names(
                                                (fs2@[i as int]).1@,
                                            ).contains(k2));
                                        },
                                        _ => {},
                                    }
                                };
                                self.lemma_fail_blocked(*req, fs@[i as int].1@, e);
                            }
                            return AttemptOutcome::Failed(ExecutionError::Unknown(e.message()));
                        },
                    };
                    proof {
                        let fb = choose|b: Map<Seq<char>, Seq<char>>|
                            self.resolves_template(fs@[i as int].1@, dv, b) && rv@ == subst_spec(
                                fs@[i as int].1@,
                                b,
                            );
                        fbs = fbs.push(fb);
                    }
                    let fkey = fs[i].0.clone();
                    out.push((fkey, rv));
                    i = i + 1;
                }
                proof {
                    form_bs = fbs;
                    assert(self.form_resolved(fs@, dv, out@, form_bs));
                    assert(self.form_resolved(fs@, deps_view_of(req.dependencies), out@,
                    form_bs));
                }
                Some(ResolvedBody::Form(out))
            },
        };
        let rr = ResolvedRequest {
            name: req.name.clone(),
            method: req.method.clone(),
            url,
            headers,
            body,
        };
        proof {
            assert(self.resolves_template(req.url@, dv, ub) && rr.url@ == subst_spec(
                req.url@,
                ub,
            ));
            assert(self.headers_resolved(*req, deps_view_of(req.dependencies), rr.headers@,
                bks, bvs));
            match (&req.body, &rr.body) {
                (Option::Some(RequestBody::Text(t)), Option::Some(ResolvedBody::Text(v))) => {
                    assert(self.resolves_template(t@, deps_view_of(req.dependencies), body_b)
                        && v@ == subst_spec(t@, body_b));
                },
                (Option::Some(RequestBody::Json(j)), Option::Some(ResolvedBody::Json(v))) => {
                    assert(self.resolves_template(
                        ser(*j),
                        deps_view_of(req.dependencies),
                        body_b,
                    ) && parse_spec(subst_spec(ser(*j), body_b)) == Some(v.model()));
                },
                (Option::Some(RequestBody::Form(fs)), Option::Some(ResolvedBody::Form(out2))) => {
                    assert(self.form_resolved(fs@, deps_view_of(req.dependencies), out2@,
                    form_bs));
                },
                _ => {},
            }
            assert(exists|b: Map<Seq<char>, Seq<char>>|
                self.resolves_template(req.url@, deps_view_of(req.dependencies), b) && rr.url@
                    == subst_spec(req.url@, b));
            assert(exists|
                bks2: Seq<Map<Seq<char>, Seq<char>>>,
                bvs2: Seq<Map<Seq<char>, Seq<char>>>,
            |
                self.headers_resolved(*req, deps_view_of(req.dependencies), rr.headers@, bks2,
                bvs2));
            assert(self.resolves_request(*req, rr));
        }
        let result = AttemptOutcome::Ready(rr);
        proof {
            assert(self.attempt_post(*req, result));
        }
        result
    }
}

fn deserialization_error_message() -> (r: String)
{
    "Deserialization error: the resolved body is not in the structured grammar".to_owned()
}

impl Executor {
    /// What `step` promises.  An effect is asked only while unanswered and
    /// only for a declared dependency of a request the run needs now, with
    /// exactly the payload that dependency calls for.  A perform is only
    /// the current target or a demanded prerequisite with no memoized
    /// response, so a prerequisite runs at most once per run.  A failure
    /// names its cause: an undeclared target by name, an undeclared URL
    /// placeholder by name, a cycle by the request it turns on, and
    /// anything else only when a request the run needs is genuinely beyond
    /// help from the host or its perform already failed.  The run-state
    /// reports are truthful.
    pub open spec fn step_post(&self, r: EngineStep) -> bool {
        match r {
            EngineStep::Finished => self.finished() matches Some(_),
            EngineStep::RunComplete => self.cursor_at() == self.targets_view().len() && self
                .finished() matches None,
            EngineStep::Perform { request } => {
                &&& exists|i: int|
                    0 <= i < self.req_table().len() && (#[trigger] self.req_table()[i]).name@
                        == request.name@ && self.resolves_request(self.req_table()[i], request)
                &&& !self.http_failures_map().contains_key(request.name@)
                &&& self.cursor_at() < self.targets_view().len()
                &&& (request.name@ == self.targets_view()[self.cursor_at()]@ || (!self.history(
                ).contains_key(request.name@) && self.some_response_dep_on(request.name@)))
            },
            EngineStep::Failed { error } => {
                &&& (error matches ExecutionError::RequestNotFound { request } ==> {
                    let target = self.targets_view()[self.cursor_at()];
                    request@ == target@ && !self.has_request(request@)
                })
                &&& (error matches ExecutionError::DependencyResolutionFailed(
                    DependencyResolutionError::PlaceholderDefinitionNotFound { placeholder },
                ) ==> (self.spec_request_of(self.targets_view()[self.cursor_at()]@) matches Some(
                    req,
                ) && distinct_names(req.url@).contains(placeholder@) && find_dep_spec(
                    deps_view_of(req.dependencies),
                    placeholder@,
                ) is None))
                &&& (error matches ExecutionError::DependencyResolutionFailed(
                    DependencyResolutionError::CyclicDependency { request },
                ) ==> !self.history().contains_key(request@) && (exists|p: Seq<Seq<char>>|
                    self.demand_path(p) && p.contains(request@) && (self.spec_request_of(
                        p.last(),
                    ) matches Some(req) && response_dep_of(req, request@))))
                &&& (!(error matches ExecutionError::RequestNotFound { .. }) && !(error matches
                ExecutionError::DependencyResolutionFailed(
                    DependencyResolutionError::CyclicDependency { .. },
                )) ==> exists|i: int|
                    0 <= i < self.req_table().len() && self.run_relevant(
                        self.req_table()[i].name@,
                    ) && (self.request_blocked(#[trigger] self.req_table()[i])
                        || self.http_failures_map().contains_key(self.req_table()[i].name@)))
            },
            _ => self.effect_unknown(r) && self.some_dep_wants(r),
        }
    }

    /// The run-state reports of `step` are exact: a finished target is
    /// always reported, a spent run is always complete, and an undeclared
    /// target always fails by name.
    pub open spec fn step_reports(&self, r: EngineStep) -> bool {
        &&& (self.finished() matches Some(_) ==> r matches EngineStep::Finished)
        &&& (self.finished() matches None && self.cursor_at() == self.targets_view().len()
            ==> r matches EngineStep::RunComplete)
        &&& (self.finished() matches None && self.cursor_at() < self.targets_view().len()
            && !self.has_request(self.targets_view()[self.cursor_at()]@) ==> (r matches
        EngineStep::Failed { error } && error matches ExecutionError::RequestNotFound {
            request,
        } && request@ == self.targets_view()[self.cursor_at()]@))
        &&& (self.finished() matches None && self.cursor_at() < self.targets_view().len()
            ==> match self.spec_request_of(self.targets_view().index(self.cursor_at())@) {
            Some(req) => self.url_pdnf_forced(req) ==> (r matches EngineStep::Failed { error }
                && error matches ExecutionError::DependencyResolutionFailed(
                DependencyResolutionError::PlaceholderDefinitionNotFound { placeholder },
            ) && self.names_force_pdnf(
                req.url@,
                deps_view_of(req.dependencies),
                placeholder@,
            )),
            None => true,
        })
    }

    /// What must happen next.  Reading the run's state alone, this is a
    /// pure question: the same state always steps the same way, and no
    /// call of `step` changes anything.
    pub fn step(&self) -> (r: EngineStep)
        requires
            self.wf(),
        ensures
            self.step_post(r),
            self.step_reports(r),
    {
        if self.finished_current.is_some() {
            return EngineStep::Finished;
        }
        if self.cursor >= self.targets.len() {
            return EngineStep::RunComplete;
        }
        let target_name = &self.targets[self.cursor];
        let mut chain: Vec<usize> = Vec::new();
        let mut via_url: Vec<bool> = Vec::new();
        match position_of(&self.requests, target_name.as_str()) {
            None => {
                proof {
                    if self.spec_request_of(target_name@) matches Some(_) {
                        lemma_spec_request_of_some(self.req_table(), target_name@);
                        assert(false);
                    }
                }
                return EngineStep::Failed {
                    error: ExecutionError::RequestNotFound { request: target_name.clone() },
                };
            },
            Some(i0) => {
                proof {
                    lemma_spec_request_of(self.req_table(), i0 as int);
                }
                chain.push(i0);
                via_url.push(true);
            },
        }
        loop
            invariant
                self.wf(),
                self.cursor_at() < self.targets_view().len(),
                self.finished() matches None,
                chain@.len() == via_url@.len(),
                1 <= chain@.len() <= self.req_table().len(),
                forall|a: int| 0 <= a < chain@.len() ==> #[trigger] chain@[a] < self.req_table().len(),
                forall|a: int, b: int| 0 <= a < b < chain@.len() ==> chain@[a] != chain@[b],
                self.req_table()[chain@[0] as int].name@ == self.targets_view()[self.cursor_at()]@,
                forall|a: int|
                    1 <= a < chain@.len() ==> !self.history().contains_key(
                        (#[trigger] self.req_table()[chain@[a] as int]).name@,
                    ),
                forall|a: int|
                    1 <= a < chain@.len() ==> self.some_response_dep_on(
                        (#[trigger] self.req_table()[chain@[a] as int]).name@,
                    ),
                forall|a: int|
                    0 <= a < chain@.len() - 1 ==> response_dep_of(
                        self.req_table()[chain@[a] as int],
                        (#[trigger] self.req_table()[chain@[a + 1] as int]).name@,
                    ),
                chain@.len() > 1 ==> !self.url_pdnf_forced(self.req_table()[chain@[0] as int]),
                self.spec_request_of(self.targets_view().index(self.cursor_at())@) == Some(
                    self.req_table()[chain@[0] as int],
                ),
            decreases self.req_table().len() - chain.len(),
        {
            let idx = chain[chain.len() - 1];
            let req = &self.requests[idx];
            match self.attempt_request(req) {
                AttemptOutcome::Ready(rr) => {
                    match self.http_failures.get(rr.name.as_str()) {
                        Some(msg) => {
                            proof {
                                assert(self.http_failures_map().contains_key(
                                    self.req_table()[idx as int].name@,
                                ));
                                if chain@.len() > 1 {
                                    assert(self.some_response_dep_on(
                                        self.req_table()[idx as int].name@,
                                    ));
                                }
                                assert(self.run_relevant(self.req_table()[idx as int].name@));
                            }
                            let r2 = self.fail_through(
                                ExecutionError::Unknown(msg.clone()),
                                &via_url,
                            );
                            proof {
                                assert(self.step_post(r2));
                            }
                            return r2;
                        },
                        None => {
                            proof {
                                let last = chain@.len() - 1;
                                assert(self.req_table()[chain@[last] as int].name@ == rr.name@);
                                if chain@.len() > 1 {
                                    assert(self.some_response_dep_on(rr.name@));
                                }
                            }
                            return EngineStep::Perform { request: rr };
                        },
                    }
                },
                AttemptOutcome::Need(st) => {
                    proof {
                        if chain@.len() > 1 {
                            assert(self.some_response_dep_on(
                                self.req_table()[idx as int].name@,
                            ));
                        }
                        assert(self.run_relevant(self.req_table()[idx as int].name@));
                        let ds = deps_view_of(self.req_table()[idx as int].dependencies);
                        let di = choose|di: int|
                            0 <= di < ds.len() && self.dep_wants((#[trigger] ds[di]).1, st);
                        assert(self.some_dep_wants(st));
                    }
                    return st;
                },
                AttemptOutcome::Blocked { request, from_url } => {
                    if self.chain_has_name(&chain, request.as_str()) {
                        proof {
                            let p = Seq::new(
                                chain@.len(),
                                |a: int| self.req_table()[chain@[a] as int].name@,
                            );
                            assert forall|a: int| 0 <= a < p.len() implies self.has_request(
                                #[trigger] p[a],
                            ) by {
                                assert(self.req_table()[chain@[a] as int].name@ == p[a]);
                            };
                            assert forall|a: int| 0 <= a < p.len() - 1 implies (
                            self.spec_request_of(#[trigger] p[a]) matches Some(req2)
                                && response_dep_of(req2, p[a + 1])) by {
                                lemma_spec_request_of(self.req_table(), chain@[a] as int);
                            };
                            assert forall|a: int| 1 <= a < p.len() implies !self.history(
                            ).contains_key(#[trigger] p[a]) by {
                                assert(self.req_table()[chain@[a] as int].name@ == p[a]);
                            };
                            assert(self.demand_path(p));
                            let aw = choose|aw: int|
                                0 <= aw < chain@.len() && (#[trigger] self.req_table().index(
                                    chain@[aw] as int,
                                )).name@ == request@;
                            assert(p[aw] == request@);
                            assert(p.contains(request@));
                            assert(p.last() == self.req_table()[chain@[chain@.len() - 1] as int].name@);
                            lemma_spec_request_of(
                                self.req_table(),
                                chain@[chain@.len() - 1] as int,
                            );
                            assert(response_dep_of(
                                self.req_table()[idx as int],
                                request@,
                            ));
                        }
                        return EngineStep::Failed {
                            error: ExecutionError::DependencyResolutionFailed(
                                DependencyResolutionError::CyclicDependency { request },
                            ),
                        };
                    }
                    match position_of(&self.requests, request.as_str()) {
                        Some(pi) => {
                            proof {
                                assert(self.req_table()[pi as int].name@ == request@);
                                assert(forall|a: int|
                                    0 <= a < chain@.len() ==> #[trigger] chain@[a] != pi);
                                let ds = deps_view_of(
                                    self.req_table()[idx as int].dependencies,
                                );
                                let di = choose|di: int|
                                    0 <= di < ds.len() && ((#[trigger] ds[di]).1 matches
                                    Dependency::Response { request: rn, .. } && rn@ == request@);
                                assert(self.some_response_dep_on(request@));
                                assert(response_dep_of(
                                    self.req_table()[idx as int],
                                    request@,
                                ));
                                if chain@.len() == 1 {
                                    assert(!self.url_pdnf_forced(
                                        self.req_table()[chain@[0] as int],
                                    ));
                                }
                            }
                            chain.push(pi);
                            via_url.push(from_url);
                            proof {
                                let n = self.req_table().len() as int;
                                let is = chain@.map_values(|u: usize| u as int);
                                assert(is.no_duplicates());
                                is.unique_seq_to_set();
                                let rng = vstd::set_lib::set_int_range(0, n);
                                vstd::set_lib::lemma_int_range(0, n);
                                broadcast use vstd::seq_lib::group_seq_properties;

                                assert forall|x: int| is.to_set().contains(x) implies rng.contains(
                                    x,
                                ) by {
                                    assert(is.contains(x));
                                    let a = choose|a: int| 0 <= a < is.len() && is[a] == x;
                                    assert(chain@[a] < self.req_table().len());
                                };
                                assert(is.to_set().subset_of(rng));
                                vstd::set_lib::lemma_len_subset(is.to_set(), rng);
                                assert(chain@.len() <= n);
                            }
                        },
                        None => {
                            proof {
                                assert(false);
                            }
                            return EngineStep::RunComplete;
                        },
                    }
                },
                AttemptOutcome::Failed(e) => {
                    proof {
                        assert(self.request_blocked(self.req_table()[idx as int]));
                        if chain@.len() > 1 {
                            assert(self.some_response_dep_on(
                                self.req_table()[idx as int].name@,
                            ));
                        }
                        assert(self.run_relevant(self.req_table()[idx as int].name@));
                        if chain@.len() == 1 {
                            lemma_spec_request_of(self.req_table(), chain@[0] as int);
                        }
                    }
                    let r2 = self.fail_through(e, &via_url);
                    proof {
                        assert(self.step_post(r2));
                    }
                    return r2;
                },
            }
        }
    }

    /// Whether one of the chained requests has this name.
    fn chain_has_name(&self, chain: &Vec<usize>, name: &str) -> (b: bool)
        requires
            forall|a: int| 0 <= a < chain@.len() ==> #[trigger] chain@[a] < self.req_table().len(),
        ensures
            b == exists|a: int|
                0 <= a < chain@.len() && (#[trigger] self.req_table()[chain@[a] as int]).name@
                    == name@,
    {
        let n = chain.len();
        let mut a: usize = 0;
        while a < n
            invariant
                0 <= a <= n,
                n == chain@.len(),
                forall|x: int| 0 <= x < chain@.len() ==> #[trigger] chain@[x] < self.req_table().len(),
                forall|x: int|
                    0 <= x < a ==> (#[trigger] self.req_table()[chain@[x] as int]).name@ != name@,
            decreases n - a,
        {
            if str_eq(self.requests[chain[a]].name.as_str(), name) {
                proof {
                    assert(self.req_table()[chain@[a as int] as int].name@ == name@);
                }
                return true;
            }
            a = a + 1;
        }
        false
    }

    /// A failure deep in a prerequisite chain, wrapped outward: each
    /// dependent reports its prerequisite's failure as an unimplemented
    /// source, on the URL as a dependency-resolution failure and anywhere
    /// else as an unclassified error.
    fn fail_through(&self, err0: ExecutionError, via_url: &Vec<bool>) -> (r: EngineStep)
        ensures
            r matches EngineStep::Failed { error } && (via_url@.len() <= 1 ==> error == err0)
                && (via_url@.len() > 1 ==> ((error matches
            ExecutionError::DependencyResolutionFailed(de) && de matches
                DependencyResolutionError::NotImplemented(_)) || error matches
            ExecutionError::Unknown(_))),
    {
        let mut err = err0;
        let mut d = via_url.len();
        while d > 1
            invariant
                0 <= d <= via_url@.len(),
                via_url@.len() <= 1 ==> err == err0,
                via_url@.len() > 1 && d < via_url@.len() ==> ((err matches
                ExecutionError::DependencyResolutionFailed(de) && de matches
                    DependencyResolutionError::NotImplemented(_)) || err matches
                    ExecutionError::Unknown(_)),
            decreases d,
        {
            d = d - 1;
            let de = DependencyResolutionError::NotImplemented(err.message());
            err = if via_url[d] {
                ExecutionError::DependencyResolutionFailed(de)
            } else {
                ExecutionError::Unknown(de.message())
            };
        }
        EngineStep::Failed { error: err }
    }

    /// The response of the just-completed target, for rendering.
    pub fn last_response(&self) -> (r: Option<&Response>)
        ensures
            match r {
                Some(resp) => self.finished() == Some(*resp),
                None => self.finished() matches None,
            },
    {
        match &self.finished_current {
            Some(resp) => Some(resp),
            None => None,
        }
    }

    /// The current target is rendered: move to the next one.  Does
    /// nothing unless a target just finished, so a failed run cannot be
    /// stepped past its failure.
    pub fn advance(&mut self)
        requires
            old(self).wf(),
        ensures
            final(self).wf(),
            old(self).finished() matches None ==> *final(self) == *old(self),
            old(self).finished() matches Some(_) ==> final(self).finished() matches None
                && final(self).cursor_at() == old(self).cursor_at() + 1 && final(self).req_table()
                == old(self).req_table() && final(self).targets_view() == old(self).targets_view()
                && final(self).history() == old(self).history(),
    {
        if self.finished_current.is_some() {
            let limit = self.targets.len();
            proof {
                assert(old(self).finished() matches Some(_));
                assert(self.cursor < limit);
            }
            self.finished_current = None;
            self.cursor = self.cursor + 1;
        }
    }
}

impl Executor {
    /// The declared requests and the run's position are untouched: what
    /// every host report leaves alone.
    pub open spec fn same_position(&self, other: &Executor) -> bool {
        &&& other.req_table() == self.req_table()
        &&& other.targets_view() == self.targets_view()
        &&& other.cursor_at() == self.cursor_at()
        &&& other.finished() == self.finished()
    }

    /// Record what the environment held for a variable.  The first answer
    /// wins: once a variable is known, later reports change nothing, so a
    /// value resolved once stays resolved and a miss stays a miss.
    pub fn provide_env_var(&mut self, name: String, value: Option<String>)
        requires
            old(self).wf(),
        ensures
            final(self).wf(),
            old(self).same_position(final(self)),
            final(self).history() == old(self).history(),
            final(self).prompt_cache() == old(self).prompt_cache(),
            final(self).prompt_refused_set() == old(self).prompt_refused_set(),
            (old(self).env_cache().contains_key(name@) || old(self).env_missing_set().contains_key(
                name@,
            )) ==> *final(self) == *old(self),
            !(old(self).env_cache().contains_key(name@)
                || old(self).env_missing_set().contains_key(name@)) ==> match value {
                Some(v) => final(self).env_cache() == old(self).env_cache().insert(name@, v)
                    && final(self).env_missing_set() == old(self).env_missing_set(),
                None => final(self).env_missing_set() == old(self).env_missing_set().insert(
                    name@,
                    true,
                ) && final(self).env_cache() == old(self).env_cache(),
            },
    {
        let known = self.env_var_resolver.cached(name.as_str()).is_some()
            || self.env_missing.contains_key(name.as_str());
        if known {
            return;
        }
        match value {
            Some(v) => {
                self.env_var_resolver.save_to_cache(name, v);
            },
            None => {
                self.env_missing.insert(name, true);
            },
        }
    }

    /// Record what the host solicited for an unset variable's fallback
    /// prompt, or that no input could be obtained.  A value is cached
    /// under the variable's name, so a repeated reference to the same
    /// variable never prompts again, and two variables sharing one prompt
    /// text are each asked on their own.  The first answer wins.
    pub fn provide_env_var_prompt(&mut self, name: String, input: Option<String>)
        requires
            old(self).wf(),
        ensures
            final(self).wf(),
            old(self).same_position(final(self)),
            final(self).history() == old(self).history(),
            final(self).env_missing_set() == old(self).env_missing_set(),
            final(self).prompt_cache() == old(self).prompt_cache(),
            final(self).prompt_refused_set() == old(self).prompt_refused_set(),
            (old(self).env_cache().contains_key(name@)
                || old(self).env_prompt_refused_set().contains_key(name@)) ==> *final(self)
                == *old(self),
            !(old(self).env_cache().contains_key(name@)
                || old(self).env_prompt_refused_set().contains_key(name@)) ==> match input {
                Some(v) => final(self).env_cache() == old(self).env_cache().insert(name@, v)
                    && final(self).env_prompt_refused_set() == old(
                    self,
                ).env_prompt_refused_set(),
                None => final(self).env_prompt_refused_set() == old(
                    self,
                ).env_prompt_refused_set().insert(name@, true) && final(self).env_cache() == old(
                    self,
                ).env_cache(),
            },
    {
        let known = self.env_var_resolver.cached(name.as_str()).is_some()
            || self.env_prompt_refused.contains_key(name.as_str());
        if known {
            return;
        }
        match input {
            Some(v) => {
                self.env_var_resolver.save_to_cache(name, v);
            },
            None => {
                self.env_prompt_refused.insert(name, true);
            },
        }
    }

    /// Record what the host solicited for a prompt label, or that no
    /// input could be obtained.  The first answer wins: a label is never
    /// prompted twice in one run.
    pub fn provide_prompt(&mut self, label: String, input: Option<String>)
        requires
            old(self).wf(),
        ensures
            final(self).wf(),
            old(self).same_position(final(self)),
            final(self).history() == old(self).history(),
            final(self).env_cache() == old(self).env_cache(),
            final(self).env_missing_set() == old(self).env_missing_set(),
            (old(self).prompt_cache().contains_key(label@)
                || old(self).prompt_refused_set().contains_key(label@)) ==> *final(self) == *old(self),
            !(old(self).prompt_cache().contains_key(label@)
                || old(self).prompt_refused_set().contains_key(label@)) ==> match input {
                Some(v) => final(self).prompt_cache() == old(self).prompt_cache().insert(
                    label@,
                    v,
                ) && final(self).prompt_refused_set() == old(self).prompt_refused_set(),
                None => final(self).prompt_refused_set() == old(self).prompt_refused_set().insert(label@, true) && final(self).prompt_cache() == old(self).prompt_cache(),
            },
    {
        let known = self.prompt_resolver.cached(label.as_str()).is_some()
            || self.prompt_refused.contains_key(label.as_str());
        if known {
            return;
        }
        match input {
            Some(v) => {
                self.prompt_resolver.save_to_cache(label, v);
            },
            None => {
                self.prompt_refused.insert(label, true);
            },
        }
    }

    /// Record what reading a file gave: its text, or the report of the
    /// failure.  The first answer wins.
    pub fn provide_file(&mut self, path: String, outcome: Result<String, String>)
        requires
            old(self).wf(),
        ensures
            final(self).wf(),
            old(self).same_position(final(self)),
            final(self).history() == old(self).history(),
            (old(self).files().contains_key(path@) || old(self).file_errors_map().contains_key(
                path@,
            )) ==> *final(self) == *old(self),
            !(old(self).files().contains_key(path@) || old(self).file_errors_map().contains_key(
                path@,
            )) ==> match outcome {
                Ok(content) => final(self).files() == old(self).files().insert(path@, content)
                    && final(self).file_errors_map() == old(self).file_errors_map(),
                Err(msg) => final(self).file_errors_map() == old(self).file_errors_map().insert(
                    path@,
                    msg,
                ) && final(self).files() == old(self).files(),
            },
    {
        let known = self.file_contents.contains_key(path.as_str())
            || self.file_errors.contains_key(path.as_str());
        if known {
            return;
        }
        match outcome {
            Ok(content) => {
                self.file_contents.insert(path, content);
            },
            Err(msg) => {
                self.file_errors.insert(path, msg);
            },
        }
    }

    /// Record what loading a key/value side file gave: its entries, or
    /// the report of the failure.  The first answer wins.
    pub fn provide_env_file(
        &mut self,
        path: String,
        outcome: Result<Vec<(String, String)>, String>,
    )
        requires
            old(self).wf(),
        ensures
            final(self).wf(),
            old(self).same_position(final(self)),
            final(self).history() == old(self).history(),
            (old(self).env_files().contains_key(path@)
                || old(self).env_file_errors_map().contains_key(path@)) ==> *final(self) == *old(self),
            !(old(self).env_files().contains_key(path@)
                || old(self).env_file_errors_map().contains_key(path@)) ==> match outcome {
                Ok(entries) => final(self).env_files() == old(self).env_files().insert(
                    path@,
                    entries,
                ) && final(self).env_file_errors_map() == old(self).env_file_errors_map(),
                Err(msg) => final(self).env_file_errors_map() == old(self).env_file_errors_map().insert(path@, msg) && final(self).env_files() == old(self).env_files(),
            },
    {
        let known = self.env_file_cache.contains_key(path.as_str())
            || self.env_file_errors.contains_key(path.as_str());
        if known {
            return;
        }
        match outcome {
            Ok(entries) => {
                self.env_file_cache.insert(path, entries);
            },
            Err(msg) => {
                self.env_file_errors.insert(path, msg);
            },
        }
    }

    /// Record what writing a side file back gave.  A successful write
    /// refreshes the parse cache with exactly what was written, so the
    /// cache and the file never diverge within one run; a failed write is
    /// kept as the failure of that file's pending value.
    pub fn provide_env_file_save(
        &mut self,
        path: String,
        entries: Vec<(String, String)>,
        outcome: Result<(), String>,
    )
        requires
            old(self).wf(),
        ensures
            final(self).wf(),
            old(self).same_position(final(self)),
            final(self).history() == old(self).history(),
            match outcome {
                Ok(_) => final(self).env_files() == old(self).env_files().insert(path@, entries)
                    && final(self).save_errors() == old(self).save_errors(),
                Err(msg) => final(self).env_files() == old(self).env_files() && (old(self).save_errors().contains_key(path@) ==> *final(self) == *old(self)) && (!old(self).save_errors().contains_key(path@) ==> final(self).save_errors() == old(self).save_errors().insert(path@, msg)),
            },
    {
        match outcome {
            Ok(_) => {
                self.env_file_cache.insert(path, entries);
            },
            Err(msg) => {
                if !self.env_file_save_errors.contains_key(path.as_str()) {
                    self.env_file_save_errors.insert(path, msg);
                }
            },
        }
    }

    /// Record what the secret-store tool gave for a reference.  The first
    /// answer wins: one reference is fetched at most once per run.
    pub fn provide_secret(
        &mut self,
        vault: String,
        item: String,
        field: String,
        outcome: SecretFetchOutcome,
    )
        requires
            old(self).wf(),
        ensures
            final(self).wf(),
            old(self).same_position(final(self)),
            final(self).history() == old(self).history(),
            old(self).secrets().contains_key(reference_of(vault@, item@, field@)) ==> *final(self) == *old(self),
            !old(self).secrets().contains_key(reference_of(vault@, item@, field@)) ==> final(self).secrets() == old(self).secrets().insert(
                reference_of(vault@, item@, field@),
                outcome,
            ),
    {
        let reference = make_reference(vault.as_str(), item.as_str(), field.as_str());
        if self.secret_outcomes.contains_key(reference.as_str()) {
            return;
        }
        self.secret_outcomes.insert(reference, outcome);
    }

    /// Record what performing a request gave.  A completed exchange is
    /// stored in the history under the request's name, superseding any
    /// earlier response; when it answers the current target, the target is
    /// marked finished for rendering.  A failed exchange is kept as that
    /// request's failure.  The result says whether a response was stored.
    pub fn provide_http(&mut self, name: String, outcome: HttpOutcome) -> (recorded: bool)
        requires
            old(self).wf(),
        ensures
            final(self).wf(),
            final(self).req_table() == old(self).req_table(),
            final(self).targets_view() == old(self).targets_view(),
            final(self).cursor_at() == old(self).cursor_at(),
            final(self).env_cache() == old(self).env_cache(),
            final(self).prompt_cache() == old(self).prompt_cache(),
            match outcome {
                HttpOutcome::Failure { message } => !recorded && final(self).finished() == old(self).finished() && final(self).history() == old(self).history() && (old(self).http_failures_map().contains_key(name@) ==> *final(self) == *old(self)) && (
                !old(self).http_failures_map().contains_key(name@) ==> final(self).http_failures_map() == old(self).http_failures_map().insert(name@, message)),
                HttpOutcome::Success { status, headers, text } => final(self).http_failures_map() == old(self).http_failures_map() && (!old(self).has_request(name@) ==> *final(self) == *old(self) && !recorded) && (old(self).has_request(name@) ==> recorded && final(self).history().contains_key(name@)
                    && final(self).history()[name@].status == status && final(self).history()[name@].headers@ == headers@ && final(self).history()[name@].text@
                    == text@ && final(self).history()[name@].request.name@ == name@ && (old(
                    self,
                ).spec_request_of(name@) matches Some(dreq) && req_like(
                    final(self).history()[name@].request,
                    dreq,
                )) && final(self).history() == old(self).history().insert(name@, final(self).history()[name@])
                    && (if old(self).finished() matches None && old(self).cursor_at() < old(self).targets_view().len() && old(self).targets_view()[old(self).cursor_at()]@
                    == name@ {
                    final(self).finished() matches Some(fr) && fr.status == status && fr.headers@
                        == headers@ && fr.text@ == text@ && fr.request.name@ == name@ && (old(
                        self,
                    ).spec_request_of(name@) matches Some(dreq2) && req_like(
                        fr.request,
                        dreq2,
                    ))
                } else {
                    final(self).finished() == old(self).finished()
                })),
            },
    {
        match outcome {
            HttpOutcome::Failure { message } => {
                if !self.http_failures.contains_key(name.as_str()) {
                    self.http_failures.insert(name, message);
                }
                false
            },
            HttpOutcome::Success { status, headers, text } => {
                match position_of(&self.requests, name.as_str()) {
                    None => {
                        proof {
                            assert(!old(self).has_request(name@));
                        }
                        false
                    },
                    Some(i) => {
                        proof {
                            lemma_spec_request_of(self.req_table(), i as int);
                        }
                        let resp = Response {
                            request: self.requests[i].clone(),
                            headers,
                            status,
                            text,
                        };
                        proof {
                            assert(resp.request.name@ == name@);
                        }
                        let is_target = !self.finished_current.is_some() && self.cursor
                            < self.targets.len() && str_eq(
                            self.targets[self.cursor].as_str(),
                            name.as_str(),
                        );
                        if is_target {
                            let fin = Response {
                                request: self.requests[i].clone(),
                                headers: clone_header_entries(&resp.headers),
                                status: resp.status,
                                text: resp.text.clone(),
                            };
                            self.finished_current = Some(fin);
                        }
                        self.response_resolver.save_to_history(resp);
                        true
                    },
                }
            },
        }
    }
}

/// Resolution is deterministic and repeatable: a state binds a template's
/// placeholders in exactly one way, so resolving the same template twice
/// against the same caches — as happens whenever a request is re-examined
/// after a prerequisite completes — substitutes the same values and yields
/// the same text, with nobody prompted again.
pub proof fn lemma_resolution_deterministic(
    e: &Executor,
    t: Seq<char>,
    ds: Seq<(String, Dependency)>,
    b1: Map<Seq<char>, Seq<char>>,
    b2: Map<Seq<char>, Seq<char>>,
)
    requires
        e.resolves_template(t, ds, b1),
        e.resolves_template(t, ds, b2),
    ensures
        b1 == b2,
        subst_spec(t, b1) == subst_spec(t, b2),
{
    assert forall|k: Seq<char>| #[trigger] b1.contains_key(k) implies b2.contains_key(k) && b1[k]
        == b2[k] by {
        assert(distinct_names(t).contains(k));
        assert(b2.contains_key(k));
    }
    assert forall|k: Seq<char>| #[trigger] b2.contains_key(k) implies b1.contains_key(k) by {
        assert(distinct_names(t).contains(k));
    }
    assert(b1 =~= b2);
}

} // verus!
