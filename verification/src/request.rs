//! The declarative data model: a named request with templated method, URL,
//! headers and body, the dependency declarations that say how each
//! placeholder resolves, and the masking rules handed to the output
//! collaborator.

use vstd::prelude::*;

use crate::json::{json_like, Json};

verus! {

/// A collection document: its declared requests, in order.
#[derive(Debug)]
pub struct Config {
    pub requests: Vec<Request>,
}

/// One declared request.
#[derive(Debug)]
pub struct Request {
    pub name: String,
    pub method: String,
    pub url: String,
    pub headers: Option<Vec<(String, String)>>,
    pub body: Option<RequestBody>,
    pub dependencies: Option<Dependencies>,
    pub masking_rules: Vec<MaskingRule>,
}

/// A request body: plain text, a structured value, or form fields; each
/// leaf is a template.
#[derive(Debug)]
pub enum RequestBody {
    Text(String),
    Json(Json),
    Form(Vec<(String, String)>),
}

/// The declared dependencies of one request: placeholder name to source.
pub type Dependencies = Vec<(String, Dependency)>;

/// How one placeholder resolves.
#[derive(Debug, PartialEq, Eq)]
pub enum Dependency {
    EnvVar { name: String, prompt: Option<String> },
    EnvFile { env_file: String, key: String, prompt: Option<String> },
    OnePassword { vault: String, item: String, field: String },
    File { path: String },
    Prompt { label: String },
    Response { request: String, target: ResponseTarget },
}

/// What a response dependency extracts: a header value or a body field.
#[derive(Debug, PartialEq, Eq)]
pub enum ResponseTarget {
    HeaderValue { key: String },
    JsonBody { pointer: String },
}

/// A masking rule for the output collaborator: where to look, what to
/// match, what to write instead.  The core carries these unread.
#[derive(Debug, PartialEq, Eq)]
pub struct MaskingRule {
    pub path: String,
    pub regex: String,
    pub replace: String,
}

/// What cloning a body preserves: the text, the structure, or the fields.
pub open spec fn body_like(a: RequestBody, b: RequestBody) -> bool {
    match (a, b) {
        (RequestBody::Text(x), RequestBody::Text(y)) => x@ == y@,
        (RequestBody::Json(x), RequestBody::Json(y)) => json_like(x, y),
        (RequestBody::Form(x), RequestBody::Form(y)) => x@ == y@,
        _ => false,
    }
}

/// What cloning a request preserves: every field up to the characters of
/// its strings and the structure of its body.
pub open spec fn req_like(a: Request, b: Request) -> bool {
    &&& a.name@ == b.name@
    &&& a.method@ == b.method@
    &&& a.url@ == b.url@
    &&& match (a.headers, b.headers) {
        (Option::None, Option::None) => true,
        (Option::Some(x), Option::Some(y)) => x@ == y@,
        _ => false,
    }
    &&& match (a.body, b.body) {
        (Option::None, Option::None) => true,
        (Option::Some(x), Option::Some(y)) => body_like(x, y),
        _ => false,
    }
    &&& match (a.dependencies, b.dependencies) {
        (Option::None, Option::None) => true,
        (Option::Some(x), Option::Some(y)) => x@ == y@,
        _ => false,
    }
    &&& a.masking_rules@ == b.masking_rules@
}

fn clone_opt_string(v: &Option<String>) -> (r: Option<String>)
    ensures
        r == *v,
{
    match v {
        Option::Some(x) => Option::Some(x.clone()),
        Option::None => Option::None,
    }
}

fn clone_str_pairs(v: &Vec<(String, String)>) -> (r: Vec<(String, String)>)
    ensures
        r@ == v@,
{
    let mut out: Vec<(String, String)> = Vec::new();
    let n = v.len();
    let mut i: usize = 0;
    while i < n
        invariant
            0 <= i <= n,
            n == v@.len(),
            out@.len() == i,
            forall|k: int| 0 <= k < i ==> out@[k] == v@[k],
        decreases n - i,
    {
        out.push((v[i].0.clone(), v[i].1.clone()));
        i = i + 1;
    }
    proof {
        assert(out@ =~= v@);
    }
    out
}

impl Clone for ResponseTarget {
    /// An equal target.
    fn clone(&self) -> (r: ResponseTarget)
        ensures
            r == *self,
    {
        match self {
            ResponseTarget::HeaderValue { key } => ResponseTarget::HeaderValue {
                key: key.clone(),
            },
            ResponseTarget::JsonBody { pointer } => ResponseTarget::JsonBody {
                pointer: pointer.clone(),
            },
        }
    }
}

impl Clone for Dependency {
    /// An equal declaration.
    fn clone(&self) -> (r: Dependency)
        ensures
            r == *self,
    {
        match self {
            Dependency::EnvVar { name, prompt } => Dependency::EnvVar {
                name: name.clone(),
                prompt: clone_opt_string(prompt),
            },
            Dependency::EnvFile { env_file, key, prompt } => Dependency::EnvFile {
                env_file: env_file.clone(),
                key: key.clone(),
                prompt: clone_opt_string(prompt),
            },
            Dependency::OnePassword { vault, item, field } => Dependency::OnePassword {
                vault: vault.clone(),
                item: item.clone(),
                field: field.clone(),
            },
            Dependency::File { path } => Dependency::File { path: path.clone() },
            Dependency::Prompt { label } => Dependency::Prompt { label: label.clone() },
            Dependency::Response { request, target } => Dependency::Response {
                request: request.clone(),
                target: target.clone(),
            },
        }
    }
}

impl Clone for MaskingRule {
    /// An equal rule.
    fn clone(&self) -> (r: MaskingRule)
        ensures
            r == *self,
    {
        MaskingRule {
            path: self.path.clone(),
            regex: self.regex.clone(),
            replace: self.replace.clone(),
        }
    }
}

impl Clone for RequestBody {
    /// A body equal up to the structure of its value.
    fn clone(&self) -> (r: RequestBody)
        ensures
            body_like(r, *self),
    {
        match self {
            RequestBody::Text(t) => RequestBody::Text(t.clone()),
            RequestBody::Json(j) => RequestBody::Json(j.clone()),
            RequestBody::Form(f) => RequestBody::Form(clone_str_pairs(f)),
        }
    }
}

impl Clone for Request {
    /// A request equal field for field, up to the structure of its body.
    fn clone(&self) -> (r: Request)
        ensures
            req_like(r, *self),
    {
        let headers = match &self.headers {
            Option::Some(h) => Option::Some(clone_str_pairs(h)),
            Option::None => Option::None,
        };
        let body = match &self.body {
            Option::Some(b) => Option::Some(b.clone()),
            Option::None => Option::None,
        };
        let dependencies = match &self.dependencies {
            Option::Some(ds) => {
                let mut out: Dependencies = Vec::new();
                let n = ds.len();
                let mut i: usize = 0;
                while i < n
                    invariant
                        0 <= i <= n,
                        n == ds@.len(),
                        out@.len() == i,
                        forall|k: int| 0 <= k < i ==> out@[k] == ds@[k],
                    decreases n - i,
                {
                    out.push((ds[i].0.clone(), ds[i].1.clone()));
                    i = i + 1;
                }
                proof {
                    assert(out@ =~= ds@);
                }
                Option::Some(out)
            },
            Option::None => Option::None,
        };
        let mut rules: Vec<MaskingRule> = Vec::new();
        let n = self.masking_rules.len();
        let mut i: usize = 0;
        while i < n
            invariant
                0 <= i <= n,
                n == self.masking_rules@.len(),
                rules@.len() == i,
                forall|k: int| 0 <= k < i ==> rules@[k] == self.masking_rules@[k],
            decreases n - i,
        {
            rules.push(self.masking_rules[i].clone());
            i = i + 1;
        }
        proof {
            assert(rules@ =~= self.masking_rules@);
        }
        Request {
            name: self.name.clone(),
            method: self.method.clone(),
            url: self.url.clone(),
            headers,
            body,
            dependencies,
            masking_rules: rules,
        }
    }
}

/// The first declaration for a placeholder name, if any.
pub open spec fn find_dep_spec(ds: Seq<(String, Dependency)>, name: Seq<char>) -> Option<
    Dependency,
>
    decreases ds.len(),
{
    if ds.len() == 0 {
        None
    } else if ds.first().0@ == name {
        Some(ds.first().1)
    } else {
        find_dep_spec(ds.drop_first(), name)
    }
}

/// A declaration found for a name is one of the entries.
pub proof fn lemma_find_dep_entry(ds: Seq<(String, Dependency)>, name: Seq<char>)
    requires
        find_dep_spec(ds, name) matches Some(_),
    ensures
        exists|i: int|
            0 <= i < ds.len() && (#[trigger] ds[i]).0@ == name && ds[i].1 == find_dep_spec(
                ds,
                name,
            )->Some_0,
    decreases ds.len(),
{
    if ds.len() > 0 {
        if ds.first().0@ == name {
            assert(ds[0].0@ == name && ds[0].1 == find_dep_spec(ds, name)->Some_0);
        } else {
            lemma_find_dep_entry(ds.drop_first(), name);
            let i = choose|i: int|
                0 <= i < ds.drop_first().len() && (#[trigger] ds.drop_first()[i]).0@ == name
                    && ds.drop_first()[i].1 == find_dep_spec(ds.drop_first(), name)->Some_0;
            assert(ds[i + 1].0@ == name && ds[i + 1].1 == find_dep_spec(ds, name)->Some_0);
        }
    }
}

/// The dependency declared for a placeholder name, if any.
pub fn find_dependency<'a>(deps: &'a Dependencies, name: &str) -> (r: Option<&'a Dependency>)
    ensures
        match r {
            Some(d) => find_dep_spec(deps@, name@) == Some(*d),
            None => find_dep_spec(deps@, name@) == None::<Dependency>,
        },
{
    let n = deps.len();
    let mut i: usize = 0;
    proof {
        assert(deps@.subrange(0, n as int) =~= deps@);
    }
    while i < n
        invariant
            0 <= i <= n,
            n == deps@.len(),
            find_dep_spec(deps@, name@) == find_dep_spec(deps@.subrange(i as int, n as int), name@),
        decreases n - i,
    {
        proof {
            assert(deps@.subrange(i as int, n as int).first() == deps@[i as int]);
            assert(deps@.subrange(i as int, n as int).drop_first() =~= deps@.subrange(
                i + 1,
                n as int,
            ));
        }
        if crate::text::str_eq(deps[i].0.as_str(), name) {
            return Some(&deps[i].1);
        }
        i = i + 1;
    }
    proof {
        assert(deps@.subrange(n as int, n as int) =~= Seq::<(String, Dependency)>::empty());
    }
    None
}

} // verus!
