use glint::executor::{
    DependencyResolutionError, EngineStep, ExecutionError, Executor, HttpOutcome, ResolvedBody,
};
use glint::json::Json;
use glint::options::Options;
use glint::resolvers::env_var_resolver::EnvVarResolverError;
use glint::request::{Dependency, MaskingRule, Request, RequestBody, ResponseTarget};

fn options(request: Option<&str>) -> Options {
    Options {
        collection: "collection.toml".to_string(),
        request: request.map(|r| r.to_string()),
        show_headers: false,
        hide_status: false,
        hide_body: false,
        raw_output: false,
        disable_masking: false,
    }
}

fn request(name: &str, url: &str, deps: Vec<(&str, Dependency)>) -> Request {
    Request {
        name: name.to_string(),
        method: "GET".to_string(),
        url: url.to_string(),
        headers: None,
        body: None,
        dependencies: if deps.is_empty() {
            None
        } else {
            Some(deps.into_iter().map(|(k, d)| (k.to_string(), d)).collect())
        },
        masking_rules: Vec::<MaskingRule>::new(),
    }
}

fn ok_http(text: &str) -> HttpOutcome {
    HttpOutcome::Success {
        status: 200,
        headers: Vec::new(),
        text: text.to_string(),
    }
}

#[test]
fn plain_template_runs_unchanged() {
    let e = Executor::new(
        vec![request("one", "http://example/plain", vec![])],
        options(Some("one")),
    );
    match e.step() {
        EngineStep::Perform { request: rr } => {
            assert_eq!(rr.name, "one");
            assert_eq!(rr.method, "GET");
            assert_eq!(rr.url, "http://example/plain");
        },
        other => panic!("expected a perform, got {:?}", other),
    }
}

#[test]
fn resolution_is_repeatable_without_reprompting() {
    let mut e = Executor::new(
        vec![request(
            "one",
            "http://example/{a}/{a}",
            vec![("a", Dependency::Prompt { label: "A".to_string() })],
        )],
        options(Some("one")),
    );
    match e.step() {
        EngineStep::NeedPrompt { label } => assert_eq!(label, "A"),
        other => panic!("expected a prompt, got {:?}", other),
    }
    e.provide_prompt("A".to_string(), Some("v".to_string()));
    for _ in 0..2 {
        match e.step() {
            EngineStep::Perform { request: rr } => {
                assert_eq!(rr.url, "http://example/v/v");
            },
            other => panic!("expected a perform, got {:?}", other),
        }
    }
}

#[test]
fn prerequisite_request_performed_exactly_once() {
    let main = request(
        "main",
        "http://x/{tok}/{tok2}",
        vec![
            (
                "tok",
                Dependency::Response {
                    request: "login".to_string(),
                    target: ResponseTarget::JsonBody { pointer: "/user/id".to_string() },
                },
            ),
            (
                "tok2",
                Dependency::Response {
                    request: "login".to_string(),
                    target: ResponseTarget::JsonBody { pointer: "/user/name".to_string() },
                },
            ),
        ],
    );
    let login = request("login", "http://login", vec![]);
    let mut e = Executor::new(vec![main, login], options(Some("main")));
    match e.step() {
        EngineStep::Perform { request: rr } => assert_eq!(rr.name, "login"),
        other => panic!("expected the prerequisite, got {:?}", other),
    }
    assert!(e.provide_http(
        "login".to_string(),
        ok_http("{\"user\": {\"id\": 42, \"name\": \"ann\"}}"),
    ));
    match e.step() {
        EngineStep::Perform { request: rr } => {
            assert_eq!(rr.name, "main");
            assert_eq!(rr.url, "http://x/42/ann");
        },
        other => panic!("expected the main request, got {:?}", other),
    }
    assert!(e.provide_http("main".to_string(), ok_http("{}")));
    assert!(matches!(e.step(), EngineStep::Finished));
    assert_eq!(e.last_response().unwrap().request.name, "main");
    e.advance();
    assert!(matches!(e.step(), EngineStep::RunComplete));
}

#[test]
fn structured_body_round_trip() {
    let mut req = request(
        "one",
        "http://example",
        vec![(
            "token",
            Dependency::EnvVar { name: "TOKEN".to_string(), prompt: None },
        )],
    );
    req.body = Some(RequestBody::Json(Json::Obj(vec![(
        "id".to_string(),
        Json::Str("{token}".to_string()),
    )])));
    let mut e = Executor::new(vec![req], options(Some("one")));
    match e.step() {
        EngineStep::NeedEnvVar { name } => assert_eq!(name, "TOKEN"),
        other => panic!("expected an environment lookup, got {:?}", other),
    }
    e.provide_env_var("TOKEN".to_string(), Some("abc123".to_string()));
    match e.step() {
        EngineStep::Perform { request: rr } => match rr.body {
            Some(ResolvedBody::Json(v)) => {
                assert_eq!(
                    v,
                    Json::Obj(vec![(
                        "id".to_string(),
                        Json::Str("abc123".to_string()),
                    )])
                );
            },
            other => panic!("expected a structured body, got {:?}", other),
        },
        other => panic!("expected a perform, got {:?}", other),
    }
}

#[test]
fn verbatim_numbers_survive_body_resolution() {
    let mut req = request(
        "one",
        "http://example",
        vec![(
            "token",
            Dependency::EnvVar { name: "TOKEN".to_string(), prompt: None },
        )],
    );
    req.body = Some(RequestBody::Json(Json::Obj(vec![
        ("pi".to_string(), Json::Num("3.14".to_string())),
        ("id".to_string(), Json::Str("{token}".to_string())),
    ])));
    let mut e = Executor::new(vec![req], options(Some("one")));
    assert!(matches!(e.step(), EngineStep::NeedEnvVar { .. }));
    e.provide_env_var("TOKEN".to_string(), Some("abc".to_string()));
    match e.step() {
        EngineStep::Perform { request: rr } => match rr.body {
            Some(ResolvedBody::Json(v)) => {
                assert_eq!(
                    v,
                    Json::Obj(vec![
                        ("pi".to_string(), Json::Num("3.14".to_string())),
                        ("id".to_string(), Json::Str("abc".to_string())),
                    ])
                );
            },
            other => panic!("expected a structured body, got {:?}", other),
        },
        other => panic!("expected a perform, got {:?}", other),
    }
}

#[test]
fn undeclared_placeholder_names_itself() {
    let e = Executor::new(
        vec![request("one", "http://x/{ghost}", vec![])],
        options(Some("one")),
    );
    match e.step() {
        EngineStep::Failed { error } => {
            assert_eq!(
                error,
                ExecutionError::DependencyResolutionFailed(
                    DependencyResolutionError::PlaceholderDefinitionNotFound {
                        placeholder: "ghost".to_string(),
                    },
                )
            );
        },
        other => panic!("expected a failure, got {:?}", other),
    }
}

#[test]
fn failed_run_aborts_before_later_requests() {
    let mut e = Executor::new(
        vec![
            request("a", "http://a", vec![]),
            request("b", "http://b", vec![]),
            request("c", "http://c", vec![]),
        ],
        options(None),
    );
    match e.step() {
        EngineStep::Perform { request: rr } => assert_eq!(rr.name, "a"),
        other => panic!("expected the first request, got {:?}", other),
    }
    e.provide_http("a".to_string(), ok_http("{}"));
    assert!(matches!(e.step(), EngineStep::Finished));
    e.advance();
    match e.step() {
        EngineStep::Perform { request: rr } => assert_eq!(rr.name, "b"),
        other => panic!("expected the second request, got {:?}", other),
    }
    e.provide_http(
        "b".to_string(),
        HttpOutcome::Failure { message: "connection refused".to_string() },
    );
    for _ in 0..3 {
        match e.step() {
            EngineStep::Failed { error } => {
                assert_eq!(
                    error,
                    ExecutionError::Unknown("connection refused".to_string())
                );
            },
            other => panic!("the run must stay failed, got {:?}", other),
        }
        e.advance();
    }
}

#[test]
fn env_var_falls_back_to_prompt() {
    let mut e = Executor::new(
        vec![request(
            "one",
            "http://x/{k}",
            vec![(
                "k",
                Dependency::EnvVar {
                    name: "MISSING".to_string(),
                    prompt: Some("Enter value".to_string()),
                },
            )],
        )],
        options(Some("one")),
    );
    assert!(matches!(e.step(), EngineStep::NeedEnvVar { .. }));
    e.provide_env_var("MISSING".to_string(), None);
    match e.step() {
        EngineStep::NeedEnvVarPrompt { name, label } => {
            assert_eq!(name, "MISSING");
            assert_eq!(label, "Enter value");
        },
        other => panic!("expected the fallback prompt, got {:?}", other),
    }
    e.provide_env_var_prompt("MISSING".to_string(), Some("typed".to_string()));
    match e.step() {
        EngineStep::Perform { request: rr } => assert_eq!(rr.url, "http://x/typed"),
        other => panic!("expected a perform, got {:?}", other),
    }
}

#[test]
fn two_variables_sharing_a_prompt_are_asked_separately() {
    let mut e = Executor::new(
        vec![request(
            "one",
            "http://x/{a}/{b}",
            vec![
                (
                    "a",
                    Dependency::EnvVar {
                        name: "FIRST".to_string(),
                        prompt: Some("Enter token".to_string()),
                    },
                ),
                (
                    "b",
                    Dependency::EnvVar {
                        name: "SECOND".to_string(),
                        prompt: Some("Enter token".to_string()),
                    },
                ),
            ],
        )],
        options(Some("one")),
    );
    assert!(matches!(e.step(), EngineStep::NeedEnvVar { .. }));
    e.provide_env_var("FIRST".to_string(), None);
    match e.step() {
        EngineStep::NeedEnvVarPrompt { name, .. } => assert_eq!(name, "FIRST"),
        other => panic!("expected the first fallback prompt, got {:?}", other),
    }
    e.provide_env_var_prompt("FIRST".to_string(), Some("one-value".to_string()));
    assert!(matches!(e.step(), EngineStep::NeedEnvVar { .. }));
    e.provide_env_var("SECOND".to_string(), None);
    match e.step() {
        EngineStep::NeedEnvVarPrompt { name, .. } => assert_eq!(name, "SECOND"),
        other => panic!("expected the second fallback prompt, got {:?}", other),
    }
    e.provide_env_var_prompt("SECOND".to_string(), Some("two-value".to_string()));
    match e.step() {
        EngineStep::Perform { request: rr } => {
            assert_eq!(rr.url, "http://x/one-value/two-value");
        },
        other => panic!("expected a perform, got {:?}", other),
    }
}

#[test]
fn env_var_without_prompt_fails_on_miss() {
    let mut e = Executor::new(
        vec![request(
            "one",
            "http://x/{k}",
            vec![(
                "k",
                Dependency::EnvVar { name: "MISSING".to_string(), prompt: None },
            )],
        )],
        options(Some("one")),
    );
    assert!(matches!(e.step(), EngineStep::NeedEnvVar { .. }));
    e.provide_env_var("MISSING".to_string(), None);
    match e.step() {
        EngineStep::Failed { error } => {
            assert_eq!(
                error,
                ExecutionError::DependencyResolutionFailed(
                    DependencyResolutionError::EnvVarDependencyFailed(
                        EnvVarResolverError::EnvVarNotFound { name: "MISSING".to_string() },
                    ),
                )
            );
        },
        other => panic!("expected a failure, got {:?}", other),
    }
}

#[test]
fn env_file_prompts_and_persists() {
    let mut e = Executor::new(
        vec![request(
            "one",
            "http://x/{k}",
            vec![(
                "k",
                Dependency::EnvFile {
                    env_file: "side.toml".to_string(),
                    key: "api_key".to_string(),
                    prompt: Some("Key?".to_string()),
                },
            )],
        )],
        options(Some("one")),
    );
    match e.step() {
        EngineStep::NeedEnvFile { path } => assert_eq!(path, "side.toml"),
        other => panic!("expected the side file, got {:?}", other),
    }
    e.provide_env_file(
        "side.toml".to_string(),
        Ok(vec![("other".to_string(), "1".to_string())]),
    );
    assert!(matches!(e.step(), EngineStep::NeedPrompt { .. }));
    e.provide_prompt("Key?".to_string(), Some("fresh".to_string()));
    let entries = match e.step() {
        EngineStep::NeedEnvFileSave { path, entries } => {
            assert_eq!(path, "side.toml");
            assert!(entries.contains(&("api_key".to_string(), "fresh".to_string())));
            entries
        },
        other => panic!("expected the write-back, got {:?}", other),
    };
    e.provide_env_file_save("side.toml".to_string(), entries, Ok(()));
    match e.step() {
        EngineStep::Perform { request: rr } => assert_eq!(rr.url, "http://x/fresh"),
        other => panic!("expected a perform, got {:?}", other),
    }
}

#[test]
fn file_and_secret_sources() {
    let mut e = Executor::new(
        vec![request(
            "one",
            "http://x/{f}/{s}",
            vec![
                ("f", Dependency::File { path: "token.txt".to_string() }),
                (
                    "s",
                    Dependency::OnePassword {
                        vault: "v".to_string(),
                        item: "i".to_string(),
                        field: "f".to_string(),
                    },
                ),
            ],
        )],
        options(Some("one")),
    );
    match e.step() {
        EngineStep::NeedFile { path } => assert_eq!(path, "token.txt"),
        other => panic!("expected the file read, got {:?}", other),
    }
    e.provide_file("token.txt".to_string(), Ok("  filetok \n".to_string()));
    match e.step() {
        EngineStep::NeedSecret { vault, item, field } => {
            assert_eq!((vault.as_str(), item.as_str(), field.as_str()), ("v", "i", "f"));
        },
        other => panic!("expected the secret fetch, got {:?}", other),
    }
    e.provide_secret(
        "v".to_string(),
        "i".to_string(),
        "f".to_string(),
        glint::resolvers::one_password_resolver::SecretFetchOutcome::Output {
            success: true,
            stdout: Some("s3cr3t\n".to_string()),
            stderr: String::new(),
        },
    );
    match e.step() {
        EngineStep::Perform { request: rr } => assert_eq!(rr.url, "http://x/filetok/s3cr3t"),
        other => panic!("expected a perform, got {:?}", other),
    }
}

#[test]
fn cyclic_dependencies_are_reported() {
    let a = request(
        "a",
        "http://a/{t}",
        vec![(
            "t",
            Dependency::Response {
                request: "b".to_string(),
                target: ResponseTarget::JsonBody { pointer: "/v".to_string() },
            },
        )],
    );
    let b = request(
        "b",
        "http://b/{t}",
        vec![(
            "t",
            Dependency::Response {
                request: "a".to_string(),
                target: ResponseTarget::JsonBody { pointer: "/v".to_string() },
            },
        )],
    );
    let e = Executor::new(vec![a, b], options(Some("a")));
    match e.step() {
        EngineStep::Failed { error } => {
            assert!(
                matches!(
                    error,
                    ExecutionError::DependencyResolutionFailed(
                        DependencyResolutionError::CyclicDependency { ref request },
                    ) if request == "a"
                ),
                "got: {:?}",
                error
            );
        },
        other => panic!("expected a failure, got {:?}", other),
    }
}

#[test]
fn absent_requests_are_reported() {
    let e = Executor::new(
        vec![request("one", "http://x", vec![])],
        options(Some("ghost")),
    );
    match e.step() {
        EngineStep::Failed { error } => {
            assert_eq!(
                error,
                ExecutionError::RequestNotFound { request: "ghost".to_string() }
            );
        },
        other => panic!("expected a failure, got {:?}", other),
    }
    let e2 = Executor::new(
        vec![request(
            "one",
            "http://x/{t}",
            vec![(
                "t",
                Dependency::Response {
                    request: "ghost".to_string(),
                    target: ResponseTarget::HeaderValue { key: "X".to_string() },
                },
            )],
        )],
        options(Some("one")),
    );
    match e2.step() {
        EngineStep::Failed { error } => {
            assert_eq!(
                error,
                ExecutionError::DependencyResolutionFailed(
                    DependencyResolutionError::RequestNotFound {
                        request: "ghost".to_string(),
                    },
                )
            );
        },
        other => panic!("expected a failure, got {:?}", other),
    }
}

#[test]
fn header_extraction_from_prerequisite() {
    let main = request(
        "main",
        "http://x/{auth}",
        vec![(
            "auth",
            Dependency::Response {
                request: "login".to_string(),
                target: ResponseTarget::HeaderValue { key: "x-token".to_string() },
            },
        )],
    );
    let login = request("login", "http://login", vec![]);
    let mut e = Executor::new(vec![main, login], options(Some("main")));
    assert!(matches!(e.step(), EngineStep::Perform { .. }));
    e.provide_http(
        "login".to_string(),
        HttpOutcome::Success {
            status: 200,
            headers: vec![("X-Token".to_string(), Some("tok123".to_string()))],
            text: "{}".to_string(),
        },
    );
    match e.step() {
        EngineStep::Perform { request: rr } => assert_eq!(rr.url, "http://x/tok123"),
        other => panic!("expected the main request, got {:?}", other),
    }
}

#[test]
fn header_and_text_body_templates_resolve() {
    let mut req = request(
        "one",
        "http://example",
        vec![("t", Dependency::Prompt { label: "T".to_string() })],
    );
    req.headers = Some(vec![
        ("Authorization".to_string(), "Bearer {t}".to_string()),
        ("Accept".to_string(), "application/json".to_string()),
    ]);
    req.body = Some(RequestBody::Text("token={t}".to_string()));
    let mut e = Executor::new(vec![req], options(Some("one")));
    assert!(matches!(e.step(), EngineStep::NeedPrompt { .. }));
    e.provide_prompt("T".to_string(), Some("xyz".to_string()));
    match e.step() {
        EngineStep::Perform { request: rr } => {
            assert_eq!(
                rr.headers,
                vec![
                    ("Authorization".to_string(), "Bearer xyz".to_string()),
                    ("Accept".to_string(), "application/json".to_string()),
                ]
            );
            assert!(matches!(rr.body, Some(ResolvedBody::Text(t)) if t == "token=xyz"));
        },
        other => panic!("expected a perform, got {:?}", other),
    }
}

#[test]
fn form_body_values_resolve_and_keys_stand() {
    let mut req = request(
        "one",
        "http://example",
        vec![("v", Dependency::Prompt { label: "V".to_string() })],
    );
    req.body = Some(RequestBody::Form(vec![(
        "field".to_string(),
        "{v}".to_string(),
    )]));
    let mut e = Executor::new(vec![req], options(Some("one")));
    assert!(matches!(e.step(), EngineStep::NeedPrompt { .. }));
    e.provide_prompt("V".to_string(), Some("val".to_string()));
    match e.step() {
        EngineStep::Perform { request: rr } => {
            assert!(matches!(
                rr.body,
                Some(ResolvedBody::Form(fields))
                    if fields == vec![("field".to_string(), "val".to_string())]
            ));
        },
        other => panic!("expected a perform, got {:?}", other),
    }
}

#[test]
fn later_declaration_supersedes_earlier_one() {
    let e = Executor::new(
        vec![
            request("dup", "http://first", vec![]),
            request("dup", "http://second", vec![]),
        ],
        options(Some("dup")),
    );
    match e.step() {
        EngineStep::Perform { request: rr } => assert_eq!(rr.url, "http://second"),
        other => panic!("expected a perform, got {:?}", other),
    }
}
