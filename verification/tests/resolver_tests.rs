use glint::json::Json;
use glint::request::{MaskingRule, Request, ResponseTarget};
use glint::resolvers::env_var_resolver::{EnvVarResolver, EnvVarResolverError};
use glint::resolvers::one_password_resolver::{
    OnePasswordResolver, OnePasswordResolverError, SecretFetchOutcome,
};
use glint::resolvers::prompt_resolver::{PromptResolver, PromptResolverError};
use glint::resolvers::request_resolver::{RequestResolver, RequestResolverError};
use glint::resolvers::response_resolver::{ResponseResolver, ResponseResolverError};
use glint::resolvers::Resolver;
use glint::response::Response;

fn plain_request(name: &str) -> Request {
    Request {
        name: name.to_string(),
        method: "GET".to_string(),
        url: "http://example".to_string(),
        headers: None,
        body: None,
        dependencies: None,
        masking_rules: Vec::<MaskingRule>::new(),
    }
}

fn stored_response(name: &str, text: &str, headers: Vec<(&str, Option<&str>)>) -> Response {
    Response {
        request: plain_request(name),
        headers: headers
            .into_iter()
            .map(|(k, v)| (k.to_string(), v.map(|x| x.to_string())))
            .collect(),
        status: 200,
        text: text.to_string(),
    }
}

#[test]
fn env_var_resolver_caches_and_misses() {
    let mut r = EnvVarResolver::new();
    assert_eq!(r.save_to_cache("HOME".to_string(), "/tmp".to_string()), None);
    assert_eq!(
        r.save_to_cache("HOME".to_string(), "/var".to_string()),
        Some("/tmp".to_string())
    );
    assert_eq!(
        r.resolve(("HOME".to_string(), None)),
        Ok("/var".to_string())
    );
    let miss = r.resolve(("ABSENT".to_string(), None));
    assert!(
        matches!(miss, Err(EnvVarResolverError::EnvVarNotFound { name }) if name == "ABSENT")
    );
}

#[test]
fn prompt_resolver_caches_and_misses() {
    let mut r = PromptResolver::new();
    assert_eq!(r.save_to_cache("label".to_string(), "typed".to_string()), None);
    assert_eq!(r.resolve("label".to_string()), Ok("typed".to_string()));
    let miss = r.resolve("other".to_string());
    assert!(matches!(miss, Err(PromptResolverError::PromptFailed { key }) if key == "other"));
}

#[test]
fn secret_classification() {
    let mut r = OnePasswordResolver::new();
    let args = |outcome| ("v".to_string(), "i".to_string(), "f".to_string(), outcome);
    assert_eq!(
        r.resolve(args(SecretFetchOutcome::Output {
            success: true,
            stdout: Some("  s3cr3t\n".to_string()),
            stderr: String::new(),
        })),
        Ok("s3cr3t".to_string())
    );
    assert!(matches!(
        r.resolve(args(SecretFetchOutcome::CliNotFound)),
        Err(OnePasswordResolverError::CliNotFound)
    ));
    assert!(matches!(
        r.resolve(args(SecretFetchOutcome::Output {
            success: true,
            stdout: None,
            stderr: String::new(),
        })),
        Err(OnePasswordResolverError::ParseError)
    ));
    assert!(matches!(
        r.resolve(args(SecretFetchOutcome::Output {
            success: false,
            stdout: None,
            stderr: "[ERROR] Vault not found".to_string(),
        })),
        Err(OnePasswordResolverError::VaultNotFound { vault }) if vault == "v"
    ));
    assert!(matches!(
        r.resolve(args(SecretFetchOutcome::Output {
            success: false,
            stdout: None,
            stderr: "Item not found in vault".to_string(),
        })),
        Err(OnePasswordResolverError::ItemNotFound { item, .. }) if item == "i"
    ));
    assert!(matches!(
        r.resolve(args(SecretFetchOutcome::Output {
            success: false,
            stdout: None,
            stderr: "Field not found on item".to_string(),
        })),
        Err(OnePasswordResolverError::FieldNotFound { field, .. }) if field == "f"
    ));
    let unclassified = r.resolve(args(SecretFetchOutcome::Output {
        success: false,
        stdout: None,
        stderr: "boom".to_string(),
    }));
    assert!(matches!(
        unclassified,
        Err(OnePasswordResolverError::FetchError { reference, message })
            if reference == "op://v/i/f" && message == "boom"
    ));
}

#[test]
fn request_resolver_extracts_by_pointer() {
    let mut r = RequestResolver::new();
    let body = Json::Obj(vec![(
        "user".to_string(),
        Json::Obj(vec![("id".to_string(), Json::Int(42))]),
    )]);
    assert!(r.save_to_history("login".to_string(), body).is_none());
    assert_eq!(
        r.resolve(("login".to_string(), "/user/id".to_string())),
        Ok("42".to_string())
    );
    assert!(matches!(
        r.resolve(("login".to_string(), "/nope".to_string())),
        Err(RequestResolverError::InvalidPath { .. })
    ));
    assert!(matches!(
        r.resolve(("ghost".to_string(), "/user/id".to_string())),
        Err(RequestResolverError::RequestNotFound { .. })
    ));
}

#[test]
fn response_resolver_body_extraction() {
    let mut r = ResponseResolver::new();
    r.save_to_history(stored_response("login", "{\"user\": {\"id\": 42}}", vec![]));
    assert_eq!(
        r.resolve((
            "login".to_string(),
            ResponseTarget::JsonBody { pointer: "/user/id".to_string() },
        )),
        Ok("42".to_string())
    );
}

#[test]
fn response_resolver_null_field_is_empty_string() {
    let mut r = ResponseResolver::new();
    r.save_to_history(stored_response("login", "{\"token\": null}", vec![]));
    assert_eq!(
        r.resolve((
            "login".to_string(),
            ResponseTarget::JsonBody { pointer: "/token".to_string() },
        )),
        Ok(String::new())
    );
}

#[test]
fn response_resolver_error_cases() {
    let mut r = ResponseResolver::new();
    r.save_to_history(stored_response(
        "login",
        "not json",
        vec![("Content-Type", Some("text/plain")), ("X-Raw", None)],
    ));
    assert!(matches!(
        r.resolve((
            "ghost".to_string(),
            ResponseTarget::HeaderValue { key: "X".to_string() },
        )),
        Err(ResponseResolverError::RequestNotFound { .. })
    ));
    assert_eq!(
        r.resolve((
            "login".to_string(),
            ResponseTarget::HeaderValue { key: "content-type".to_string() },
        )),
        Ok("text/plain".to_string())
    );
    assert!(matches!(
        r.resolve((
            "login".to_string(),
            ResponseTarget::HeaderValue { key: "X-Raw".to_string() },
        )),
        Err(ResponseResolverError::InvalidHeaderFormat { .. })
    ));
    assert!(matches!(
        r.resolve((
            "login".to_string(),
            ResponseTarget::HeaderValue { key: "Absent".to_string() },
        )),
        Err(ResponseResolverError::HeaderNotFound { .. })
    ));
    assert!(matches!(
        r.resolve((
            "login".to_string(),
            ResponseTarget::JsonBody { pointer: "/user".to_string() },
        )),
        Err(ResponseResolverError::InvalidPath { .. })
    ));
}

#[test]
fn last_write_wins_in_history() {
    let mut r = ResponseResolver::new();
    r.save_to_history(stored_response("a", "{\"v\": 1}", vec![]));
    let prior = r.save_to_history(stored_response("a", "{\"v\": 2}", vec![]));
    assert_eq!(prior.unwrap().text, "{\"v\": 1}");
    assert_eq!(
        r.resolve((
            "a".to_string(),
            ResponseTarget::JsonBody { pointer: "/v".to_string() },
        )),
        Ok("2".to_string())
    );
}

#[test]
fn dependency_messages_name_their_subjects() {
    let e = glint::resolvers::response_resolver::ResponseResolverError::RequestNotFound {
        request: "login".to_string(),
    };
    assert_eq!(e.message(), "Request \"login\" was not found in history");
    let p = PromptResolverError::PromptFailed { key: "tok".to_string() };
    assert_eq!(p.message(), "Prompt for \"tok\" failed");
}

#[test]
fn response_body_parses_as_structured_value() {
    let r = stored_response("a", "{\"ok\": true}", vec![]);
    assert_eq!(
        r.json().unwrap(),
        Json::Obj(vec![("ok".to_string(), Json::Bool(true))])
    );
    let bad = stored_response("a", "not json", vec![]);
    assert!(bad.json().is_err());
}
