use glint::table::Table;
use glint::template::{scan_template, substitute};

fn bindings(pairs: Vec<(&str, &str)>) -> Table<String> {
    let mut t = Table::new();
    for (k, v) in pairs {
        t.insert(k.to_string(), v.to_string());
    }
    t
}

#[test]
fn scans_distinct_names_in_first_occurrence_order() {
    assert_eq!(
        scan_template("{a}/{b}/{a}"),
        vec!["a".to_string(), "b".to_string()]
    );
    assert_eq!(scan_template("no tokens here"), Vec::<String>::new());
    assert_eq!(scan_template("{}"), Vec::<String>::new());
    assert_eq!(scan_template("{not closed"), Vec::<String>::new());
    assert_eq!(scan_template("{bad name}"), Vec::<String>::new());
    assert_eq!(scan_template("x{tok_1}y"), vec!["tok_1".to_string()]);
}

#[test]
fn substitutes_every_occurrence() {
    let b = bindings(vec![("a", "1"), ("b", "2")]);
    assert_eq!(substitute("{a}-{b}-{a}", &b), "1-2-1");
}

#[test]
fn template_without_placeholders_is_unchanged() {
    let b = bindings(vec![("a", "1")]);
    assert_eq!(substitute("http://example/plain", &b), "http://example/plain");
}

#[test]
fn substitution_is_not_recursive() {
    let b = bindings(vec![("a", "{b}"), ("b", "2")]);
    assert_eq!(substitute("{a}", &b), "{b}");
}

#[test]
fn unbound_tokens_stand_as_they_are() {
    let b = bindings(vec![("a", "1")]);
    assert_eq!(substitute("{a}{missing}", &b), "1{missing}");
}

#[test]
fn braces_without_names_are_literal() {
    let b = bindings(vec![("a", "1")]);
    assert_eq!(substitute("{{a}}", &b), "{1}");
    assert_eq!(substitute("{ a }", &b), "{ a }");
}
