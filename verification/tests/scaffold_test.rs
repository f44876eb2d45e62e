use zentinel::scaffold::{
    new_agent, next_steps, render, to_pascal_case, validate_name, ProjectFile,
};


#[test]
fn pascal_case_from_hyphens_and_underscores() {
    assert_eq!(to_pascal_case("my-waf"), "MyWaf");
    assert_eq!(to_pascal_case("rate_limit"), "RateLimit");
    assert_eq!(to_pascal_case("auth"), "Auth");
    assert_eq!(to_pascal_case("a-b-c"), "ABC");
}

#[test]
fn name_validation_accepts_legal_names() {
    for name in ["auth", "my-waf", "geo2", "a"] {
        assert!(validate_name(name).is_ok(), "{name} should be valid");
    }
}

#[test]
fn name_validation_rejects_illegal_names() {
    for name in [
        "",
        "My-Waf",
        "9lives",
        "trailing-",
        "double--dash",
        "has space",
        "under_score",
    ] {
        assert!(validate_name(name).is_err(), "{name} should be rejected");
    }
}

fn files(name: &str) -> Vec<ProjectFile> {
    new_agent(name, "/tmp/agents", false, false).unwrap()
}

fn body(list: &[ProjectFile], path: &str) -> String {
    list.iter().find(|f| f.path == path).unwrap().contents.clone()
}

#[test]
fn generates_a_complete_project() {
    let list = files("my-waf");
    for f in [
        "Cargo.toml",
        "src/main.rs",
        "zentinel-agent.toml",
        "Dockerfile",
        "README.md",
        ".gitignore",
    ] {
        assert!(
            list.iter().any(|p| p.path == f),
            "missing generated file: {f}"
        );
    }

    let cargo = body(&list, "Cargo.toml");
    assert!(cargo.contains("name = \"my-waf\""));
    assert!(cargo.contains("zentinel-agent-protocol = \"0.6\""));

    let main = body(&list, "src/main.rs");
    assert!(main.contains("struct MyWafAgent;"));
    assert!(main.contains("impl AgentHandlerV2 for MyWafAgent"));
    assert!(main.contains("async fn on_request_headers"));
    assert!(main.contains("const AGENT_ID: &str = \"my-waf\";"));

    let readme = body(&list, "README.md");
    assert!(readme.contains("agent \"my-waf\""));
    assert!(readme.contains("unix-socket \"/tmp/my-waf.sock\""));
    assert_eq!(body(&list, ".gitignore"), "/target\n");
}

#[test]
fn no_placeholders_leak_into_output() {
    for name in ["edge-guard", "n-a-m-e", "p-a-s-c-a-l"] {
        let list = files(name);
        for f in [
            "Cargo.toml",
            "src/main.rs",
            "zentinel-agent.toml",
            "Dockerfile",
            "README.md",
        ] {
            let body = body(&list, f);
            assert!(!body.contains("__NAME__"), "unrendered __NAME__ in {f}");
            assert!(!body.contains("__PASCAL__"), "unrendered __PASCAL__ in {f}");
            assert!(
                !body.contains("__VERSION_REQ__"),
                "unrendered __VERSION_REQ__ in {f}"
            );
        }
    }
}

#[test]
fn refuses_to_overwrite_non_empty_dir_without_force() {
    let err = new_agent("taken", "/tmp/taken", true, false).unwrap_err();
    assert!(err.message.contains("already exists and is not empty"));
    assert!(err.message.contains("'/tmp/taken'"));

    // With --force it proceeds.
    let list = new_agent("taken", "/tmp/taken", true, true).unwrap();
    assert!(list.iter().any(|f| f.path == "Cargo.toml"));
}

#[test]
fn illegal_names_are_named_in_the_error() {
    let err = new_agent("Bad Name", "/tmp/x", true, false).unwrap_err();
    assert_eq!(
        err.message,
        "invalid agent name 'Bad Name': use lowercase letters, digits and single hyphens, starting with a letter (e.g. 'my-waf')"
    );
    assert!(validate_name(&"a".repeat(64)).is_ok());
    assert!(validate_name(&"a".repeat(65)).is_err());
    assert!(validate_name("caf\u{e9}").is_err());
}

#[test]
fn placeholders_are_replaced_from_the_left() {
    assert_eq!(
        render("a __NAME__ b__PASCAL__c __VERSION_REQ__", "x-y", "XY"),
        "a x-y bXYc 0.6"
    );
    assert_eq!(render("__NAME__NAME__", "n", "N"), "nNAME__");
    assert_eq!(render("___NAME__", "n", "N"), "_n");
    assert_eq!(render("no placeholder", "n", "N"), "no placeholder");
}

#[test]
fn next_steps_name_the_binary() {
    let text = next_steps("my-waf", "/tmp/my-waf");
    assert!(text.starts_with("Created agent 'my-waf' in /tmp/my-waf\n"));
    assert!(text.contains("./target/release/my-waf --grpc 0.0.0.0:50051"));
}

#[test]
fn type_names_may_complete_a_broken_placeholder() {
    // The type name of `n-a-m-e` is a piece of a placeholder.
    assert_eq!(to_pascal_case("n-a-m-e"), "NAME");
    assert_eq!(render("____PASCAL____", "n-a-m-e", "NAME"), "__NAME__");
    assert_eq!(render("____PASCAL____", "edge", "Edge"), "__Edge__");
    assert_eq!(
        render("x __PASCAL__Agent __NAME__ __VERSION_REQ__", "n-a-m-e", "NAME"),
        "x NAMEAgent n-a-m-e 0.6"
    );
}
