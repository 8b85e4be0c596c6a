use okf_mcp::compiler::concurrency::{in_input_order, Window};
use okf_mcp::compiler::operations::{
    apply_operations, parse_compile_payload, strip_code_fence, CompileOperation, CompilePayload,
    FileAction,
};
use okf_mcp::vault::vault_resolver::SandboxError;

fn operation(value: &serde_json::Value) -> Result<CompileOperation, String> {
    let field = |name: &str| -> Result<String, String> {
        value
            .get(name)
            .and_then(|v| v.as_str())
            .map(|s| s.to_string())
            .ok_or(format!("missing field `{name}`"))
    };
    match field("action")?.as_str() {
        "CREATE_OR_UPDATE" => Ok(CompileOperation::CreateOrUpdate {
            path: field("path")?,
            content: field("content")?,
        }),
        "DELETE" => Ok(CompileOperation::Delete { path: field("path")?, reason: field("reason")? }),
        other => Err(format!("unknown variant `{other}`")),
    }
}

fn payload(text: &str) -> Result<CompilePayload, String> {
    let parsed = || -> Result<CompilePayload, String> {
        let value = serde_json::from_str::<serde_json::Value>(&strip_code_fence(text))
            .map_err(|e| e.to_string())?;
        let list = value
            .get("operations")
            .and_then(|v| v.as_array())
            .ok_or("missing field `operations`".to_string())?;
        let mut operations = Vec::new();
        for item in list {
            operations.push(operation(item)?);
        }
        Ok(CompilePayload { operations })
    };
    parse_compile_payload(parsed())
}

#[test]
fn parses_a_well_formed_payload() {
    let json = r#"{"operations": [
            {"action": "CREATE_OR_UPDATE", "path": "wiki/concepts/a.md", "content": "body"},
            {"action": "DELETE", "path": "wiki/concepts/old.md", "reason": "no active sources"}
        ]}"#;
    let payload = payload(json).unwrap();
    assert_eq!(payload.operations.len(), 2);
}

#[test]
fn tolerates_a_json_code_fence_around_the_payload() {
    let fenced = "```json\n{\"operations\": []}\n```";
    assert!(payload(fenced).is_ok());
    assert_eq!(strip_code_fence(fenced), "{\"operations\": []}");
    assert_eq!(strip_code_fence("```\n{}\n```"), "{}");
    assert_eq!(strip_code_fence(" {} "), "{}");
}

#[test]
fn rejects_prose_wrapped_around_the_payload() {
    let prose = "Sure, here's the JSON:\n{\"operations\": []}\nHope that helps!";
    assert!(payload(prose).is_err());
}

#[test]
fn rejects_malformed_json() {
    let error = payload("{not valid json").unwrap_err();
    assert!(error.starts_with("LLM response was not valid CompilePayload JSON: "));
}

#[test]
fn rejects_an_unknown_action() {
    let json = r#"{"operations": [{"action": "RENAME", "path": "a.md"}]}"#;
    assert!(payload(json).is_err());
}

#[test]
fn apply_operations_creates_and_updates_files() {
    let payload = CompilePayload {
        operations: vec![CompileOperation::CreateOrUpdate {
            path: "wiki/concepts/new.md".to_string(),
            content: "hello".to_string(),
        }],
    };
    let plan = apply_operations("/vault", &payload);
    assert!(plan.refused.is_none());
    assert_eq!(plan.actions.len(), 1);
    match &plan.actions[0] {
        FileAction::Write { path, temporary, content } => {
            assert_eq!(path, "/vault/wiki/concepts/new.md");
            assert_eq!(temporary, "/vault/wiki/concepts/new.md.tmp");
            assert_eq!(content, "hello");
        }
        _ => panic!("expected a write"),
    }
}

#[test]
fn apply_operations_deletes_an_existing_file() {
    let payload = CompilePayload {
        operations: vec![CompileOperation::Delete {
            path: "wiki/concepts/old.md".to_string(),
            reason: "obsolete".to_string(),
        }],
    };
    let plan = apply_operations("/vault", &payload);
    assert!(plan.refused.is_none());
    match &plan.actions[0] {
        FileAction::Remove { path } => assert_eq!(path, "/vault/wiki/concepts/old.md"),
        _ => panic!("expected a removal"),
    }
}

#[test]
fn deleting_an_already_missing_file_is_not_an_error() {
    let payload = CompilePayload {
        operations: vec![CompileOperation::Delete {
            path: "wiki/concepts/never-existed.md".to_string(),
            reason: "n/a".to_string(),
        }],
    };
    assert!(apply_operations("/vault", &payload).refused.is_none());
}

#[test]
fn a_path_escaping_the_vault_is_rejected_not_written() {
    let payload = CompilePayload {
        operations: vec![
            CompileOperation::Delete {
                path: "wiki/a.md".to_string(),
                reason: "n/a".to_string(),
            },
            CompileOperation::CreateOrUpdate {
                path: "../../etc/passwd".to_string(),
                content: "malicious".to_string(),
            },
            CompileOperation::CreateOrUpdate {
                path: "wiki/b.md".to_string(),
                content: "never".to_string(),
            },
        ],
    };
    let plan = apply_operations("/vault", &payload);
    assert_eq!(plan.actions.len(), 1);
    let refusal = plan.refused.unwrap();
    assert_eq!(refusal.path, "../../etc/passwd");
    assert!(matches!(refusal.error, SandboxError::Escapes));
    let absolute = CompilePayload {
        operations: vec![CompileOperation::CreateOrUpdate {
            path: "/etc/passwd".to_string(),
            content: String::new(),
        }],
    };
    assert!(matches!(
        apply_operations("/vault", &absolute).refused.unwrap().error,
        SandboxError::Absolute
    ));
}

#[test]
fn limit_one_preserves_input_order() {
    let mut window = Window::new(4, 1);
    let mut order = Vec::new();
    while let Some(i) = window.next() {
        assert!(window.next().is_none());
        order.push(i);
        window.complete(true);
    }
    assert!(window.is_done());
    assert_eq!(order, vec![0, 1, 2, 3]);
}

#[test]
fn never_exceeds_configured_concurrency_limit() {
    let mut window = Window::new(10, 3);
    let mut in_hand = 0;
    let mut finished = 0;
    while !window.is_done() {
        while window.next().is_some() {
            in_hand += 1;
        }
        assert!(in_hand <= 3);
        window.complete(true);
        in_hand -= 1;
        finished += 1;
    }
    assert_eq!(finished, 10);
}

#[test]
fn limit_zero_is_treated_as_one_and_does_not_deadlock() {
    let mut window = Window::new(2, 0);
    assert_eq!(window.next(), Some(0));
    assert_eq!(window.next(), None);
    window.complete(true);
    assert_eq!(window.next(), Some(1));
}

#[test]
fn on_result_returning_false_stops_further_dispatch_but_not_in_flight_work() {
    let mut window = Window::new(10, 2);
    window.next();
    window.next();
    window.complete(false);
    assert_eq!(window.next(), None);
    assert!(!window.is_done());
    window.complete(true);
    assert_eq!(window.next(), None);
    assert!(window.is_done());
}

#[test]
fn results_come_back_in_the_order_of_the_items() {
    assert_eq!(in_input_order(vec![Some('a'), None, Some('c')]), vec!['a', 'c']);
}
