use rlm::think::{find_thought, take_thought, Agent, ThinkError, THOUGHT_LOGGED};
use serde_json::Value;

fn arguments(value: Value) -> Value {
    let mut map = serde_json::Map::new();
    map.insert("thought".to_string(), value);
    Value::Object(map)
}

#[test]
fn a_thought_is_acknowledged() {
    let agent = Agent {};
    let answer = agent.handle_think(&arguments(Value::from("first look at the logs"))).unwrap();
    assert_eq!(answer, THOUGHT_LOGGED);
    assert!(answer.starts_with("Thought logged."));
    assert_eq!(find_thought(&arguments(Value::from("x"))), Some("x"));
    assert_eq!(find_thought(&Value::from("x")), None);
}

#[test]
fn a_missing_thought_is_refused() {
    let agent = Agent {};
    for value in [Value::Null, Value::Object(serde_json::Map::new()), arguments(Value::from(3))] {
        let err = agent.handle_think(&value).unwrap_err();
        assert_eq!(err, ThinkError::Missing);
        assert_eq!(err.message(), "Missing 'thought' parameter");
    }
}

#[test]
fn a_blank_thought_is_refused() {
    let agent = Agent {};
    let err = agent.handle_think(&arguments(Value::from(" \n\t"))).unwrap_err();
    assert_eq!(err, ThinkError::Blank);
    assert_eq!(err.message(), "'thought' must be a non-empty string");
    assert_eq!(take_thought(Some("")), Err(ThinkError::Blank));
    assert_eq!(take_thought(None), Err(ThinkError::Missing));
    assert_eq!(take_thought(Some("x")).unwrap(), THOUGHT_LOGGED);
}
