use mustache::Context;
use mustache::ContextValue;
use mustache::Stack;

/// An owned JSON tree with the falsy policy of a JSON adapter: null,
/// false, the empty string and the number zero are falsy.
enum TJson {
    Null,
    Bool(bool),
    Number(String, bool),
    Text(String),
    Mapping(Vec<(String, TJson)>),
    Sequence(Vec<TJson>),
}

fn tjson(value: &serde_json::Value) -> TJson {
    match value {
        serde_json::Value::Null => TJson::Null,
        serde_json::Value::Bool(b) => TJson::Bool(*b),
        serde_json::Value::Number(n) => {
            let is_zero = if let Some(u) = n.as_u64() {
                u == 0
            } else if let Some(f) = n.as_f64() {
                f == 0.0
            } else if let Some(i) = n.as_i64() {
                i == 0
            } else {
                false
            };
            TJson::Number(n.to_string(), is_zero)
        }
        serde_json::Value::String(t) => TJson::Text(t.clone()),
        serde_json::Value::Object(entries) => TJson::Mapping(
            entries.iter().map(|(k, v)| (k.clone(), tjson(v))).collect(),
        ),
        serde_json::Value::Array(items) => {
            TJson::Sequence(items.iter().map(tjson).collect())
        }
    }
}

fn parse(text: &str) -> TJson {
    tjson(&serde_json::from_str::<serde_json::Value>(text).unwrap())
}

impl Context for TJson {
    fn child(&self, name: &str, _section: Option<(usize, usize)>) -> Option<&Self> {
        match self {
            TJson::Mapping(entries) => entries
                .iter()
                .find(|(key, _)| key == name)
                .map(|(_, value)| value),
            _ => None,
        }
    }

    fn children(&self) -> Option<Vec<&Self>> {
        match self {
            TJson::Sequence(items) => Some(items.iter().collect()),
            _ => None,
        }
    }

    fn value(&self) -> ContextValue {
        let text = match self {
            TJson::Bool(b) => b.to_string(),
            TJson::Number(n, _) => n.clone(),
            TJson::Text(t) => t.clone(),
            _ => String::new(),
        };
        ContextValue::Text(text)
    }

    fn is_falsy(&self) -> bool {
        match self {
            TJson::Null => true,
            TJson::Bool(b) => !*b,
            TJson::Number(_, is_zero) => *is_zero,
            TJson::Text(t) => t.is_empty(),
            _ => false,
        }
    }
}

fn json1() -> TJson {
    parse(
        r#"
        {
            "name": "John Doe",
            "age": 43,
            "phones": [
                {
                    "prefix": "+44",
                    "extension": "1234567"
                },
                {
                    "prefix": "+44",
                    "extension": "2345678"
                }
            ],
            "stuff": [
                "item1",
                "item2"
            ],
            "obj": {
                "part1": "xxx",
                "part2": "yyy"
            }
        }"#,
    )
}

fn ct(text: &str) -> ContextValue {
    ContextValue::Text(text.to_owned())
}

fn sct(text: &str) -> Option<ContextValue> {
    Some(ct(text))
}

#[test]
fn basic_access() {
    let root = json1();
    let mut stack = Stack::new(&root);

    assert_eq!(stack.get("name"), sct("John Doe"));
    assert!(!stack.push("xxx", None));
    assert!(stack.push("phones", None));
    assert_eq!(stack.get("prefix"), sct("+44"));
    assert_eq!(stack.get("extension"), sct("1234567"));
    assert_eq!(stack.get("aaa"), None);
    assert!(stack.next());
    assert_eq!(stack.get("prefix"), sct("+44"));
    assert_eq!(stack.get("extension"), sct("2345678"));
    assert!(!stack.next());
    assert_eq!(stack.get("age"), sct("43"));
}

#[test]
fn normal_backtrack() {
    let root = json1();
    let mut stack = Stack::new(&root);

    stack.push("phones", None);
    assert!(stack.push("stuff", None));
    assert_eq!(stack.value(), ct("item1"));
    assert!(stack.next());
    assert_eq!(stack.value(), ct("item2"));
    assert!(!stack.next());
    assert_eq!(stack.get("extension"), sct("1234567"));
}

#[test]
fn dotted_from_top() {
    let root = json1();
    let mut stack = Stack::new(&root);

    assert!(stack.push("obj.part2", None));
    assert_eq!(stack.value(), ct("yyy"));
}

#[test]
fn dotted_after_backtrack() {
    let root = json1();
    let mut stack = Stack::new(&root);

    stack.push("phones", None);
    assert!(stack.push("obj.part2", None));
    assert_eq!(stack.value(), ct("yyy"));
}

#[test]
fn backtrack_after_dotted() {
    let root = json1();
    let mut stack = Stack::new(&root);

    stack.push("phones", None);
    assert!(stack.push("obj.part2", None));
    assert!(stack.push("age", None));
}

#[test]
fn broken_chain() {
    let root = json1();
    let mut stack = Stack::new(&root);

    assert!(!stack.push("obj.part1.part2", None));
}

#[test]
fn failed_dotted_resolution_leaves_stack_unchanged() {
    let root = json1();
    let mut stack = Stack::new(&root);

    stack.push("name", None);
    assert!(!stack.push("obj.part1.part3", None));
    assert_eq!(stack.value(), ct("John Doe"));
}

#[test]
fn edge_case_safety() {
    let root = json1();
    let mut stack = Stack::new(&root);
    stack.truncate(0);
    assert!(!stack.next());

    let zero_int = tjson(&serde_json::from_str::<serde_json::Value>("0").unwrap());
    assert!(zero_int.is_falsy());

    let zero_float = tjson(&serde_json::from_str::<serde_json::Value>("0.0").unwrap());
    assert!(zero_float.is_falsy());

    let neg_zero = tjson(&serde_json::from_str::<serde_json::Value>("-0.0").unwrap());
    assert!(neg_zero.is_falsy());
}
