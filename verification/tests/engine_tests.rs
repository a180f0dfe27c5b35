use mustache::Context;
use mustache::ContextValue;
use mustache::MapsAndLists;
use mustache::Template;
use mustache::TemplateMap;

fn txt(t: &str) -> MapsAndLists {
    MapsAndLists::text(t)
}

fn map(entries: Vec<(&str, MapsAndLists)>) -> MapsAndLists {
    MapsAndLists::mapping(entries.into_iter().map(|(k, v)| (k.to_string(), v)).collect())
}

fn list(items: Vec<MapsAndLists>) -> MapsAndLists {
    MapsAndLists::sequence(items)
}

fn store(entries: Vec<(&str, &str)>) -> TemplateMap {
    TemplateMap::new(entries.into_iter().map(|(k, v)| (k.to_string(), v.to_string())).collect())
        .unwrap()
}

#[test]
fn empty_source_renders_empty() {
    let template = Template::from("").unwrap();
    assert_eq!(template.render(&MapsAndLists::null()), "");
}

#[test]
fn round_trip_plain_text() {
    let text = "plain text, no tags\nat all.";
    let template = Template::from(text).unwrap();
    assert_eq!(template.render(&MapsAndLists::null()), text);
}

#[test]
fn standalone_section_renders_empty() {
    let template = Template::from("{{#x}}\n{{/x}}\n").unwrap();
    let data = map(vec![("x", MapsAndLists::bool(true))]);
    assert_eq!(template.render(&data), "");
}

#[test]
fn non_standalone_section_keeps_whitespace() {
    let template = Template::from("before {{#x}}inner{{/x}} after").unwrap();
    let data = map(vec![("x", MapsAndLists::bool(true))]);
    assert_eq!(template.render(&data), "before inner after");
}

#[test]
fn standalone_partial_applies_indent() {
    let template = Template::from("x\n  {{>p}}\ny").unwrap();
    let partials = store(vec![("p", "a\nb\n")]);
    let data = MapsAndLists::null();
    assert_eq!(template.render_with_partials(&data, &partials), "x\n  a\n  b\ny");
}

#[test]
fn basic_interpolation_and_escape() {
    let template = Template::from("hello, {{you}}!").unwrap();
    let data = map(vec![("you", txt("<world>"))]);
    assert_eq!(template.render(&data), "hello, &lt;world&gt;!");
}

#[test]
fn raw_interpolation() {
    let template = Template::from("{{{raw}}}").unwrap();
    let data = map(vec![("raw", txt("<b>"))]);
    assert_eq!(template.render(&data), "<b>");
}

#[test]
fn ampersand_interpolation() {
    let template = Template::from("{{&raw}}").unwrap();
    let data = map(vec![("raw", txt("<b>"))]);
    assert_eq!(template.render(&data), "<b>");
}

#[test]
fn escape_applied_once() {
    let template = Template::from("{{v}}").unwrap();
    let data = map(vec![("v", txt("&"))]);
    assert_eq!(template.render(&data), "&amp;");
}

#[test]
fn escape_table_is_complete() {
    let template = Template::from("{{v}}").unwrap();
    let data = map(vec![("v", txt("&<>\"'/=`"))]);
    assert_eq!(template.render(&data), "&amp;&lt;&gt;&quot;&#39;&#47;&#61;&#96;");
}

#[test]
fn section_iteration_with_standalone_trim() {
    let template = Template::from("{{#team}}\nhello, {{address}} {{name}}!\n{{/team}}\n").unwrap();
    let data = map(vec![(
        "team",
        list(vec![
            map(vec![("name", txt("john")), ("address", txt("little"))]),
            map(vec![("name", txt("42")), ("address", txt("citizen"))]),
        ]),
    )]);
    assert_eq!(template.render(&data), "hello, little john!\nhello, citizen 42!\n");
}

#[test]
fn dotted_name_is_atomic() {
    let template = Template::from("{{a.b}}").unwrap();
    let data = map(vec![("a", map(vec![("c", txt("1"))])), ("b", txt("2"))]);
    assert_eq!(template.render(&data), "");
}

#[test]
fn simple_name_falls_back() {
    let template = Template::from("{{#outer}}{{x}}{{/outer}}").unwrap();
    let data = map(vec![("outer", map(vec![])), ("x", txt("hit"))]);
    assert_eq!(template.render(&data), "hit");
}

#[test]
fn inheritance_substitutes_blocks() {
    let template = Template::from("{{<p}}{{$slot}}override{{/slot}}{{/p}}").unwrap();
    let partials = store(vec![("p", "[{{$slot}}default{{/slot}}]")]);
    let data = MapsAndLists::null();
    assert_eq!(template.render_with_partials(&data, &partials), "[override]");
}

#[test]
fn inheritance_keeps_default_without_override() {
    let template = Template::from("{{<p}}{{/p}}").unwrap();
    let partials = store(vec![("p", "[{{$slot}}default{{/slot}}]")]);
    let data = MapsAndLists::null();
    assert_eq!(template.render_with_partials(&data, &partials), "[default]");
}

#[test]
fn dynamic_partial() {
    let template = Template::from("{{>*which}}").unwrap();
    let partials = store(vec![("greet", "hi {{name}}")]);
    let data = map(vec![("which", txt("greet")), ("name", txt("ada"))]);
    assert_eq!(template.render_with_partials(&data, &partials), "hi ada");
}

#[test]
fn dotted_section_name() {
    let template = Template::from("{{#a.b}}{{c}}{{/a.b}}").unwrap();
    let data = map(vec![("a", map(vec![("b", map(vec![("c", txt("deep"))]))]))]);
    assert_eq!(template.render(&data), "deep");
}

#[test]
fn dot_interpolates_current_item() {
    let template = Template::from("{{#items}}({{.}}){{/items}}").unwrap();
    let data = map(vec![("items", list(vec![txt("a"), txt("b")]))]);
    assert_eq!(template.render(&data), "(a)(b)");
}

#[test]
fn inverted_section_on_miss() {
    let template = Template::from("{{^x}}no{{/x}}").unwrap();
    let data = map(vec![]);
    assert_eq!(template.render(&data), "no");
}

#[test]
fn inverted_section_on_truthy() {
    let template = Template::from("{{^x}}no{{/x}}").unwrap();
    let data = map(vec![("x", MapsAndLists::bool(true))]);
    assert_eq!(template.render(&data), "");
}

#[test]
fn inverted_section_on_empty_sequence() {
    let template = Template::from("{{^x}}empty{{/x}}").unwrap();
    let data = map(vec![("x", list(vec![]))]);
    assert_eq!(template.render(&data), "empty");
}

#[test]
fn falsy_section_is_skipped() {
    let template = Template::from("a{{#x}}skip{{/x}}b").unwrap();
    let data = map(vec![("x", MapsAndLists::bool(false))]);
    assert_eq!(template.render(&data), "ab");
}

#[test]
fn sequence_check_renders_once_for_nonempty() {
    let template = Template::from("{{#?a}}yes{{/?a}}").unwrap();
    let data = map(vec![("a", list(vec![txt("1"), txt("2")]))]);
    assert_eq!(template.render(&data), "yes");
}

#[test]
fn sequence_check_skips_empty_sequence() {
    let template = Template::from("{{#?a}}yes{{/?a}}").unwrap();
    let data = map(vec![("a", list(vec![]))]);
    assert_eq!(template.render(&data), "");
}

#[test]
fn sequence_check_skips_non_sequence() {
    let template = Template::from("{{#?a}}yes{{/?a}}").unwrap();
    let data = map(vec![("a", txt("text"))]);
    assert_eq!(template.render(&data), "");
}

#[test]
fn comments_are_discarded() {
    let template = Template::from("a{{! ignore me }}b").unwrap();
    assert_eq!(template.render(&MapsAndLists::null()), "ab");
}

#[test]
fn delimiters_change() {
    let template = Template::from("{{=| |=}}|x|").unwrap();
    let data = map(vec![("x", txt("1"))]);
    assert_eq!(template.render(&data), "1");
}

#[test]
fn unmatched_close_names_section() {
    let err = Template::from("{{/lonely}}").unwrap_err();
    assert_eq!(err, "unexpected end of section lonely");
}

#[test]
fn mismatched_close_names_section() {
    let err = Template::from("{{#a}}{{/b}}").unwrap_err();
    assert_eq!(err, "unexpected end of section b");
}

#[test]
fn missing_close_delimiter_is_reported() {
    let err = Template::from("{{x").unwrap_err();
    assert_eq!(err, "reader error: missing close delimiter");
}

#[test]
fn invalid_delimiters_tag_is_reported() {
    let err = Template::from("{{= a=b c =}}").unwrap_err();
    assert_eq!(err, "reader error: invalid delimiters tag");
}

#[test]
fn empty_tag_is_reported() {
    let err = Template::from("{{}}").unwrap_err();
    assert_eq!(err, "reader error: empty tag");
}

#[test]
fn template_map_reports_failing_partial() {
    let err = TemplateMap::new(vec![
        ("good".to_string(), "fine".to_string()),
        ("bad".to_string(), "{{/x}}".to_string()),
    ])
    .unwrap_err();
    assert_eq!(err, "bad: unexpected end of section x");
}

#[test]
fn template_map_later_entry_wins() {
    let template = Template::from("{{>p}}").unwrap();
    let partials = store(vec![("p", "first"), ("p", "second")]);
    assert_eq!(template.render_with_partials(&MapsAndLists::null(), &partials), "second");
}

#[test]
fn missing_partial_renders_empty() {
    let template = Template::from("a{{>missing}}b").unwrap();
    let partials = store(vec![]);
    assert_eq!(template.render_with_partials(&MapsAndLists::null(), &partials), "ab");
}

#[test]
fn partial_without_store_renders_empty() {
    let template = Template::from("a{{>p}}b").unwrap();
    assert_eq!(template.render(&MapsAndLists::null()), "ab");
}

#[test]
fn recursive_partial_is_bounded() {
    let template = Template::from("{{>p}}").unwrap();
    let partials = store(vec![("p", "a{{>p}}")]);
    let result = template.render_with_partials(&MapsAndLists::null(), &partials);
    assert_eq!(result, "a".repeat(64));
}

#[test]
fn unclosed_section_still_compiles() {
    let template = Template::from("{{#a}}body").unwrap();
    let data = map(vec![("a", MapsAndLists::bool(true))]);
    assert_eq!(template.render(&data), "body");
}

/// An adapter whose leaves can be lambdas: the engine compiles and renders
/// the template text such a value produces.
enum LCtx {
    Obj(Vec<(String, LCtx)>),
    Text(String),
    Lambda(String),
}

impl Context for LCtx {
    fn child(&self, name: &str, _section: Option<(usize, usize)>) -> Option<&Self> {
        match self {
            LCtx::Obj(entries) => entries
                .iter()
                .find(|(key, _)| key == name)
                .map(|(_, value)| value),
            _ => None,
        }
    }

    fn children(&self) -> Option<Vec<&Self>> {
        None
    }

    fn value(&self) -> ContextValue {
        match self {
            LCtx::Text(t) => ContextValue::Text(t.clone()),
            LCtx::Lambda(t) => ContextValue::Lambda(t.clone()),
            _ => ContextValue::Text(String::new()),
        }
    }

    fn is_falsy(&self) -> bool {
        false
    }
}

#[test]
fn lambda_value_is_rendered_against_stack() {
    let template = Template::from("{{lam}}!").unwrap();
    let data = LCtx::Obj(vec![
        ("x".to_string(), LCtx::Text("7".to_string())),
        ("lam".to_string(), LCtx::Lambda("{{x}}".to_string())),
    ]);
    assert_eq!(template.render(&data), "7!");
}

#[test]
fn escaped_lambda_output_is_escaped_once() {
    let template = Template::from("{{lam}}").unwrap();
    let data = LCtx::Obj(vec![
        ("x".to_string(), LCtx::Text("<tag>".to_string())),
        ("lam".to_string(), LCtx::Lambda("{{{x}}}".to_string())),
    ]);
    assert_eq!(template.render(&data), "&lt;tag&gt;");
}

#[test]
fn raw_lambda_output_is_not_escaped() {
    let template = Template::from("{{&lam}}").unwrap();
    let data = LCtx::Obj(vec![
        ("x".to_string(), LCtx::Text("<tag>".to_string())),
        ("lam".to_string(), LCtx::Lambda("{{{x}}}".to_string())),
    ]);
    assert_eq!(template.render(&data), "<tag>");
}

#[test]
fn value_miss_renders_empty() {
    let template = Template::from("a{{missing}}b").unwrap();
    let data = map(vec![]);
    assert_eq!(template.render(&data), "ab");
}

#[test]
fn bool_renders_by_name() {
    let template = Template::from("{{a}},{{b}}").unwrap();
    let data = map(vec![("a", MapsAndLists::bool(true)), ("b", MapsAndLists::bool(false))]);
    assert_eq!(template.render(&data), "true,false");
}

#[test]
fn text_with_inner_newline_gets_indent() {
    let template = Template::from("{{>p}}").unwrap();
    let partials = store(vec![("p", "l1\nl2")]);
    let data = MapsAndLists::null();
    assert_eq!(template.render_with_partials(&data, &partials), "l1\nl2");
}

#[test]
fn dynamic_parent() {
    let template = Template::from("{{<*which}}{{$slot}}override{{/slot}}{{/*which}}").unwrap();
    let partials = store(vec![("p", "[{{$slot}}default{{/slot}}]")]);
    let data = map(vec![("which", txt("p"))]);
    assert_eq!(template.render_with_partials(&data, &partials), "[override]");
}

#[test]
fn partial_value_gets_indent() {
    let template = Template::from("x
  {{>p}}
y").unwrap();
    let partials = store(vec![("p", "{{v}}
")]);
    let data = map(vec![("v", txt("7"))]);
    assert_eq!(template.render_with_partials(&data, &partials), "x
  7
y");
}

#[test]
fn nested_partial_indent_accumulates() {
    let template = Template::from("  {{>outer}}
").unwrap();
    let partials = store(vec![("outer", " {{>inner}}
"), ("inner", "a
")]);
    let data = MapsAndLists::null();
    assert_eq!(template.render_with_partials(&data, &partials), "   a
");
}

#[test]
fn maps_and_lists_shapes() {
    let m = map(vec![("k", txt("v"))]);
    assert!(m.child_entry("k").is_some());
    assert!(m.child_entry("x").is_none());
    let s = list(vec![txt("a")]);
    assert_eq!(s.sequence_items().unwrap().len(), 1);
    assert!(s.child_entry("k").is_none());
    assert!(MapsAndLists::null().falsy());
    assert!(!MapsAndLists::bool(true).falsy());
    assert!(MapsAndLists::text("").falsy());
    assert_eq!(
        MapsAndLists::bool(false).content_value(),
        ContextValue::Text("false".to_string())
    );
    assert_eq!(MapsAndLists::null().content_value(), ContextValue::Text(String::new()));
}

#[test]
fn template_map_lookup_finds_latest() {
    let partials = store(vec![("p", "first"), ("p", "second"), ("q", "other")]);
    assert!(partials.lookup("missing").is_none());
    assert!(partials.lookup("p").is_some());
    assert!(partials.lookup("q").is_some());
}

#[test]
fn double_dot_name_never_resolves() {
    let template = Template::from("a{{x..y}}b").unwrap();
    let data = map(vec![("x", map(vec![("y", txt("v"))]))]);
    assert_eq!(template.render(&data), "ab");
}

#[test]
fn stack_rejects_double_dot_names() {
    let root = map(vec![("a", list(vec![txt("one")]))]);
    let mut stack = mustache::Stack::new(&root);
    let before = stack.len();
    assert!(!stack.push("a..", None));
    assert_eq!(stack.len(), before);
    assert!(stack.push("a", None));
}

#[test]
fn stack_push_truncate_restores_length() {
    let root = map(vec![("a", map(vec![("b", txt("x"))]))]);
    let mut stack = mustache::Stack::new(&root);
    let before = stack.len();
    assert!(stack.push("a", None));
    stack.truncate(before);
    assert_eq!(stack.len(), before);
    assert!(stack.push("a.b", None));
    stack.truncate(before);
    assert_eq!(stack.len(), before);
}
