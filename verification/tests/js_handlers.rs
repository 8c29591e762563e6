use domstyle::toolchain::css::parse_css;
use domstyle::toolchain::html::HtmlElement;
use domstyle::toolchain::js::{build_html_lookup, compile_js, extract_event_handlers};

fn page() -> Vec<(String, HtmlElement)> {
    let mut d = HtmlElement::new("div");
    d.attributes.insert("class", "display");
    let mut b = HtmlElement::new("button");
    b.attributes.insert("id", "inc-btn");
    let l = HtmlElement::new("ul");
    vec![("display".to_string(), d), ("btn".to_string(), b), ("list".to_string(), l)]
}

#[test]
fn test_shared_counter_handler() {
    let lookup = build_html_lookup(&page());
    let js = "let count = 0;\nbtn.addEventListener('click', function() {\n  count = count + 1;\n  display.textContent = count;\n});\n";
    let (handlers, shared) = extract_event_handlers(js, &lookup, &[]);
    assert_eq!(handlers.len(), 1);
    assert_eq!(
        handlers[0].body_code,
        "*count_clone.borrow_mut() += 1;\ndisplay_clone.borrow_mut().set_text_content(&count_clone.borrow().to_string());"
    );
    assert_eq!(handlers[0].cloned_vars, vec!["display_clone".to_string()]);
    assert_eq!(handlers[0].shared_vars, vec!["count".to_string()]);
    assert_eq!(shared.len(), 1);
    assert_eq!(shared[0].name, "count");
    assert_eq!(shared[0].initial_value, "0");
    assert_eq!(shared[0].used_by_handlers, vec![0usize]);
}

#[test]
fn test_nested_handler_body() {
    let mut li_el = HtmlElement::new("li");
    li_el.attributes.insert("class", "todo-item");
    let vars = vec![
        ("btn".to_string(), HtmlElement::new("button")),
        ("li".to_string(), li_el),
        ("span".to_string(), HtmlElement::new("span")),
    ];
    let lookup = build_html_lookup(&vars);
    let js = "btn.addEventListener('click', function() {\n  const li = document.createElement('li');\n  const span = document.createElement('span');\n  span.addEventListener('click', function() {\n    li.classList.toggle('completed');\n  });\n});\n";
    let (handlers, _) = extract_event_handlers(js, &lookup, &[]);
    let expected = [
        "let li = doc_clone.borrow().create_element(\"li\");",
        "let span = doc_clone.borrow().create_element(\"span\");",
        "let li_clone = li.clone();",
        "span.borrow_mut().add_event_listener(\"click\", Box::new(move |_: &dom::Event| {",
        "    let mut li_ref = li_clone.borrow_mut();",
        "    let current = li_ref.get_attribute(\"class\").unwrap_or_default();",
        "    if current.contains(\"completed\") {",
        "        li_ref.set_attribute(\"class\", &current.replace(\" completed\", \"\").replace(\"completed\", \"\"));",
        "        li_ref.set_style(\"text-decoration: none; color: #333\");",
        "    } else {",
        "        li_ref.set_attribute(\"class\", &format!(\"{} completed\", current.trim()));",
        "        li_ref.set_style(\"text-decoration: line-through; color: #999\");",
        "    }",
        "}));",
    ]
    .join("\n");
    assert_eq!(handlers.len(), 1);
    assert_eq!(handlers[0].body_code, expected);
    assert_eq!(handlers[0].cloned_vars, vec!["doc_clone".to_string()]);
}

#[test]
fn test_if_body_handler() {
    let lookup = build_html_lookup(&page());
    let js = "btn.addEventListener('click', function() {\n  if (text !== '') {\n    count++;\n  }\n});\n";
    let (handlers, _) = extract_event_handlers(js, &lookup, &[]);
    assert_eq!(handlers[0].body_code, "if !text.is_empty() {\n    count += 1;\n}");
}

#[test]
fn test_statement_forms() {
    let lookup = build_html_lookup(&page());
    let js = "btn.addEventListener('click', function() {\n  var x = 5;\n  var y;\n  x instanceof Foo;\n  queueMicrotask(tick);\n  alert('hi');\n});\n";
    let (handlers, _) = extract_event_handlers(js, &lookup, &[]);
    assert_eq!(
        handlers[0].body_code,
        "let mut x = 5;\nlet mut y = None::<String>; // var declaration\nx.is_instance_of::<Foo>();\nqueue_microtask(tick);\n// alert('hi'); // (JS → Rust)"
    );
}

#[test]
fn test_function_call_inlined() {
    let lookup = build_html_lookup(&page());
    let js = "function show(msg) {\n  display.textContent = msg;\n}\nbtn.addEventListener('click', function() {\n  show('hi');\n});\n";
    let (handlers, _) = extract_event_handlers(js, &lookup, &[]);
    assert_eq!(handlers.len(), 1);
    assert_eq!(handlers[0].body_code, "display_clone.borrow_mut().set_text_content(\"hi\");");
}

#[test]
fn test_created_element_styles() {
    let rules = parse_css(".item { color: red; }");
    let js = "btn.addEventListener('click', function() {\n  const item = document.createElement('li');\n  item.className = 'item';\n  list.appendChild(item);\n});\n";
    let (handlers, _) = compile_js(js, &page(), &rules);
    assert_eq!(
        handlers[0].body_code,
        "let item = doc_clone.borrow().create_element(\"li\");\nitem.borrow_mut().set_attribute(\"class\", \"item\");\nitem.borrow_mut().set_style(\"color: red\");\nlist_clone.borrow_mut().append_child(item.clone());"
    );
    assert_eq!(handlers[0].cloned_vars, vec!["doc_clone".to_string(), "list_clone".to_string()]);
}

#[test]
fn test_handler_on_unknown_element_dropped() {
    let lookup = build_html_lookup(&page());
    let js = "nothing.addEventListener('click', function() {\n  x++;\n});\n";
    let (handlers, _) = extract_event_handlers(js, &lookup, &[]);
    assert_eq!(handlers.len(), 0);
}

#[test]
fn test_counter_not_marked_by_unresolved_handler() {
    let lookup = build_html_lookup(&page());
    let js = "let count = 0;\nghost.addEventListener('click', function() {\n  count = count + 1;\n});\nbtn.addEventListener('click', function() {\n  count = count + 1;\n});\n";
    let (handlers, shared) = extract_event_handlers(js, &lookup, &[]);
    assert_eq!(handlers.len(), 1);
    assert_eq!(handlers[0].element_var, "btn");
    assert_eq!(shared.len(), 1);
    assert_eq!(shared[0].used_by_handlers, vec![0usize]);
}
