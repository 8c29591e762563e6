//! Mappings from JavaScript built-ins to Rust code templates.
use vstd::prelude::*;

use crate::text::eq_str;

verus! {

/// A built-in mapping: the JavaScript API and the Rust template that
/// replaces it (`{0}`, `{1}`, .. stand for the arguments).
#[derive(Debug, Clone, Copy)]
pub struct BuiltinMapping {
    /// The JavaScript API, such as `console.log`.
    pub js_api: &'static str,
    /// The Rust template.
    pub rust_impl: &'static str,
}

/// The entries of a mapping list as `(api, template)` pairs.
pub open spec fn table_view(s: Seq<BuiltinMapping>) -> Seq<(Seq<char>, Seq<char>)> {
    s.map_values(|m: BuiltinMapping| (m.js_api@, m.rust_impl@))
}

/// The template of the first entry of `t` for the API `api`.
pub open spec fn lookup_table(t: Seq<(Seq<char>, Seq<char>)>, api: Seq<char>) -> Option<Seq<char>>
    decreases t.len(),
{
    if t.len() == 0 {
        None
    } else if t[0].0 == api {
        Some(t[0].1)
    } else {
        lookup_table(t.drop_first(), api)
    }
}

proof fn lemma_table_concat(a: Seq<BuiltinMapping>, b: Seq<BuiltinMapping>)
    ensures
        table_view(a + b) == table_view(a) + table_view(b),
{
    assert(table_view(a + b) =~= table_view(a) + table_view(b));
}

/// Appends `more` to `all`.
fn extend(all: &mut Vec<BuiltinMapping>, more: Vec<BuiltinMapping>)
    ensures
        table_view(final(all)@) == table_view(old(all)@) + table_view(more@),
{
    let mut m = more;
    let ghost a = all@;
    let ghost b = m@;
    all.append(&mut m);
    proof {
        lemma_table_concat(a, b);
    }
}

/// The entries of [`console_mappings`].
pub open spec fn console_table() -> Seq<(Seq<char>, Seq<char>)> {
    seq![
        ("console.log"@, "println!(\"[console.log] {}\", {0})"@),
        ("console.error"@, "eprintln!(\"[console.error] {}\", {0})"@),
        ("console.warn"@, "eprintln!(\"[console.warn] {}\", {0})"@),
    ]
}

/// The console API.
pub fn console_mappings() -> (r: Vec<BuiltinMapping>)
    ensures
        table_view(r@) == console_table(),
{
    let r = vec![
        BuiltinMapping { js_api: "console.log", rust_impl: "println!(\"[console.log] {}\", {0})" },
        BuiltinMapping { js_api: "console.error", rust_impl: "eprintln!(\"[console.error] {}\", {0})" },
        BuiltinMapping { js_api: "console.warn", rust_impl: "eprintln!(\"[console.warn] {}\", {0})" },
    ];
    assert(table_view(r@) =~= console_table());
    r
}

/// The entries of [`timer_mappings`].
pub open spec fn timer_table() -> Seq<(Seq<char>, Seq<char>)> {
    seq![
        ("setTimeout"@, "// setTimeout(callback, delay_ms) — Phase 2+"@),
        ("setInterval"@, "// setInterval(callback, interval_ms) — Phase 2+"@),
        ("clearTimeout"@, "// clearTimeout(id) — Phase 2+"@),
    ]
}

/// The timer API (not yet mapped: the templates are comments).
pub fn timer_mappings() -> (r: Vec<BuiltinMapping>)
    ensures
        table_view(r@) == timer_table(),
{
    let r = vec![
        BuiltinMapping { js_api: "setTimeout", rust_impl: "// setTimeout(callback, delay_ms) — Phase 2+" },
        BuiltinMapping { js_api: "setInterval", rust_impl: "// setInterval(callback, interval_ms) — Phase 2+" },
        BuiltinMapping { js_api: "clearTimeout", rust_impl: "// clearTimeout(id) — Phase 2+" },
    ];
    assert(table_view(r@) =~= timer_table());
    r
}

/// The entries of [`dom_mappings`].
pub open spec fn dom_table() -> Seq<(Seq<char>, Seq<char>)> {
    seq![
        ("document.createElement"@, "doc.borrow().create_element({0})"@),
        ("element.appendChild"@, "{0}.borrow_mut().append_child({1}.clone())"@),
        ("element.textContent"@, "{0}.borrow().text_content()"@),
        ("element.setAttribute"@, "{0}.borrow_mut().set_attribute({1}, {2})"@),
        ("element.getAttribute"@, "{0}.borrow().get_attribute({1})"@),
        ("element.addEventListener"@, "{0}.borrow_mut().add_event_listener({1}, Box::new(move |_: &dom::Event| {{ {2} }}))"@),
        ("element.classList.add"@, "{0}.borrow_mut().class_list().add({1})"@),
        ("element.querySelector"@, "// querySelector on element — Phase 2+"@),
    ]
}

/// The DOM API, called on the runtime's DOM directly.
pub fn dom_mappings() -> (r: Vec<BuiltinMapping>)
    ensures
        table_view(r@) == dom_table(),
{
    let r = vec![
        BuiltinMapping { js_api: "document.createElement", rust_impl: "doc.borrow().create_element({0})" },
        BuiltinMapping { js_api: "element.appendChild", rust_impl: "{0}.borrow_mut().append_child({1}.clone())" },
        BuiltinMapping { js_api: "element.textContent", rust_impl: "{0}.borrow().text_content()" },
        BuiltinMapping { js_api: "element.setAttribute", rust_impl: "{0}.borrow_mut().set_attribute({1}, {2})" },
        BuiltinMapping { js_api: "element.getAttribute", rust_impl: "{0}.borrow().get_attribute({1})" },
        BuiltinMapping { js_api: "element.addEventListener", rust_impl: "{0}.borrow_mut().add_event_listener({1}, Box::new(move |_: &dom::Event| {{ {2} }}))" },
        BuiltinMapping { js_api: "element.classList.add", rust_impl: "{0}.borrow_mut().class_list().add({1})" },
        BuiltinMapping { js_api: "element.querySelector", rust_impl: "// querySelector on element — Phase 2+" },
    ];
    assert(table_view(r@) =~= dom_table());
    r
}

/// The entries of [`math_mappings`].
pub open spec fn math_table() -> Seq<(Seq<char>, Seq<char>)> {
    seq![
        ("Math.abs"@, "({0}).abs()"@),
        ("Math.max"@, "({0}).max({1})"@),
        ("Math.min"@, "({0}).min({1})"@),
        ("Math.floor"@, "({0}).floor()"@),
        ("Math.ceil"@, "({0}).ceil()"@),
        ("Math.round"@, "({0}).round()"@),
        ("Math.random"@, "rand::random::<f64>()"@),
    ]
}

/// The `Math` functions.
pub fn math_mappings() -> (r: Vec<BuiltinMapping>)
    ensures
        table_view(r@) == math_table(),
{
    let r = vec![
        BuiltinMapping { js_api: "Math.abs", rust_impl: "({0}).abs()" },
        BuiltinMapping { js_api: "Math.max", rust_impl: "({0}).max({1})" },
        BuiltinMapping { js_api: "Math.min", rust_impl: "({0}).min({1})" },
        BuiltinMapping { js_api: "Math.floor", rust_impl: "({0}).floor()" },
        BuiltinMapping { js_api: "Math.ceil", rust_impl: "({0}).ceil()" },
        BuiltinMapping { js_api: "Math.round", rust_impl: "({0}).round()" },
        BuiltinMapping { js_api: "Math.random", rust_impl: "rand::random::<f64>()" },
    ];
    assert(table_view(r@) =~= math_table());
    r
}

/// The entries of [`typed_array_mappings`].
pub open spec fn typed_array_table() -> Seq<(Seq<char>, Seq<char>)> {
    seq![
        ("Uint8Array"@, "Vec<u8>"@),
        ("Uint16Array"@, "Vec<u16>"@),
        ("Uint32Array"@, "Vec<u32>"@),
        ("Int8Array"@, "Vec<i8>"@),
        ("Int16Array"@, "Vec<i16>"@),
        ("Int32Array"@, "Vec<i32>"@),
        ("Float32Array"@, "Vec<f32>"@),
        ("Float64Array"@, "Vec<f64>"@),
        ("ArrayBuffer"@, "Vec<u8>"@),
        ("TextEncoder"@, "// TextEncoder → String::into_bytes() (Phase 2)"@),
        ("TextDecoder"@, "// TextDecoder → String::from_utf8() (Phase 2)"@),
    ]
}

/// Typed arrays.
pub fn typed_array_mappings() -> (r: Vec<BuiltinMapping>)
    ensures
        table_view(r@) == typed_array_table(),
{
    let r = vec![
        BuiltinMapping { js_api: "Uint8Array", rust_impl: "Vec<u8>" },
        BuiltinMapping { js_api: "Uint16Array", rust_impl: "Vec<u16>" },
        BuiltinMapping { js_api: "Uint32Array", rust_impl: "Vec<u32>" },
        BuiltinMapping { js_api: "Int8Array", rust_impl: "Vec<i8>" },
        BuiltinMapping { js_api: "Int16Array", rust_impl: "Vec<i16>" },
        BuiltinMapping { js_api: "Int32Array", rust_impl: "Vec<i32>" },
        BuiltinMapping { js_api: "Float32Array", rust_impl: "Vec<f32>" },
        BuiltinMapping { js_api: "Float64Array", rust_impl: "Vec<f64>" },
        BuiltinMapping { js_api: "ArrayBuffer", rust_impl: "Vec<u8>" },
        BuiltinMapping { js_api: "TextEncoder", rust_impl: "// TextEncoder → String::into_bytes() (Phase 2)" },
        BuiltinMapping { js_api: "TextDecoder", rust_impl: "// TextDecoder → String::from_utf8() (Phase 2)" },
    ];
    assert(table_view(r@) =~= typed_array_table());
    r
}

/// The entries of [`async_mappings`].
pub open spec fn async_table() -> Seq<(Seq<char>, Seq<char>)> {
    seq![
        ("Promise"@, "// Promise<T> → impl Future<Output = T> (Phase 2+)"@),
        ("async"@, "// async fn → async fn (Phase 2+)"@),
        ("await"@, "// await → .await (Phase 2+)"@),
        ("Promise.resolve"@, "// Promise.resolve(v) → std::future::ready(v) (Phase 2+)"@),
        ("Promise.all"@, "// Promise.all([...]) → futures::join!(...) (Phase 2+)"@),
        ("new Promise"@, "// new Promise(executor) — Phase 2+: Future adapter"@),
    ]
}

/// Promises and async functions.
pub fn async_mappings() -> (r: Vec<BuiltinMapping>)
    ensures
        table_view(r@) == async_table(),
{
    let r = vec![
        BuiltinMapping { js_api: "Promise", rust_impl: "// Promise<T> → impl Future<Output = T> (Phase 2+)" },
        BuiltinMapping { js_api: "async", rust_impl: "// async fn → async fn (Phase 2+)" },
        BuiltinMapping { js_api: "await", rust_impl: "// await → .await (Phase 2+)" },
        BuiltinMapping { js_api: "Promise.resolve", rust_impl: "// Promise.resolve(v) → std::future::ready(v) (Phase 2+)" },
        BuiltinMapping { js_api: "Promise.all", rust_impl: "// Promise.all([...]) → futures::join!(...) (Phase 2+)" },
        BuiltinMapping { js_api: "new Promise", rust_impl: "// new Promise(executor) — Phase 2+: Future adapter" },
    ];
    assert(table_view(r@) =~= async_table());
    r
}

/// The entries of [`class_mappings`].
pub open spec fn class_table() -> Seq<(Seq<char>, Seq<char>)> {
    seq![
        ("class"@, "// class Foo → struct Foo + impl Foo (Phase 2+)"@),
        ("constructor"@, "// constructor() → fn new() (Phase 2+)"@),
        ("extends"@, "// extends → trait inheritance (Phase 2+)"@),
        ("super"@, "// super.method() → Trait::method(self) (Phase 2+)"@),
        ("this"@, "// this → &self / &mut self (Phase 2+)"@),
        ("Proxy"@, "// Proxy → compile-time accessor rewrite (Phase 2+)"@),
    ]
}

/// The class system.
pub fn class_mappings() -> (r: Vec<BuiltinMapping>)
    ensures
        table_view(r@) == class_table(),
{
    let r = vec![
        BuiltinMapping { js_api: "class", rust_impl: "// class Foo → struct Foo + impl Foo (Phase 2+)" },
        BuiltinMapping { js_api: "constructor", rust_impl: "// constructor() → fn new() (Phase 2+)" },
        BuiltinMapping { js_api: "extends", rust_impl: "// extends → trait inheritance (Phase 2+)" },
        BuiltinMapping { js_api: "super", rust_impl: "// super.method() → Trait::method(self) (Phase 2+)" },
        BuiltinMapping { js_api: "this", rust_impl: "// this → &self / &mut self (Phase 2+)" },
        BuiltinMapping { js_api: "Proxy", rust_impl: "// Proxy → compile-time accessor rewrite (Phase 2+)" },
    ];
    assert(table_view(r@) =~= class_table());
    r
}

/// The entries of [`object_mappings`].
pub open spec fn object_table() -> Seq<(Seq<char>, Seq<char>)> {
    seq![
        ("Object.create"@, "Object::create({0})"@),
        ("Object.defineProperty"@, "Object::define_property(&mut {0}, {1}, {2})"@),
        ("Object.defineProperties"@, "Object::define_properties(&mut {0}, {1})"@),
        ("Object.freeze"@, "Object::freeze(&mut {0})"@),
        ("Object.seal"@, "Object::seal(&mut {0})"@),
        ("Object.is"@, "Object::is({0}, {1})"@),
        ("Object.hasOwn"@, "Object::has_own(&{0}, {1})"@),
        ("Object.fromEntries"@, "Object::from_entries({0})"@),
        ("Object.getPrototypeOf"@, "Object::get_prototype_of(&{0})"@),
        ("Object.setPrototypeOf"@, "Object::set_prototype_of(&mut {0}, {1})"@),
    ]
}

/// The static methods of `Object`.
pub fn object_mappings() -> (r: Vec<BuiltinMapping>)
    ensures
        table_view(r@) == object_table(),
{
    let r = vec![
        BuiltinMapping { js_api: "Object.create", rust_impl: "Object::create({0})" },
        BuiltinMapping { js_api: "Object.defineProperty", rust_impl: "Object::define_property(&mut {0}, {1}, {2})" },
        BuiltinMapping { js_api: "Object.defineProperties", rust_impl: "Object::define_properties(&mut {0}, {1})" },
        BuiltinMapping { js_api: "Object.freeze", rust_impl: "Object::freeze(&mut {0})" },
        BuiltinMapping { js_api: "Object.seal", rust_impl: "Object::seal(&mut {0})" },
        BuiltinMapping { js_api: "Object.is", rust_impl: "Object::is({0}, {1})" },
        BuiltinMapping { js_api: "Object.hasOwn", rust_impl: "Object::has_own(&{0}, {1})" },
        BuiltinMapping { js_api: "Object.fromEntries", rust_impl: "Object::from_entries({0})" },
        BuiltinMapping { js_api: "Object.getPrototypeOf", rust_impl: "Object::get_prototype_of(&{0})" },
        BuiltinMapping { js_api: "Object.setPrototypeOf", rust_impl: "Object::set_prototype_of(&mut {0}, {1})" },
    ];
    assert(table_view(r@) =~= object_table());
    r
}

/// The entries of [`history_mappings`].
pub open spec fn history_table() -> Seq<(Seq<char>, Seq<char>)> {
    seq![
        ("history.pushState"@, "history.push_state({0}, {1}, {2})"@),
        ("history.replaceState"@, "history.replace_state({0}, {1}, {2})"@),
        ("history.back"@, "history.back()"@),
        ("history.forward"@, "history.forward()"@),
        ("history.go"@, "history.go({0})"@),
        ("history.length"@, "history.length()"@),
        ("history.state"@, "history.state()"@),
    ]
}

/// The History API.
pub fn history_mappings() -> (r: Vec<BuiltinMapping>)
    ensures
        table_view(r@) == history_table(),
{
    let r = vec![
        BuiltinMapping { js_api: "history.pushState", rust_impl: "history.push_state({0}, {1}, {2})" },
        BuiltinMapping { js_api: "history.replaceState", rust_impl: "history.replace_state({0}, {1}, {2})" },
        BuiltinMapping { js_api: "history.back", rust_impl: "history.back()" },
        BuiltinMapping { js_api: "history.forward", rust_impl: "history.forward()" },
        BuiltinMapping { js_api: "history.go", rust_impl: "history.go({0})" },
        BuiltinMapping { js_api: "history.length", rust_impl: "history.length()" },
        BuiltinMapping { js_api: "history.state", rust_impl: "history.state()" },
    ];
    assert(table_view(r@) =~= history_table());
    r
}

/// The entries of [`location_mappings`].
pub open spec fn location_table() -> Seq<(Seq<char>, Seq<char>)> {
    seq![
        ("location.href"@, "location.href()"@),
        ("location.host"@, "location.host()"@),
        ("location.pathname"@, "location.pathname()"@),
        ("location.search"@, "location.search()"@),
        ("location.hash"@, "location.hash()"@),
        ("location.protocol"@, "location.protocol()"@),
        ("location.assign"@, "location.assign({0})"@),
        ("location.replace"@, "location.replace({0})"@),
        ("location.reload"@, "location.reload()"@),
    ]
}

/// The Location API.
pub fn location_mappings() -> (r: Vec<BuiltinMapping>)
    ensures
        table_view(r@) == location_table(),
{
    let r = vec![
        BuiltinMapping { js_api: "location.href", rust_impl: "location.href()" },
        BuiltinMapping { js_api: "location.host", rust_impl: "location.host()" },
        BuiltinMapping { js_api: "location.pathname", rust_impl: "location.pathname()" },
        BuiltinMapping { js_api: "location.search", rust_impl: "location.search()" },
        BuiltinMapping { js_api: "location.hash", rust_impl: "location.hash()" },
        BuiltinMapping { js_api: "location.protocol", rust_impl: "location.protocol()" },
        BuiltinMapping { js_api: "location.assign", rust_impl: "location.assign({0})" },
        BuiltinMapping { js_api: "location.replace", rust_impl: "location.replace({0})" },
        BuiltinMapping { js_api: "location.reload", rust_impl: "location.reload()" },
    ];
    assert(table_view(r@) =~= location_table());
    r
}

/// The entries of [`url_mappings`].
pub open spec fn url_table() -> Seq<(Seq<char>, Seq<char>)> {
    seq![
        ("new URL"@, "URL::new({0}, {1})"@),
        ("url.href"@, "{0}.href()"@),
        ("url.host"@, "{0}.host()"@),
        ("url.pathname"@, "{0}.pathname()"@),
        ("url.search"@, "{0}.search()"@),
        ("url.searchParams"@, "{0}.search_params()"@),
        ("new URLSearchParams"@, "URLSearchParams::new({0})"@),
        ("params.get"@, "{0}.get({1})"@),
        ("params.set"@, "{0}.set({1}, {2})"@),
        ("params.has"@, "{0}.has({1})"@),
        ("params.delete"@, "{0}.delete({1})"@),
        ("params.toString"@, "{0}.to_string()"@),
        ("params.forEach"@, "{0}.for_each(|k, v| {{ {1} }})"@),
    ]
}

/// `URL` and `URLSearchParams`.
pub fn url_mappings() -> (r: Vec<BuiltinMapping>)
    ensures
        table_view(r@) == url_table(),
{
    let r = vec![
        BuiltinMapping { js_api: "new URL", rust_impl: "URL::new({0}, {1})" },
        BuiltinMapping { js_api: "url.href", rust_impl: "{0}.href()" },
        BuiltinMapping { js_api: "url.host", rust_impl: "{0}.host()" },
        BuiltinMapping { js_api: "url.pathname", rust_impl: "{0}.pathname()" },
        BuiltinMapping { js_api: "url.search", rust_impl: "{0}.search()" },
        BuiltinMapping { js_api: "url.searchParams", rust_impl: "{0}.search_params()" },
        BuiltinMapping { js_api: "new URLSearchParams", rust_impl: "URLSearchParams::new({0})" },
        BuiltinMapping { js_api: "params.get", rust_impl: "{0}.get({1})" },
        BuiltinMapping { js_api: "params.set", rust_impl: "{0}.set({1}, {2})" },
        BuiltinMapping { js_api: "params.has", rust_impl: "{0}.has({1})" },
        BuiltinMapping { js_api: "params.delete", rust_impl: "{0}.delete({1})" },
        BuiltinMapping { js_api: "params.toString", rust_impl: "{0}.to_string()" },
        BuiltinMapping { js_api: "params.forEach", rust_impl: "{0}.for_each(|k, v| {{ {1} }})" },
    ];
    assert(table_view(r@) =~= url_table());
    r
}

/// The entries of [`date_mappings`].
pub open spec fn date_table() -> Seq<(Seq<char>, Seq<char>)> {
    seq![
        ("new Date"@, "Date::now()"@),
        ("new Date.timestamp"@, "Date::from_timestamp({0})"@),
        ("new Date.string"@, "Date::parse({0})"@),
        ("date.getTime"@, "{0}.timestamp_ms()"@),
        ("date.getFullYear"@, "{0}.year()"@),
        ("date.getMonth"@, "{0}.month()"@),
        ("date.getDate"@, "{0}.day()"@),
        ("date.getHours"@, "{0}.hours()"@),
        ("date.getMinutes"@, "{0}.minutes()"@),
        ("date.getSeconds"@, "{0}.seconds()"@),
        ("date.getDay"@, "{0}.weekday()"@),
        ("date.toISOString"@, "{0}.to_iso_string()"@),
        ("date.toJSON"@, "{0}.to_iso_string()"@),
    ]
}

/// `Date`.
pub fn date_mappings() -> (r: Vec<BuiltinMapping>)
    ensures
        table_view(r@) == date_table(),
{
    let r = vec![
        BuiltinMapping { js_api: "new Date", rust_impl: "Date::now()" },
        BuiltinMapping { js_api: "new Date.timestamp", rust_impl: "Date::from_timestamp({0})" },
        BuiltinMapping { js_api: "new Date.string", rust_impl: "Date::parse({0})" },
        BuiltinMapping { js_api: "date.getTime", rust_impl: "{0}.timestamp_ms()" },
        BuiltinMapping { js_api: "date.getFullYear", rust_impl: "{0}.year()" },
        BuiltinMapping { js_api: "date.getMonth", rust_impl: "{0}.month()" },
        BuiltinMapping { js_api: "date.getDate", rust_impl: "{0}.day()" },
        BuiltinMapping { js_api: "date.getHours", rust_impl: "{0}.hours()" },
        BuiltinMapping { js_api: "date.getMinutes", rust_impl: "{0}.minutes()" },
        BuiltinMapping { js_api: "date.getSeconds", rust_impl: "{0}.seconds()" },
        BuiltinMapping { js_api: "date.getDay", rust_impl: "{0}.weekday()" },
        BuiltinMapping { js_api: "date.toISOString", rust_impl: "{0}.to_iso_string()" },
        BuiltinMapping { js_api: "date.toJSON", rust_impl: "{0}.to_iso_string()" },
    ];
    assert(table_view(r@) =~= date_table());
    r
}

/// The first-phase mappings: console, timers, DOM and `Math`, in that order.
pub fn all_builtins() -> (r: Vec<BuiltinMapping>)
    ensures
        table_view(r@) == console_table() + timer_table() + dom_table() + math_table(),
{
    let mut all: Vec<BuiltinMapping> = Vec::new();
    extend(&mut all, console_mappings());
    extend(&mut all, timer_mappings());
    extend(&mut all, dom_mappings());
    extend(&mut all, math_mappings());
    assert(table_view(Seq::<BuiltinMapping>::empty()) =~= Seq::<(Seq<char>, Seq<char>)>::empty());
    assert(Seq::<(Seq<char>, Seq<char>)>::empty() + console_table() =~= console_table());
    all
}

/// The Rust template for a JavaScript API among the first-phase mappings.
pub fn lookup_builtin(js_api: &str) -> (r: Option<&'static str>)
    ensures
        match r {
            Some(t) => lookup_table(console_table() + timer_table() + dom_table() + math_table(), js_api@)
                == Some(t@),
            None => lookup_table(console_table() + timer_table() + dom_table() + math_table(), js_api@)
                is None,
        },
{
    let all = all_builtins();
    let ghost t = table_view(all@);
    let mut i: usize = 0;
    proof {
        assert(t.skip(0) =~= t);
    }
    while i < all.len()
        invariant
            i <= all@.len(),
            t == table_view(all@),
            t == console_table() + timer_table() + dom_table() + math_table(),
            lookup_table(t, js_api@) == lookup_table(t.skip(i as int), js_api@),
        decreases all.len() - i,
    {
        proof {
            assert(t.skip(i as int)[0] == t[i as int]);
            assert(t.skip(i as int).drop_first() =~= t.skip(i + 1));
        }
        assert(t[i as int] == (all@[i as int].js_api@, all@[i as int].rust_impl@));
        if eq_str(all[i].js_api, js_api) {
            return Some(all[i].rust_impl);
        }
        i += 1;
    }
    None
}

/// The second-phase mappings: typed arrays, async and classes, in that order.
pub fn phase2_builtins() -> (r: Vec<BuiltinMapping>)
    ensures
        table_view(r@) == typed_array_table() + async_table() + class_table(),
{
    let mut all: Vec<BuiltinMapping> = Vec::new();
    extend(&mut all, typed_array_mappings());
    extend(&mut all, async_mappings());
    extend(&mut all, class_mappings());
    assert(table_view(Seq::<BuiltinMapping>::empty()) =~= Seq::<(Seq<char>, Seq<char>)>::empty());
    assert(Seq::<(Seq<char>, Seq<char>)>::empty() + typed_array_table() =~= typed_array_table());
    all
}

/// The third-phase mappings: `Object`, History, Location, URL and `Date`,
/// in that order.
pub fn phase3_builtins() -> (r: Vec<BuiltinMapping>)
    ensures
        table_view(r@) == object_table() + history_table() + location_table() + url_table()
            + date_table(),
{
    let mut all: Vec<BuiltinMapping> = Vec::new();
    extend(&mut all, object_mappings());
    extend(&mut all, history_mappings());
    extend(&mut all, location_mappings());
    extend(&mut all, url_mappings());
    extend(&mut all, date_mappings());
    assert(table_view(Seq::<BuiltinMapping>::empty()) =~= Seq::<(Seq<char>, Seq<char>)>::empty());
    assert(Seq::<(Seq<char>, Seq<char>)>::empty() + object_table() =~= object_table());
    all
}

} // verus!
