use domstyle::toolchain::cli::{parse_args, relative_path, CommandType};

fn args(v: &[&str]) -> Vec<String> {
    v.iter().map(|s| s.to_string()).collect()
}

#[test]
fn test_parse_args_errors() {
    assert_eq!(parse_args(&args(&["tc"])).unwrap_err(), "missing command");
    assert_eq!(parse_args(&args(&["tc", "build"])).unwrap_err(), "unknown command: build");
    assert_eq!(parse_args(&args(&["tc", "compile"])).unwrap_err(), "missing input directory");
    assert_eq!(parse_args(&args(&["tc", "compile", "demo", "--width"])).unwrap_err(), "missing value for --width");
    assert_eq!(parse_args(&args(&["tc", "compile", "demo", "--output"])).unwrap_err(), "missing value for -o");
    assert_eq!(parse_args(&args(&["tc", "compile", "demo", "--width", "abc"])).unwrap_err(), "invalid --width");
    assert_eq!(parse_args(&args(&["tc", "compile", "demo", "--height", "-3"])).unwrap_err(), "invalid --height");
    assert_eq!(parse_args(&args(&["tc", "compile", "demo", "extra"])).unwrap_err(), "unexpected argument: extra");
    assert_eq!(parse_args(&args(&["tc", "run", "-x"])).unwrap_err(), "unexpected argument: -x");
}

#[test]
fn test_parse_args_all_options() {
    let a = parse_args(&args(&[
        "tc", "run", "demo", "-o", "out", "--name", "app1", "--title", "T", "--width", "+1024", "--height", "768",
    ]))
    .unwrap();
    assert_eq!(a.command, CommandType::Run);
    assert_eq!(a.input_dir, "demo");
    assert_eq!(a.output_dir, "out");
    assert_eq!(a.name, "app1");
    assert_eq!(a.title, "T");
    assert_eq!(a.width, 1024);
    assert_eq!(a.height, 768);
}

#[test]
fn test_parse_args_defaults() {
    let a = parse_args(&args(&["tc", "compile", "examples/counter"])).unwrap();
    assert_eq!(a.command, CommandType::Compile);
    assert_eq!(a.name, "counter");
    assert_eq!(a.title, "Demo");
    assert_eq!(a.width, 800);
    assert_eq!(a.height, 600);
    assert_eq!(a.output_dir, "target/generated/counter");
}

#[test]
fn test_relative_path() {
    let from = args(&["r", "target", "generated", "counter"]);
    let to = args(&["r", "crates", "renderer"]);
    assert_eq!(relative_path(&from, &to), "../../../crates/renderer");
    assert_eq!(relative_path(&args(&["a", "b", "c"]), &args(&["a", "x", "y"])), "../../x/y");
    assert_eq!(relative_path(&args(&["a"]), &args(&["a", "b\\c"])), "b/c");
}

#[test]
fn test_parse_args_name_from_plain_directory() {
    let a = parse_args(&args(&["tc", "compile", "demo"])).unwrap();
    assert_eq!(a.input_dir, "demo");
    assert_eq!(a.name, "demo");
    assert_eq!(a.output_dir, "target/generated/demo");
}

#[test]
fn test_parse_args_name_from_absolute_and_trailing_slash() {
    assert_eq!(parse_args(&args(&["tc", "compile", "/home/u/proj"])).unwrap().name, "proj");
    assert_eq!(parse_args(&args(&["tc", "compile", "examples/counter/"])).unwrap().name, "counter");
    assert_eq!(parse_args(&args(&["tc", "compile", "/"])).unwrap().name, "app");
}
