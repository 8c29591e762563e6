use domstyle::toolchain::canvas_codegen::{canvas_mappings, compile_canvas_call, is_canvas_call};


#[test]
fn test_canvas_mappings_have_all_apis() {
    let mappings = canvas_mappings();
    assert!(mappings.len() >= 27);
}

#[test]
fn test_compile_fill_rect() {
    let result = compile_canvas_call("fillRect", &["10".into(), "20".into(), "100".into(), "50".into()], "ctx");
    assert!(result.is_some());
    assert!(result.unwrap().contains("fill_rect"));
}

#[test]
fn test_is_canvas_call() {
    assert!(is_canvas_call("fillRect"));
    assert!(is_canvas_call("beginPath"));
    assert!(is_canvas_call("drawImage"));
    assert!(!is_canvas_call("addEventListener"));
}

#[test]
fn test_canvas_arguments_as_written_when_not_integers() {
    let r = compile_canvas_call("moveTo", &["x".into(), "-3".into()], "c").unwrap();
    assert_eq!(r, "c.move_to(x, -3.0);");
    let r = compile_canvas_call("lineTo", &["1.5".into(), "2".into()], "c").unwrap();
    assert_eq!(r, "c.line_to(1.5, 2.0);");
}

#[test]
fn test_compile_fill_rect_gives_float_literals() {
    let r = compile_canvas_call("fillRect", &["10".into(), "20".into(), "100".into(), "50".into()], "ctx");
    assert_eq!(r.unwrap(), "ctx.fill_rect(10.0, 20.0, 100.0, 50.0);");
}
