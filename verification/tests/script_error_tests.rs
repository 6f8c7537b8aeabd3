use paintfe::script_error::ScriptError;

fn err(message: &str, line: Option<usize>, column: Option<usize>) -> ScriptError {
    ScriptError { message: message.to_string(), line, column }
}

#[test]
fn missing_closure_call_gets_a_tip() {
    let e = err(
        "Function not found: f (i64) (line 7, position 6) in closure call (line 1, pos 1)",
        Some(7),
        Some(6),
    );
    let expected = [
        "Error on line 7, column 6:",
        "  Could not find function: f (i64)",
        "",
        "  Tip: If this is a closure stored in a variable, use .call() syntax:",
        "    let f = |x| { x * 2 };",
        "    f.call(42);   // \u{e2}\u{153}\u{201c} correct",
        "    f(42);        // \u{e2}\u{153}\u{2014} won't work",
    ]
    .join("\n");
    assert_eq!(e.friendly_message(), expected);
}

#[test]
fn lowercase_function_name_gets_a_tip() {
    let e = err("Function not found: double_it (i64)", None, None);
    let msg = e.friendly_message();
    assert!(msg.starts_with("Script error:\n  Could not find function: double_it (i64)\n\n  Tip:"));
    assert!(msg.contains("    double_it.call(42);"));
}

#[test]
fn capitalised_long_function_name_gets_no_tip() {
    let e = err("Function not found: DrawThing (i64)", Some(2), None);
    assert_eq!(e.friendly_message(), "Error on line 2:\n  Could not find function: DrawThing (i64)");
}

#[test]
fn not_found_text_inside_the_message() {
    let e = err("Error: Function not found: g", None, Some(4));
    assert_eq!(e.friendly_message(), "Script error:\n  Error: Function not found: g");
}

#[test]
fn undeclared_variable() {
    let e = err("Variable not found: counter (line 3, position 5)", Some(3), None);
    let expected = [
        "Error on line 3:",
        "  Variable 'counter' is not defined.",
        "",
        "  Tip: Make sure you declared it with 'let' before using it:",
        "    let counter = 0;",
    ]
    .join("\n");
    assert_eq!(e.friendly_message(), expected);
}

#[test]
fn syntax_error() {
    let e = err("Syntax error: Expected ')' (line 2, position 9)", None, None);
    let expected = [
        "Script error:",
        "  Syntax error: Syntax error: Expected ')'",
        "",
        "  Tip: Check for missing semicolons, brackets, or typos near this line.",
    ]
    .join("\n");
    assert_eq!(e.friendly_message(), expected);
}

#[test]
fn type_error() {
    let e = err("Data type incorrect: f64 not supported here (line 1, position 3)", Some(1), Some(3));
    let expected = [
        "Error on line 1, column 3:",
        "  Type error: Data type incorrect: f64 not supported here",
        "",
        "  Tip: Rhai is strict about types. Use .to_float() or .to_int() to convert:",
        "    let x = 10;           // int",
        "    let y = x.to_float(); // now float",
    ]
    .join("\n");
    assert_eq!(e.friendly_message(), expected);
}

#[test]
fn operation_limit() {
    let e = err("Too many operations: 50000001", None, None);
    let expected = [
        "Script error:",
        "  Script exceeded the maximum operation limit (50 million ops).",
        "",
        "  Tip: Your script may have an infinite loop, or is processing",
        "  too many pixels. Try processing a smaller region with for_region(),",
        "  or use built-in apply_* functions which run natively.",
    ]
    .join("\n");
    assert_eq!(e.friendly_message(), expected);
}

#[test]
fn index_out_of_bounds() {
    let e = err("Array index 5 out of bounds (line 4, position 2)", Some(4), Some(2));
    let expected = [
        "Error on line 4, column 2:",
        "  Array index 5 out of bounds",
        "",
        "  Tip: An array index is out of bounds. Check array lengths",
        "  with .len() before accessing elements.",
    ]
    .join("\n");
    assert_eq!(e.friendly_message(), expected);
}

#[test]
fn internal_failure() {
    let e = err("Script panicked (internal error)", None, None);
    assert_eq!(
        e.friendly_message(),
        "Script error:\n  An internal error occurred (this is a bug in PaintFE).\n\n  Please report this issue."
    );
}

#[test]
fn cancellation() {
    let e = err("ErrorTerminated(\"x\")", None, None);
    assert_eq!(e.friendly_message(), "Script error:\n  Script was cancelled.");
    let e = err("Script execution cancelled", None, None);
    assert_eq!(e.friendly_message(), "Script error:\n  Script was cancelled.");
}

#[test]
fn anything_else_drops_the_position() {
    let e = err("Something odd (line 1, position 2)", None, None);
    assert_eq!(e.friendly_message(), "Script error:\n  Something odd");
    let e = err("Script cancelled by user", None, None);
    assert_eq!(e.friendly_message(), "Script error:\n  Script cancelled by user");
}
