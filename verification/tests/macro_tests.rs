use slang::builder::build_macros;
use slang::io_helpers::simplify_output;
use slang::macro_def::MacroError;
use slang::tokenizer::Tokenizer;

fn expand_str(defs: &[&str], input: &str) -> String {
    let tokenizer = Tokenizer::default();
    let mut sources: Vec<String> = Vec::new();
    for d in defs {
        sources.push(d.to_string());
    }
    let macros = build_macros(&tokenizer, &sources).unwrap();
    let tokens = tokenizer.tokenize(input);
    let mut out = simplify_output();
    macros.expand_tokens(&tokens, &mut out);
    out.into_string()
}

fn build_err(defs: &[&str]) -> MacroError {
    let tokenizer = Tokenizer::default();
    let mut sources: Vec<String> = Vec::new();
    for d in defs {
        sources.push(d.to_string());
    }
    match build_macros(&tokenizer, &sources) {
        Ok(_) => panic!("expected an error"),
        Err(e) => e,
    }
}

#[test]
fn simple_substitution() {
    assert_eq!(expand_str(&["name = X"], "name"), "X");
}

#[test]
fn function_style_capture() {
    assert_eq!(
        expand_str(&["add(a, b) = a + b is a,b"], "add(1, 2)"),
        "1 + 2 is 1,2"
    );
}

#[test]
fn block_capture_with_nesting() {
    assert_eq!(
        expand_str(&["foo { } = [block]"], "foo { x[1] }"),
        "[{ x[1] }]"
    );
}

#[test]
fn block_capture_counts_only_its_own_kind() {
    assert_eq!(
        expand_str(&["foo { } = [block]"], "foo { a { b } }"),
        "[{ a { b } }]"
    );
}

#[test]
fn no_re_expansion_of_output() {
    assert_eq!(expand_str(&["a = b", "b = c"], "a"), "b");
    assert_eq!(expand_str(&["a = b", "b = c"], "b"), "c");
}

#[test]
fn unmatched_input_passes_through_verbatim() {
    let input = "hello ( world )\n\tmore  text";
    assert_eq!(expand_str(&["name = X"], input), input);
}

#[test]
fn partial_match_passes_through() {
    // The function-style macro requires its parenthesized arguments; a
    // bare occurrence of the name must not be consumed.
    assert_eq!(expand_str(&["add(a, b) = sum"], "add alone"), "add alone");
    assert_eq!(expand_str(&["add(a, b) = sum"], "add(1, 2)"), "sum");
}

#[test]
fn expansion_continues_after_match() {
    assert_eq!(expand_str(&["x = y"], "x and x"), "yand y");
}

#[test]
fn several_definitions_in_one_source() {
    assert_eq!(expand_str(&["a = 1\nb = 2\n"], "a b"), "12");
}

#[test]
fn empty_template_erases_invocation() {
    assert_eq!(expand_str(&["gone ="], "gone stays"), "stays");
}

#[test]
fn empty_parameter_list() {
    assert_eq!(expand_str(&["nil() = z"], "nil()"), "z");
}

#[test]
fn definition_parse_error_names_fragment() {
    assert_eq!(
        build_err(&["name + x"]),
        MacroError::DefinitionParse {
            fragment: "+".to_string()
        }
    );
}

#[test]
fn pattern_conflict_names_macro() {
    assert_eq!(
        build_err(&["a = x", "a = y"]),
        MacroError::PatternConflict {
            name: "a".to_string()
        }
    );
}

#[test]
fn unmatched_block_in_definition() {
    assert_eq!(
        build_err(&["name {"]),
        MacroError::UnmatchedBlock { position: 1 }
    );
}

#[test]
fn unclosed_parameter_list() {
    assert_eq!(
        build_err(&["f(a, b"]),
        MacroError::UnmatchedBlock { position: 1 }
    );
}

#[test]
fn stray_token_in_parameter_list() {
    assert_eq!(
        build_err(&["f(a, b = t"]),
        MacroError::DefinitionParse {
            fragment: "=".to_string()
        }
    );
}

#[test]
fn block_with_content_in_definition_is_malformed() {
    assert_eq!(
        build_err(&["name { x } = t"]),
        MacroError::DefinitionParse {
            fragment: "x".to_string()
        }
    );
}

#[test]
fn unmatched_block_in_input_passes_through() {
    let input = "foo { never closed";
    assert_eq!(expand_str(&["foo { } = B"], input), input);
}

#[test]
fn captures_preserve_internal_whitespace() {
    assert_eq!(
        expand_str(&["wrap { } = (block)"], "wrap { a  +  b }"),
        "({ a  +  b })"
    );
}

#[test]
fn empty_store_is_identity() {
    let input = "any { text } at all\n";
    assert_eq!(expand_str(&[], input), input);
}

#[test]
fn empty_input_expands_to_nothing() {
    assert_eq!(expand_str(&["name = X"], ""), "");
}
