use gosu_lsp::formatter::FormattingOptions;
use gosu_lsp::lsp::format_gosu;

fn default_options() -> FormattingOptions {
    FormattingOptions::default()
}

#[test]
fn main_trims_trailing_whitespace_and_final_blank_lines() {
    assert_eq!(
        format_gosu("class A {  \n}\t\n\n", default_options()),
        "class A {\n}\n"
    );
}

#[test]
fn main_preserves_empty_file() {
    assert_eq!(format_gosu("", default_options()), "");
}

#[test]
fn main_indents_nested_brace_blocks_with_spaces() {
    let source = "class Foo {\nfunction bar() {\nif (x) {\nreturn\n}\n}\n}\n";
    let expected = "class Foo {\n  function bar() {\n    if (x) {\n      return\n    }\n  }\n}\n";

    assert_eq!(format_gosu(source, default_options()), expected);
}

#[test]
fn main_indents_nested_brace_blocks_with_tabs() {
    let options = FormattingOptions {
        insert_spaces: false,
        ..FormattingOptions::default()
    };
    let source = "class Foo {\nfunction bar() {\nreturn\n}\n}\n";
    let expected = "class Foo {\n\tfunction bar() {\n\t\treturn\n\t}\n}\n";

    assert_eq!(format_gosu(source, options), expected);
}

#[test]
fn main_keeps_else_at_closing_brace_indent() {
    let source = "if (x) {\nreturn\n} else {\nreturn\n}\n";
    let expected = "if (x) {\n  return\n} else {\n  return\n}\n";

    assert_eq!(format_gosu(source, default_options()), expected);
}

#[test]
fn main_ignores_braces_in_strings_and_comments() {
    let source =
        "class Foo {\nvar text = \"}\" // {\n/* {\n} */\nfunction bar() {\nreturn\n}\n}\n";
    let expected = "class Foo {\n  var text = \"}\" // {\n  /* {\n  } */\n  function bar() {\n    return\n  }\n}\n";

    assert_eq!(format_gosu(source, default_options()), expected);
}

#[test]
fn server_formatting_keeps_every_blank_line_and_colon() {
    let source = "var a : int\n\n\n\nvar b : int\n\n";
    assert_eq!(format_gosu(source, default_options()), "var a : int\n\n\n\nvar b : int\n");
}
