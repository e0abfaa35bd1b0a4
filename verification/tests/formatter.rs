use gosu_lsp::formatter::{format_gosu, FormattingOptions};

fn default_options() -> FormattingOptions {
    FormattingOptions::default()
}

#[test]
fn formatter_trims_trailing_whitespace_and_final_blank_lines() {
    assert_eq!(
        format_gosu("class A {  \n}\t\n\n", default_options()),
        "class A {\n}\n"
    );
}

#[test]
fn formatter_preserves_empty_file() {
    assert_eq!(format_gosu("", default_options()), "");
}

#[test]
fn formatter_indents_nested_brace_blocks_with_spaces() {
    let source = "class Foo {\nfunction bar() {\nif (x) {\nreturn\n}\n}\n}\n";
    let expected = "class Foo {\n  function bar() {\n    if (x) {\n      return\n    }\n  }\n}\n";

    assert_eq!(format_gosu(source, default_options()), expected);
}

#[test]
fn formatter_indents_nested_brace_blocks_with_tabs() {
    let options = FormattingOptions {
        insert_spaces: false,
        ..FormattingOptions::default()
    };
    let source = "class Foo {\nfunction bar() {\nreturn\n}\n}\n";
    let expected = "class Foo {\n\tfunction bar() {\n\t\treturn\n\t}\n}\n";

    assert_eq!(format_gosu(source, options), expected);
}

#[test]
fn formatter_keeps_else_at_closing_brace_indent() {
    let source = "if (x) {\nreturn\n} else {\nreturn\n}\n";
    let expected = "if (x) {\n  return\n} else {\n  return\n}\n";

    assert_eq!(format_gosu(source, default_options()), expected);
}

#[test]
fn formatter_ignores_braces_in_strings_and_comments() {
    let source =
        "class Foo {\nvar text = \"}\" // {\n/* {\n} */\nfunction bar() {\nreturn\n}\n}\n";
    let expected = "class Foo {\n  var text = \"}\" // {\n  /* {\n  } */\n  function bar() {\n    return\n  }\n}\n";

    assert_eq!(format_gosu(source, default_options()), expected);
}

#[test]
fn normalizes_type_colons_and_collapses_blank_lines() {
    let source = "package example.formatting\n\n\nuses example.JsonParser\nuses example.Logger\n\npublic class SampleMessage {\npublic var primaryValue: String\npublic var secondaryValue : String\n\n\npublic static function fromText(text : String) : SampleMessage {\nreturn new JsonParser().parse(text, SampleMessage)\n}\n\nfunction writeLog(logger : Logger) {\nlogger.info(\"Sample message\")\nlogger.info(\"  [primary: \" + this.primaryValue + \"]\")\nlogger.info(\"  [secondary: \" + this.secondaryValue + \"]\")\n}\n}\n";
    let expected = "package example.formatting\n\nuses example.JsonParser\nuses example.Logger\n\npublic class SampleMessage {\n  public var primaryValue: String\n  public var secondaryValue: String\n\n  public static function fromText(text: String): SampleMessage {\n    return new JsonParser().parse(text, SampleMessage)\n  }\n\n  function writeLog(logger: Logger) {\n    logger.info(\"Sample message\")\n    logger.info(\"  [primary: \" + this.primaryValue + \"]\")\n    logger.info(\"  [secondary: \" + this.secondaryValue + \"]\")\n  }\n}\n";

    assert_eq!(format_gosu(source, default_options()), expected);
}

// Further cases of the formatter's rules.

#[test]
fn default_options_are_two_spaces() {
    let options = FormattingOptions::default();
    assert_eq!(options.tab_size, 2);
    assert!(options.insert_spaces);
}

#[test]
fn blank_only_source_formats_to_nothing() {
    assert_eq!(format_gosu("  \n\t\n\n   \t", default_options()), "");
}

#[test]
fn output_always_ends_with_one_newline() {
    assert_eq!(format_gosu("return", default_options()), "return\n");
    assert_eq!(format_gosu("return\n\n\n\n", default_options()), "return\n");
}

#[test]
fn leading_blank_line_is_kept_once() {
    assert_eq!(format_gosu("\n\n\nx\n", default_options()), "\nx\n");
}

#[test]
fn crlf_line_endings_are_removed() {
    assert_eq!(format_gosu("a {\r\nb\r\n}\r\n", default_options()), "a {\n  b\n}\n");
}

#[test]
fn tab_size_sets_indent_width() {
    let options = FormattingOptions { tab_size: 4, insert_spaces: true };
    assert_eq!(format_gosu("a {\nb {\nc\n}\n}", options), "a {\n    b {\n        c\n    }\n}\n");
}

#[test]
fn extra_closing_braces_do_not_go_below_zero() {
    assert_eq!(format_gosu("}\n}\nx {\ny\n}\n", default_options()), "}\n}\nx {\n  y\n}\n");
}

#[test]
fn block_comment_spanning_lines_hides_braces() {
    let source = "a {\n/* start {\nstill { comment\nend } */\nb\n}\n";
    let expected = "a {\n  /* start {\n  still { comment\n  end } */\n  b\n}\n";
    assert_eq!(format_gosu(source, default_options()), expected);
}

#[test]
fn line_starting_inside_block_comment_keeps_indent_of_closing_brace() {
    let source = "a {\n/*\n} x\n*/\n}\n";
    let expected = "a {\n  /*\n  } x\n  */\n}\n";
    assert_eq!(format_gosu(source, default_options()), expected);
}

#[test]
fn escaped_quote_inside_string_keeps_string_open() {
    let source = "a {\nvar s = \"\\\" {\"\nb\n}\n";
    let expected = "a {\n  var s = \"\\\" {\"\n  b\n}\n";
    assert_eq!(format_gosu(source, default_options()), expected);
}

#[test]
fn colons_after_equals_sign_are_left_alone() {
    assert_eq!(
        format_gosu("var x : int = a ? b : c", default_options()),
        "var x: int = a ? b : c\n"
    );
}

#[test]
fn colon_before_closing_paren_comma_or_brace_gets_no_space() {
    assert_eq!(
        format_gosu("function f(a :, b : ) :{", default_options()),
        "function f(a:, b:):{\n"
    );
}

#[test]
fn colon_at_end_of_line_gets_no_space() {
    assert_eq!(format_gosu("var x :", default_options()), "var x:\n");
}

#[test]
fn colons_in_strings_and_line_comments_are_left_alone() {
    assert_eq!(
        format_gosu("var s : String // note : here", default_options()),
        "var s: String // note : here\n"
    );
    assert_eq!(
        format_gosu("function f(s : String) { print(\"a : b\") }", default_options()),
        "function f(s: String) { print(\"a : b\") }\n"
    );
}

#[test]
fn lines_that_declare_nothing_keep_their_colons() {
    assert_eq!(format_gosu("x = a ? b : c", default_options()), "x = a ? b : c\n");
    assert_eq!(
        format_gosu("property get Name() : String", default_options()),
        "property get Name(): String\n"
    );
    assert_eq!(
        format_gosu("property set Name(v : String)", default_options()),
        "property set Name(v: String)\n"
    );
    assert_eq!(format_gosu("private var n :int", default_options()), "private var n: int\n");
}

#[test]
fn trailing_carriage_return_on_last_line_is_kept() {
    assert_eq!(format_gosu("a\r", default_options()), "a\r\n");
}

fn code_of(text: &str) -> String {
    text.chars().filter(|c| !matches!(c, ' ' | '\t' | '\r' | '\n')).collect()
}

#[test]
fn formatting_changes_only_layout() {
    let sources = [
        "class A {\r\n  var x :int = 1\n\n\n\tfunction f( a : B ) : C {\nreturn a // x : y\n}\n}\n\n",
        "  /* {\n } */\n}}\nvar s = \"a : b\" : c\n",
    ];
    for source in sources {
        for options in [FormattingOptions::default(), FormattingOptions { tab_size: 3, insert_spaces: false }] {
            assert_eq!(code_of(&format_gosu(source, options)), code_of(source));
            assert_eq!(code_of(&gosu_lsp::lsp::format_gosu(source, options)), code_of(source));
        }
    }
}

#[test]
fn formatted_lines_have_no_trailing_space_and_no_blank_runs() {
    let source = "a {   \n\n\n\t\nb :c\t\n}  \n\n";
    let out = format_gosu(source, default_options());
    assert!(out.ends_with('\n') && !out.ends_with("\n\n"));
    for line in out.lines() {
        assert!(!line.ends_with(' ') && !line.ends_with('\t'));
    }
    assert!(!out.contains("\n\n\n"));
}

#[test]
fn formatting_twice_is_formatting_once() {
    let sources = [
        "class A {\n  var x :int = 1\n\n\n\tfunction f( a : B ) : C {\nreturn a // x : y\n}\n}\n\n",
        "var a : : b\nfunction g(x :\t, y : ) :{\n}\n",
        "  /* {\n } */\n}}\nvar s = \"a : b\" : c\n",
    ];
    for source in sources {
        for options in [FormattingOptions::default(), FormattingOptions { tab_size: 3, insert_spaces: false }] {
            let once = format_gosu(source, options);
            assert_eq!(format_gosu(&once, options), once);
            let server_once = gosu_lsp::lsp::format_gosu(source, options);
            assert_eq!(gosu_lsp::lsp::format_gosu(&server_once, options), server_once);
        }
    }
}

#[test]
fn source_with_text_never_formats_to_nothing() {
    assert_eq!(format_gosu("\n\n  x  \n\n", default_options()), "\nx\n");
}

#[test]
fn normalizing_colons_twice_is_normalizing_once() {
    for line in ["var a : : b", "function f(x :\t, y : ) :{", "var s = \"a : b\" : c", "x :y // a : b"] {
        let chars: Vec<char> = line.chars().collect();
        let once = gosu_lsp::formatter::normalize_type_colons(&chars);
        assert_eq!(gosu_lsp::formatter::normalize_type_colons(&once), once);
    }
    let chars: Vec<char> = "var a : : b".chars().collect();
    let once: String = gosu_lsp::formatter::normalize_type_colons(&chars).into_iter().collect();
    assert_eq!(once, "var a:: b");
}
