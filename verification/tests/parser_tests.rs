use bloom::lexer::tokenize;
use bloom::parser::{Parser, DefaultImport, NamedImport, DefaultExport, NamedExport};

#[test]
fn parses_single_import() {
    let source = "\nimport A from './a.js';\n";
    let tokens = tokenize(source);
    let parser = Parser::new(&tokens);
    let module = parser.parse_module(source.to_string()).unwrap();
    assert_eq!(module.imports.len(), 1);
    assert_eq!(module.exports.len(), 0);
    assert_eq!(module.imports[0].default_import, Some(
        DefaultImport { variable_name: String::from("A"), binding_name: String::from("A") })
    );
    assert_eq!(module.imports[0].named_imports, []);
    assert_eq!(module.imports[0].specifier, "./a.js");
    assert_eq!(module.imports[0].specifier_start, 16);
    assert_eq!(module.imports[0].specifier_end, 21);
    assert_eq!(module.raw_source, source.to_string());
}

#[test]
fn parses_single_import_with_dbl_quotes() {
    let source = "\nimport A from \"./a.js\";\n";
    let tokens = tokenize(source);
    let parser = Parser::new(&tokens);
    let module = parser.parse_module(source.to_string()).unwrap();
    assert_eq!(module.imports.len(), 1);
    assert_eq!(module.exports.len(), 0);
    assert_eq!(module.imports[0].default_import, Some(
        DefaultImport { variable_name: String::from("A"), binding_name: String::from("A") })
    );
    assert_eq!(module.imports[0].named_imports, []);
    assert_eq!(module.imports[0].specifier, "./a.js");
    assert_eq!(module.imports[0].specifier_start, 16);
    assert_eq!(module.imports[0].specifier_end, 21);
    assert_eq!(module.raw_source, source.to_string());
}

#[test]
fn parses_without_ending_semicolon() {
    let source = "\nimport A from './a.js'\n";
    let tokens = tokenize(source);
    let parser = Parser::new(&tokens);
    let module = parser.parse_module(source.to_string()).unwrap();
    assert_eq!(module.imports[0].default_import, Some(
        DefaultImport { variable_name: String::from("A"), binding_name: String::from("A") })
    );
    assert_eq!(module.imports[0].named_imports, []);
    assert_eq!(module.imports[0].specifier, "./a.js");
    assert_eq!(module.imports[0].specifier_start, 16);
    assert_eq!(module.imports[0].specifier_end, 21);
}

#[test]
fn parses_multiple_imports() {
    let source = "\nimport A, { a, b } from './a.js';\nimport C, { d, e } from './c.js';\n";
    let tokens = tokenize(source);
    let parser = Parser::new(&tokens);
    let module = parser.parse_module(source.to_string()).unwrap();
    assert_eq!(module.imports.len(), 2);
    assert_eq!(module.imports[0].default_import, Some(
        DefaultImport { variable_name: String::from("A"), binding_name: String::from("A") })
    );
    assert_eq!(module.imports[0].named_imports.len(), 2);
    assert_eq!(module.imports[0].named_imports, [
        NamedImport { variable_name: String::from("a"), binding_name: String::from("a") },
        NamedImport { variable_name: String::from("b"), binding_name: String::from("b") }
    ]);
    assert_eq!(module.imports[0].specifier, "./a.js");
    assert_eq!(module.imports[1].named_imports.len(), 2);
    assert_eq!(module.imports[1].named_imports, [
        NamedImport { variable_name: String::from("d"), binding_name: String::from("d") },
        NamedImport { variable_name: String::from("e"), binding_name: String::from("e") }
    ]);
}

#[test]
fn parses_named_import() {
    let source = "\nimport { a } from './a.js';\n";
    let tokens = tokenize(source);
    let parser = Parser::new(&tokens);
    let module = parser.parse_module(source.to_string()).unwrap();
    assert_eq!(module.imports.len(), 1);
    assert_eq!(module.imports[0].default_import, None);
    assert_eq!(module.imports[0].named_imports, [NamedImport {
        variable_name: String::from("a"), binding_name: String::from("a") }]);
    assert_eq!(module.imports[0].specifier, "./a.js");
}

#[test]
fn parses_multiple_named_imports() {
    let source = "\nimport { a, b } from './a.js';\n";
    let tokens = tokenize(source);
    let parser = Parser::new(&tokens);
    let module = parser.parse_module(source.to_string()).unwrap();
    assert_eq!(module.imports.len(), 1);
    assert_eq!(module.imports[0].default_import, None);
    assert_eq!(module.imports[0].named_imports, [
        NamedImport { variable_name: String::from("a"), binding_name: String::from("a") },
        NamedImport { variable_name: String::from("b"), binding_name: String::from("b") }
    ]);
    assert_eq!(module.imports[0].specifier, "./a.js");
}

#[test]
fn parses_combo_imports() {
    let source = "\nimport A, { a, b } from './a.js';\n";
    let tokens = tokenize(source);
    let parser = Parser::new(&tokens);
    let module = parser.parse_module(source.to_string()).unwrap();
    assert_eq!(module.imports.len(), 1);
    assert_eq!(module.imports[0].default_import, Some(
        DefaultImport { variable_name: String::from("A"), binding_name: String::from("A") })
    );
    assert_eq!(module.imports[0].named_imports, [
        NamedImport { variable_name: String::from("a"), binding_name: String::from("a") },
        NamedImport { variable_name: String::from("b"), binding_name: String::from("b") }
    ]);
    assert_eq!(module.imports[0].specifier, "./a.js");
}

#[test]
fn parses_single_export() {
    let source = "\nexport A from './a.js';\n";
    let tokens = tokenize(source);
    let parser = Parser::new(&tokens);
    let module = parser.parse_module(source.to_string()).unwrap();
    assert_eq!(module.imports.len(), 0);
    assert_eq!(module.exports.len(), 1);
    assert_eq!(module.exports[0].default_export, Some(
        DefaultExport { variable_name: String::from("A"), binding_name: String::from("A") })
    );
    assert_eq!(module.exports[0].named_exports, []);
    assert_eq!(module.exports[0].specifier, "./a.js");
    assert_eq!(module.exports[0].specifier_start, 16);
    assert_eq!(module.exports[0].specifier_end, 21);
    assert_eq!(module.raw_source, source.to_string());
}

#[test]
fn parses_named_exports() {
    let source = "\nexport { d, E } from './d.js';\n";
    let tokens = tokenize(source);
    let parser = Parser::new(&tokens);
    let module = parser.parse_module(source.to_string()).unwrap();
    assert_eq!(module.imports.len(), 0);
    assert_eq!(module.exports.len(), 1);
    assert_eq!(module.exports[0].default_export, None);
    assert_eq!(module.exports[0].named_exports, [
        NamedExport { variable_name: String::from("d"), binding_name: String::from("d") },
        NamedExport { variable_name: String::from("E"), binding_name: String::from("E") }
    ]);
    assert_eq!(module.exports[0].specifier, "./d.js");
    assert_eq!(module.exports[0].specifier_start, 23);
    assert_eq!(module.exports[0].specifier_end, 28);
    assert_eq!(module.raw_source, source.to_string());
}

#[test]
fn parses_as_default_export() {
    let source = "\nexport { b as default } from './b.js';\n";
    let tokens = tokenize(source);
    let parser = Parser::new(&tokens);
    let module = parser.parse_module(source.to_string()).unwrap();
    assert_eq!(module.imports.len(), 0);
    assert_eq!(module.exports.len(), 1);
    assert_eq!(module.exports[0].default_export, None);
    assert_eq!(module.exports[0].named_exports, [
        NamedExport { variable_name: String::from("b"), binding_name: String::from("b") },
    ]);
    assert_eq!(module.exports[0].specifier, "./b.js");
    assert_eq!(module.exports[0].specifier_start, 31);
    assert_eq!(module.exports[0].specifier_end, 36);
    assert_eq!(module.raw_source, source.to_string());
}

#[test]
fn parses_default_as_named_export() {
    let source = "\nexport { default as b } from './b.js';\n";
    let tokens = tokenize(source);
    let parser = Parser::new(&tokens);
    let module = parser.parse_module(source.to_string()).unwrap();
    assert_eq!(module.imports.len(), 0);
    assert_eq!(module.exports.len(), 1);
    assert_eq!(module.exports[0].default_export, None);
    assert_eq!(module.exports[0].named_exports, [
        NamedExport { variable_name: String::from("b"), binding_name: String::from("b") },
    ]);
    assert_eq!(module.exports[0].specifier, "./b.js");
    assert_eq!(module.exports[0].specifier_start, 31);
    assert_eq!(module.exports[0].specifier_end, 36);
    assert_eq!(module.raw_source, source.to_string());
}

#[test]
fn parses_splat_export() {
    let source = "\nexport * from './b.js';\n";
    let tokens = tokenize(source);
    let parser = Parser::new(&tokens);
    let module = parser.parse_module(source.to_string()).unwrap();
    assert_eq!(module.imports.len(), 0);
    assert_eq!(module.exports.len(), 1);
    assert_eq!(module.exports[0].default_export, None);
    assert_eq!(module.exports[0].named_exports, []);
    assert!(module.exports[0].is_wildcard);
    assert_eq!(module.exports[0].specifier, "./b.js");
    assert_eq!(module.exports[0].specifier_start, 16);
    assert_eq!(module.exports[0].specifier_end, 21);
    assert_eq!(module.raw_source, source.to_string());
}

#[test]
fn parses_multiple_exports() {
    let source = "\nexport { d, E } from './d.js';\nexport A from './a.js';\n";
    let tokens = tokenize(source);
    let parser = Parser::new(&tokens);
    let module = parser.parse_module(source.to_string()).unwrap();
    assert_eq!(module.imports.len(), 0);
    assert_eq!(module.exports.len(), 2);
    assert_eq!(module.exports[0].default_export, None);
    assert_eq!(module.exports[0].named_exports, [
        NamedExport { variable_name: String::from("d"), binding_name: String::from("d") },
        NamedExport { variable_name: String::from("E"), binding_name: String::from("E") }
    ]);
    assert_eq!(module.exports[0].specifier, "./d.js");
    assert_eq!(module.exports[0].specifier_start, 23);
    assert_eq!(module.exports[0].specifier_end, 28);
    assert_eq!(module.exports[1].default_export, Some(
        DefaultExport { variable_name: String::from("A"), binding_name: String::from("A") })
    );
    assert_eq!(module.exports[1].named_exports, []);
    assert_eq!(module.exports[1].specifier, "./a.js");
    assert_eq!(module.exports[1].specifier_start, 47);
    assert_eq!(module.exports[1].specifier_end, 52);
    assert_eq!(module.raw_source, source.to_string());
}

#[test]
fn parses_multiple_exports_2() {
    let source =
        "\nexport { default as DModule } from './d.js';\nexport { A as default } from './a-default.js';\n";
    let tokens = tokenize(source);
    let parser = Parser::new(&tokens);
    let module = parser.parse_module(source.to_string()).unwrap();
    assert_eq!(module.imports.len(), 0);
    assert_eq!(module.exports.len(), 2);
    assert_eq!(module.exports[0].default_export, None);
    assert_eq!(module.exports[0].named_exports, [
        NamedExport {
            variable_name: String::from("DModule"),
            binding_name: String::from("DModule"),
        },
    ]);
    assert_eq!(module.exports[0].specifier, "./d.js");
    assert_eq!(module.exports[0].specifier_start, 37);
    assert_eq!(module.exports[0].specifier_end, 42);
    assert_eq!(module.exports[1].default_export, None);
    assert_eq!(module.exports[1].named_exports, [
        NamedExport { variable_name: String::from("A"), binding_name: String::from("A") },
    ]);
    assert_eq!(module.exports[1].specifier, "./a-default.js");
    assert_eq!(module.exports[1].specifier_start, 76);
    assert_eq!(module.exports[1].specifier_end, 89);
    assert_eq!(module.raw_source, source.to_string());
}

#[test]
fn does_not_parse_named_export() {
    let source = "\nconst e = 'e';\n\nexport { e };\n";
    let tokens = tokenize(source);
    let parser = Parser::new(&tokens);
    let module = parser.parse_module(source.to_string()).unwrap();
    assert_eq!(module.imports.len(), 0);
    assert_eq!(module.exports.len(), 0);
    assert_eq!(module.raw_source, source.to_string());
}

#[test]
fn does_not_parse_default_export() {
    let source = "\nclass C {}\nexport default C;\n";
    let tokens = tokenize(source);
    let parser = Parser::new(&tokens);
    let module = parser.parse_module(source.to_string()).unwrap();
    assert_eq!(module.imports.len(), 0);
    assert_eq!(module.exports.len(), 0);
    assert_eq!(module.raw_source, source.to_string());
}

#[test]
fn parses_imports_and_exports() {
    let source = "\nimport A from './a.js';\nexport E from './e.js';\n";
    let tokens = tokenize(source);
    let parser = Parser::new(&tokens);
    let module = parser.parse_module(source.to_string()).unwrap();
    assert_eq!(module.imports.len(), 1);
    assert_eq!(module.exports.len(), 1);
    assert_eq!(module.imports[0].default_import, Some(
        DefaultImport { variable_name: String::from("A"), binding_name: String::from("A") })
    );
    assert_eq!(module.imports[0].named_imports, []);
    assert_eq!(module.exports[0].default_export, Some(
        DefaultExport { variable_name: String::from("E"), binding_name: String::from("E") })
    );
    assert_eq!(module.exports[0].named_exports, []);
    assert_eq!(module.exports[0].specifier, "./e.js");
    assert_eq!(module.exports[0].specifier_start, 40);
    assert_eq!(module.exports[0].specifier_end, 45);
    assert_eq!(module.raw_source, source.to_string());
}

#[test]
fn parses_file() {
    let source =
        "\nimport A from './a.js';\nfunction() {};\nlet z = 'bar';\nexport E from './e.js';\n";
    let tokens = tokenize(source);
    let parser = Parser::new(&tokens);
    let module = parser.parse_module(source.to_string()).unwrap();
    assert_eq!(module.imports.len(), 1);
    assert_eq!(module.exports.len(), 1);
    assert_eq!(module.imports[0].default_import, Some(
        DefaultImport { variable_name: String::from("A"), binding_name: String::from("A") })
    );
    assert_eq!(module.imports[0].named_imports, []);
    assert_eq!(module.imports[0].specifier, "./a.js");
    assert_eq!(module.imports[0].specifier_start, 16);
    assert_eq!(module.imports[0].specifier_end, 21);
    assert_eq!(module.exports[0].default_export, Some(
        DefaultExport { variable_name: String::from("E"), binding_name: String::from("E") })
    );
    assert_eq!(module.exports[0].named_exports, []);
    assert_eq!(module.exports[0].specifier, "./e.js");
    assert_eq!(module.exports[0].specifier_start, 70);
    assert_eq!(module.exports[0].specifier_end, 75);
    assert_eq!(module.raw_source, source.to_string());
}

#[test]
fn handles_comments() {
    let source =
        "\nimport A from './a.js'; // test-comment\n/* test-comment */\nimport B from './b.js';\nimport C from './c.js'; /** test-comment */\n";
    let tokens = tokenize(source);
    let parser = Parser::new(&tokens);
    let module = parser.parse_module(source.to_string()).unwrap();
    assert_eq!(module.imports.len(), 3);
    assert_eq!(module.exports.len(), 0);
    assert_eq!(module.imports[0].default_import, Some(
        DefaultImport { variable_name: String::from("A"), binding_name: String::from("A") })
    );
    assert_eq!(module.imports[0].named_imports, []);
    assert_eq!(module.imports[0].specifier, "./a.js");
    assert_eq!(module.imports[0].specifier_start, 16);
    assert_eq!(module.imports[0].specifier_end, 21);
    assert_eq!(module.raw_source, source.to_string());
    assert_eq!(module.imports[1].default_import, Some(
        DefaultImport { variable_name: String::from("B"), binding_name: String::from("B") })
    );
    assert_eq!(module.imports[1].named_imports, []);
    assert_eq!(module.imports[1].specifier, "./b.js");
    assert_eq!(module.imports[1].specifier_start, 75);
    assert_eq!(module.imports[1].specifier_end, 80);
    assert_eq!(module.raw_source, source.to_string());
    assert_eq!(module.imports[2].default_import, Some(
        DefaultImport { variable_name: String::from("C"), binding_name: String::from("C") })
    );
    assert_eq!(module.imports[2].named_imports, []);
    assert_eq!(module.imports[2].specifier, "./c.js");
    assert_eq!(module.imports[2].specifier_start, 99);
    assert_eq!(module.imports[2].specifier_end, 104);
    assert_eq!(module.raw_source, source.to_string());
}

#[test]
fn rejects_code_after_completed_statement() {
    let source = "import A from './a.js' x;\n";
    let tokens = tokenize(source);
    let parser = Parser::new(&tokens);
    let err = parser.parse_module(source.to_string()).unwrap_err();
    assert_eq!(err.offset, 23);
    assert_eq!(err.ch, 'x');
}

#[test]
fn commits_at_semicolon_after_plain_spaces() {
    let source = "import A from './a.js'  ;\n";
    let tokens = tokenize(source);
    let parser = Parser::new(&tokens);
    let module = parser.parse_module(source.to_string()).unwrap();
    assert_eq!(module.imports.len(), 1);
    assert_eq!(module.imports[0].specifier, "./a.js");
}

#[test]
fn drops_statement_still_open_at_end_of_input() {
    let source = "import A from './a.js'";
    let tokens = tokenize(source);
    let parser = Parser::new(&tokens);
    let module = parser.parse_module(source.to_string()).unwrap();
    assert_eq!(module.imports.len(), 0);
    assert_eq!(module.exports.len(), 0);
}

#[test]
fn rejects_bare_import_without_bindings() {
    let source = "import './x.js';\n";
    let tokens = tokenize(source);
    let parser = Parser::new(&tokens);
    let err = parser.parse_module(source.to_string()).unwrap_err();
    assert_eq!(err.offset, 7);
    assert_eq!(err.ch, '\'');
}

#[test]
fn parses_export_with_default_and_named_list() {
    let source = "export A, { b } from './c.js';\n";
    let tokens = tokenize(source);
    let parser = Parser::new(&tokens);
    let module = parser.parse_module(source.to_string()).unwrap();
    assert_eq!(module.exports.len(), 1);
    assert_eq!(module.exports[0].default_export, Some(
        DefaultExport { variable_name: String::from("A"), binding_name: String::from("A") })
    );
    assert_eq!(module.exports[0].named_exports, [
        NamedExport { variable_name: String::from("b"), binding_name: String::from("b") },
    ]);
    assert_eq!(module.exports[0].specifier, "./c.js");
}
