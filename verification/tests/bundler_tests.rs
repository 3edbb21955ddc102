use bloom::bundler::emit;
use bloom::graph::{build_from_sources, BuildError};
use bloom::resolve::{resolve_entry, resolve_module};

fn files(pairs: &[(&str, &str)]) -> Vec<(String, String)> {
    pairs.iter().map(|p| (p.0.to_string(), p.1.to_string())).collect()
}

#[test]
fn resolves_specifier_against_importer_directory() {
    assert_eq!(resolve_module("src/main.js", "./a.js"), "src/a.js");
    assert_eq!(resolve_module("src/main.js", "./b-x.js"), "src/b-x.js");
}

#[test]
fn resolves_entry_against_base_directory() {
    assert_eq!(resolve_entry("src", "./main.js"), "src/main.js");
    assert_eq!(resolve_entry("", "main.js"), "main.js");
}

#[test]
fn bundles_two_files_dependency_first() {
    let fs = files(&[
        ("main.js", "import A from './a.js';\n"),
        ("a.js", "const a = 1;\n"),
    ]);
    let graph = build_from_sources("", "main.js", &fs).unwrap();
    let bundle = emit(&graph);
    assert_eq!(
        bundle.registration_order,
        vec!["a.js".to_string(), "main.js".to_string()],
    );
    let expected = "import { insertModule, createModuleUrl, resolveImportSpecifier } from \"/bloom.js\";\n\
        insertModule(\"a.js\",createModuleUrl(`const a = 1;\n`));\n\
        insertModule(\"main.js\",createModuleUrl(`import A from '${resolveImportSpecifier(\"a.js\")}';\n`));\n\
        import(resolveImportSpecifier(\"main.js\"));";
    assert_eq!(bundle.content, expected);
}

#[test]
fn plain_module_registers_raw_source_unchanged() {
    let fs = files(&[("main.js", "const x = 1;\n")]);
    let graph = build_from_sources("", "main.js", &fs).unwrap();
    let bundle = emit(&graph);
    let expected = "import { insertModule, createModuleUrl, resolveImportSpecifier } from \"/bloom.js\";\n\
        insertModule(\"main.js\",createModuleUrl(`const x = 1;\n`));\n\
        import(resolveImportSpecifier(\"main.js\"));";
    assert_eq!(bundle.content, expected);
}

#[test]
fn cycle_terminates_with_one_registration_each() {
    let fs = files(&[
        ("a.js", "import B from './b.js';\n"),
        ("b.js", "import A from './a.js';\n"),
    ]);
    let graph = build_from_sources("", "a.js", &fs).unwrap();
    let bundle = emit(&graph);
    assert_eq!(bundle.registration_order.len(), 2);
    assert!(bundle.registration_order.contains(&"a.js".to_string()));
    assert!(bundle.registration_order.contains(&"b.js".to_string()));
    assert_eq!(bundle.registration_order[0], "b.js");
}

#[test]
fn re_export_edges_are_traversed() {
    let fs = files(&[
        ("main.js", "export { d } from './d.js';\n"),
        ("d.js", "const d = 4;\n"),
    ]);
    let graph = build_from_sources("", "main.js", &fs).unwrap();
    let bundle = emit(&graph);
    assert_eq!(
        bundle.registration_order,
        vec!["d.js".to_string(), "main.js".to_string()],
    );
    assert!(bundle.content.contains(
        "insertModule(\"main.js\",createModuleUrl(`export { d } from '${resolveImportSpecifier(\"d.js\")}';\n`));\n"
    ));
}

#[test]
fn missing_source_fails_with_read_error() {
    let fs = files(&[("main.js", "import A from './a.js';\n")]);
    match build_from_sources("", "main.js", &fs) {
        Err(BuildError::Read { path }) => assert_eq!(path, "a.js"),
        _ => panic!("expected a read error"),
    }
}

#[test]
fn syntax_error_fails_with_offset_and_character() {
    let fs = files(&[("main.js", "import ;\n")]);
    match build_from_sources("", "main.js", &fs) {
        Err(BuildError::Syntax { path, error }) => {
            assert_eq!(path, "main.js");
            assert_eq!(error.offset, 7);
            assert_eq!(error.ch, ';');
        }
        _ => panic!("expected a syntax error"),
    }
}

#[test]
fn same_module_through_two_specifiers_loads_once() {
    let fs = files(&[
        ("src/main.js", "import A from './a.js';\nimport B from './b.js';\n"),
        ("src/a.js", "import C from './c.js';\n"),
        ("src/b.js", "import C from './c.js';\n"),
        ("src/c.js", "const c = 3;\n"),
    ]);
    let graph = build_from_sources("", "src/main.js", &fs).unwrap();
    let bundle = emit(&graph);
    assert_eq!(bundle.registration_order.len(), 4);
    assert_eq!(
        bundle.registration_order,
        vec![
            "src/c.js".to_string(),
            "src/a.js".to_string(),
            "src/b.js".to_string(),
            "src/main.js".to_string(),
        ],
    );
}
