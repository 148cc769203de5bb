use pavex::codegen_utils::Fragment;
use pavex::codegen_utils::VariableNameGenerator;
use pavex::call_graph::CallGraphEdgeMetadata;
use pavex::language::ResolvedType;
use pavex::text::push_decimal;
use pavex::text::push_qualified;
use pavex::text::push_separated;
use pavex::text::push_terminated;
use pavex::text::same_texts;
use pavex::text::variable;
use bimap::BiHashMap;

fn strings(items: &[&str]) -> Vec<String> {
    items.iter().map(|s| s.to_string()).collect()
}

#[test]
fn variables_are_named_by_their_number() {
    assert_eq!(variable(0), "v0");
    assert_eq!(variable(7), "v7");
    assert_eq!(variable(10), "v10");
    assert_eq!(variable(109), "v109");
    assert_eq!(variable(4_294_967_295), "v4294967295");
}

#[test]
fn decimal_is_appended() {
    let mut out = "n = ".to_string();
    push_decimal(&mut out, 2_097_152);
    assert_eq!(out, "n = 2097152");
    push_decimal(&mut out, 0);
    assert_eq!(out, "n = 20971520");
}

#[test]
fn generator_hands_out_each_name_once() {
    let mut generator = VariableNameGenerator::new();
    assert_eq!(generator.generate().unwrap(), "v0");
    assert_eq!(generator.generate().unwrap(), "v1");
    let mut fork = generator.fork();
    assert_eq!(generator.generate().unwrap(), "v2");
    assert_eq!(fork.generate().unwrap(), "v2");
    assert_eq!(fork.generate().unwrap(), "v3");
    assert_eq!(generator.generate().unwrap(), "v3");
}

#[test]
fn generator_runs_out_at_the_last_number() {
    let mut generator = VariableNameGenerator::starting_at(usize::MAX - 1);
    assert!(generator.generate().is_some());
    assert_eq!(generator.generate(), None);
    assert_eq!(generator.generate(), None);
}

#[test]
fn parts_are_separated_and_terminated() {
    let mut out = String::new();
    push_separated(&mut out, &strings(&["a", "b", "c"]), ", ");
    assert_eq!(out, "a, b, c");
    let mut out = "(".to_string();
    push_separated(&mut out, &strings(&[]), ", ");
    assert_eq!(out, "(");
    push_separated(&mut out, &strings(&["x"]), ", ");
    assert_eq!(out, "(x");
    let mut out = String::new();
    push_terminated(&mut out, &strings(&["let v0 = a();", "let v1 = b(v0);"]), " ");
    assert_eq!(out, "let v0 = a(); let v1 = b(v0); ");
}

#[test]
fn paths_are_qualified_by_the_package_name() {
    let mut out = String::new();
    push_qualified(&mut out, "app", &strings(&["routes", "home", "Home"]));
    assert_eq!(out, "app::routes::home::Home");
    let mut out = String::new();
    push_qualified(&mut out, "app", &strings(&[]));
    assert_eq!(out, "app");
}

#[test]
fn lists_of_strings_are_compared_by_their_texts() {
    assert!(same_texts(&strings(&["a", "b"]), &strings(&["a", "b"])));
    assert!(!same_texts(&strings(&["a", "b"]), &strings(&["a", "c"])));
    assert!(!same_texts(&strings(&["a"]), &strings(&["a", "b"])));
    assert!(same_texts(&strings(&[]), &strings(&[])));
}

#[test]
fn types_are_compared_by_package_and_path() {
    let a = ResolvedType::new("app 0.1.0".to_string(), strings(&["A"]));
    let same = ResolvedType::new("app 0.1.0".to_string(), strings(&["A"]));
    let other_package = ResolvedType::new("lib 0.1.0".to_string(), strings(&["A"]));
    let other_path = ResolvedType::new("app 0.1.0".to_string(), strings(&["m", "A"]));
    assert!(a.is_same_as(&same));
    assert!(!a.is_same_as(&other_package));
    assert!(!a.is_same_as(&other_path));
    assert!(a.duplicate().is_same_as(&a));
    assert_eq!(a.duplicate(), a);
}

#[test]
fn types_are_rendered_with_the_name_of_their_package() {
    let mut names = BiHashMap::new();
    names.insert("app 0.1.0".to_string(), "app".to_string());
    let known = ResolvedType::new("app 0.1.0".to_string(), strings(&["m", "A"]));
    let unknown = ResolvedType::new("lib 0.1.0".to_string(), strings(&["A"]));
    assert_eq!(known.render(&names), Some("app::m::A".to_string()));
    assert_eq!(unknown.render(&names), None);
    let mut out = "x: ".to_string();
    assert!(known.render_into(&mut out, &names));
    assert_eq!(out, "x: app::m::A");
    assert!(!unknown.render_into(&mut out, &names));
    assert_eq!(out, "x: app::m::A");
}

#[test]
fn fragments_are_rendered_as_expression_tail_and_argument() {
    let variable = Fragment::VariableReference("v0".to_string());
    let statement = Fragment::Statement("app::t()".to_string());
    let block = Fragment::Block("match v0 { Ok(v1) => { v1 } Err(v2) => { v2 } }".to_string());
    let mut out = String::new();
    variable.push_expression(&mut out);
    out.push(' ');
    statement.push_expression(&mut out);
    out.push(' ');
    block.push_expression(&mut out);
    assert_eq!(out, "v0 app::t() { match v0 { Ok(v1) => { v1 } Err(v2) => { v2 } } }");
    let mut out = String::new();
    block.push_tail(&mut out);
    assert_eq!(out, "match v0 { Ok(v1) => { v1 } Err(v2) => { v2 } }");
    assert_eq!(variable.argument(CallGraphEdgeMetadata::Move), "v0");
    assert_eq!(variable.argument(CallGraphEdgeMetadata::SharedBorrow), "&v0");
    assert_eq!(statement.argument(CallGraphEdgeMetadata::SharedBorrow), "&app::t()");
}
