use nanvm_lib::parser::root_state::{
    complete_import, root_state_parse, text_is, RootOutcome, RootState, RootStatus, RootStep,
};
use nanvm_lib::parser::shared::{DataType, ImportStep, ModuleCache, ParseError};
use nanvm_lib::tokenizer::state::JsonToken;

fn id(s: &str) -> JsonToken {
    JsonToken::Id(s.to_string())
}

/// Feeds the tokens while the root statements go on; gives the step that ends them, or the
/// state reached.
fn feed(tokens: Vec<JsonToken>) -> Result<RootStep, RootState> {
    let mut state = RootState::new();
    for token in tokens {
        match state.parse(token) {
            RootStep::Continue(next) => state = next,
            other => return Ok(other),
        }
    }
    Err(state)
}

#[test]
fn export_default_starts_an_es_module() {
    let r = feed(vec![id("export"), id("default")]);
    assert!(matches!(r, Ok(RootStep::ParseModule(DataType::Mjs))));
}

#[test]
fn module_exports_starts_a_common_js_module() {
    let r = feed(vec![id("module"), JsonToken::Dot, id("exports"), JsonToken::Equals]);
    assert!(matches!(r, Ok(RootStep::ParseModule(DataType::Cjs))));
}

#[test]
fn const_makes_the_module_djs() {
    let r = feed(vec![id("const"), id("x"), JsonToken::Equals]);
    match r {
        Ok(RootStep::ParseConst(key, DataType::Djs)) => assert_eq!(key, "x"),
        _ => panic!("const statement expected"),
    }
}

#[test]
fn import_binds_a_module() {
    let r = feed(vec![
        id("import"),
        id("a"),
        id("from"),
        JsonToken::String("./m.d.mjs".to_string()),
    ]);
    match r {
        Ok(RootStep::Import(name, module, next)) => {
            assert_eq!(name, "a");
            assert_eq!(module, "./m.d.mjs");
            assert!(matches!(next.status, RootStatus::Initial));
            assert_eq!(next.data_type, DataType::Mjs);
            assert!(!next.new_line);
        }
        _ => panic!("import expected"),
    }
}

#[test]
fn a_plain_value_is_the_module() {
    let r = feed(vec![JsonToken::NewLine, JsonToken::ArrayBegin]);
    assert!(matches!(r, Ok(RootStep::Value(DataType::Json, JsonToken::ArrayBegin))));
}

#[test]
fn statements_need_a_new_line() {
    let r = feed(vec![id("import"), id("a"), id("from"), JsonToken::String("m".to_string()), id("const")]);
    match r {
        Ok(RootStep::Import(_, _, next)) => {
            assert!(matches!(next.parse(id("const")), RootStep::Error(ParseError::NewLineExpected)));
        }
        _ => panic!("import expected"),
    }
}

#[test]
fn module_after_export_is_a_value() {
    let state = RootState { status: RootStatus::Initial, data_type: DataType::Mjs, new_line: true };
    assert!(matches!(state.parse(id("module")), RootStep::Value(DataType::Mjs, JsonToken::Id(_))));
    let state = RootState { status: RootStatus::Initial, data_type: DataType::Cjs, new_line: true };
    assert!(matches!(state.parse(id("export")), RootStep::Value(DataType::Cjs, JsonToken::Id(_))));
}

#[test]
fn wrong_statements() {
    assert!(matches!(
        feed(vec![id("export"), id("x")]),
        Ok(RootStep::Error(ParseError::WrongExportStatement))
    ));
    assert!(matches!(
        feed(vec![id("module"), id("exports")]),
        Ok(RootStep::Error(ParseError::WrongExportStatement))
    ));
    assert!(matches!(
        feed(vec![id("const"), JsonToken::Equals]),
        Ok(RootStep::Error(ParseError::WrongConstStatement))
    ));
    assert!(matches!(
        feed(vec![id("import"), id("a"), id("of")]),
        Ok(RootStep::Error(ParseError::WrongImportStatement))
    ));
}

#[test]
fn text_comparison() {
    assert!(text_is(&"const".to_string(), "const"));
    assert!(!text_is(&"constant".to_string(), "const"));
    assert!(!text_is(&"conso".to_string(), "const"));
}

#[test]
fn import_steps_of_the_cache() {
    let mut cache: ModuleCache<u32> = ModuleCache::new();
    let a = "a.json".to_string();
    let b = "b.json".to_string();
    assert_eq!(cache.import_step(&a), ImportStep::Read);
    assert_eq!(cache.progress, vec![a.clone()]);
    assert_eq!(cache.import_step(&a), ImportStep::Error(ParseError::CircularDependency));
    assert_eq!(cache.import_step(&b), ImportStep::Read);
    assert_eq!(cache.finish(a.clone(), 7), 0);
    assert_eq!(cache.progress, vec![b.clone()]);
    assert_eq!(cache.import_step(&a), ImportStep::Cached(0));
    assert_eq!(cache.complete[0].1, 7);
    assert_eq!(cache.finish(a.clone(), 8), 0);
    assert_eq!(cache.complete.len(), 1);
    assert_eq!(cache.complete[0].1, 8);
}

fn from_state() -> RootState {
    RootState { status: RootStatus::ImportIdFrom("a".to_string()), data_type: DataType::Mjs, new_line: false }
}

#[test]
fn concat_joins_with_a_slash() {
    assert_eq!(nanvm_lib::parser::path::concat("dir", "m.d.mjs"), "dir/m.d.mjs");
    assert_eq!(nanvm_lib::parser::path::concat(".", "x"), "./x");
}

#[test]
fn import_of_a_module_to_read() {
    let mut cache: ModuleCache<u32> = ModuleCache::new();
    let mut consts: Vec<(String, usize)> = Vec::new();
    let token = JsonToken::String("m.json".to_string());
    match root_state_parse(from_state(), token, "dir", &mut consts, &mut cache) {
        RootOutcome::Read(name, path, next) => {
            assert_eq!(name, "a");
            assert_eq!(path, "dir/m.json");
            assert!(matches!(next.status, RootStatus::Initial));
            assert_eq!(cache.progress, vec!["dir/m.json".to_string()]);
            assert!(consts.is_empty());
            let entry = complete_import(&mut consts, &mut cache, name, path, 42);
            assert_eq!(entry, 0);
            assert_eq!(consts, vec![("a".to_string(), 0)]);
            assert!(cache.progress.is_empty());
            assert_eq!(cache.complete, vec![("dir/m.json".to_string(), 42)]);
        }
        _ => panic!("the module is to be read"),
    }
}

#[test]
fn import_of_a_known_module_binds_it() {
    let mut cache: ModuleCache<u32> = ModuleCache::new();
    cache.complete.push(("dir/other.json".to_string(), 1));
    cache.complete.push(("dir/m.json".to_string(), 2));
    let mut consts: Vec<(String, usize)> = vec![("a".to_string(), 0)];
    let token = JsonToken::String("m.json".to_string());
    let r = root_state_parse(from_state(), token, "dir", &mut consts, &mut cache);
    assert!(matches!(r, RootOutcome::Bound(_)));
    assert_eq!(consts, vec![("a".to_string(), 1)]);
    assert!(cache.progress.is_empty());
}

#[test]
fn import_of_a_module_being_read_is_circular() {
    let mut cache: ModuleCache<u32> = ModuleCache::new();
    cache.progress.push("dir/m.json".to_string());
    let mut consts: Vec<(String, usize)> = Vec::new();
    let token = JsonToken::String("m.json".to_string());
    let r = root_state_parse(from_state(), token, "dir", &mut consts, &mut cache);
    assert!(matches!(r, RootOutcome::Step(RootStep::Error(ParseError::CircularDependency))));
    assert!(consts.is_empty());
    assert_eq!(cache.progress.len(), 1);
}

#[test]
fn other_steps_pass_through() {
    let mut cache: ModuleCache<u32> = ModuleCache::new();
    let mut consts: Vec<(String, usize)> = Vec::new();
    let r = root_state_parse(RootState::new(), id("const"), "dir", &mut consts, &mut cache);
    assert!(matches!(r, RootOutcome::Step(RootStep::Continue(_))));
}
