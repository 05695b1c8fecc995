use vstd::prelude::*;
use vstd::string::*;
use crate::parser::path::{chars_of, concat};
use crate::parser::shared::{
    djs_of, first_named, inserted, insert_entry, is_first_named, DataType, ImportStep,
    ModuleCache, ParseError,
};
use crate::tokenizer::state::JsonToken;

verus! {

/// Where the parser stands among the statements at the root of a module, before its value.
pub enum RootStatus {
    /// At the start of a statement.
    Initial,
    /// After `export`.
    Export,
    /// After `module`.
    Module,
    /// After `module.`.
    ModuleDot,
    /// After `module.exports`.
    ModuleDotExports,
    /// After `const`.
    Const,
    /// After `const` and the constant's name.
    ConstId(String),
    /// After `import`.
    Import,
    /// After `import` and the name it binds.
    ImportId(String),
    /// After `import`, the name it binds and `from`.
    ImportIdFrom(String),
}

/// The root state: the statement status, the data type that the statements read so far
/// allow, and whether a new line has been read since the last statement.
pub struct RootState {
    pub status: RootStatus,
    pub data_type: DataType,
    pub new_line: bool,
}

/// What one token does at the root of a module.
pub enum RootStep {
    /// The root statements go on from this state.
    Continue(RootState),
    /// The token begins the module's value, read with this data type.
    Value(DataType, JsonToken),
    /// `export default` or `module.exports =` was read: the module's value follows.
    ParseModule(DataType),
    /// `const name =` was read: the value of the constant `name` follows.
    ParseConst(String, DataType),
    /// `import name from "module"` was read: the module is to be bound to `name`, and the root
    /// statements go on from the state.
    Import(String, String, RootState),
    /// The statement is wrong.
    Error(ParseError),
}

/// The state after a statement's keyword, with the status and data type it leads to.
pub open spec fn after_keyword(status: RootStatus, data_type: DataType) -> RootStep {
    RootStep::Continue(RootState { status, data_type, new_line: false })
}

/// What reading `token` in `state` gives. A statement starts only after a new line: `const`
/// makes the module DJS, `export` and `import` make it an ES module (where it can still be
/// one), `module` makes it a CommonJS module (where it can still be one); any other token
/// begins the module's value. After a keyword only the statement's next word is accepted.
pub open spec fn root_step_spec(state: RootState, token: JsonToken) -> RootStep {
    let data_type = state.data_type;
    match state.status {
        RootStatus::Initial => match token {
            JsonToken::NewLine => RootStep::Continue(
                RootState { status: RootStatus::Initial, data_type, new_line: true },
            ),
            JsonToken::Id(s) => if !state.new_line {
                RootStep::Error(ParseError::NewLineExpected)
            } else if s@ == "const"@ {
                after_keyword(RootStatus::Const, djs_of(data_type))
            } else if s@ == "export"@ && data_type != DataType::Cjs {
                after_keyword(RootStatus::Export, DataType::Mjs)
            } else if s@ == "module"@ && data_type != DataType::Mjs {
                after_keyword(RootStatus::Module, DataType::Cjs)
            } else if s@ == "import"@ && data_type != DataType::Cjs {
                after_keyword(RootStatus::Import, DataType::Mjs)
            } else {
                RootStep::Value(data_type, JsonToken::Id(s))
            },
            _ => if state.new_line {
                RootStep::Value(data_type, token)
            } else {
                RootStep::Error(ParseError::NewLineExpected)
            },
        },
        RootStatus::Export => match token {
            JsonToken::Id(s) => if s@ == "default"@ {
                RootStep::ParseModule(data_type)
            } else {
                RootStep::Error(ParseError::WrongExportStatement)
            },
            _ => RootStep::Error(ParseError::WrongExportStatement),
        },
        RootStatus::Module => match token {
            JsonToken::Dot => after_keyword(RootStatus::ModuleDot, data_type),
            _ => RootStep::Error(ParseError::WrongExportStatement),
        },
        RootStatus::ModuleDot => match token {
            JsonToken::Id(s) => if s@ == "exports"@ {
                after_keyword(RootStatus::ModuleDotExports, data_type)
            } else {
                RootStep::Error(ParseError::WrongExportStatement)
            },
            _ => RootStep::Error(ParseError::WrongExportStatement),
        },
        RootStatus::ModuleDotExports => match token {
            JsonToken::Equals => RootStep::ParseModule(data_type),
            _ => RootStep::Error(ParseError::WrongExportStatement),
        },
        RootStatus::Const => match token {
            JsonToken::Id(s) => after_keyword(RootStatus::ConstId(s), data_type),
            _ => RootStep::Error(ParseError::WrongConstStatement),
        },
        RootStatus::ConstId(key) => match token {
            JsonToken::Equals => RootStep::ParseConst(key, data_type),
            _ => RootStep::Error(ParseError::WrongConstStatement),
        },
        RootStatus::Import => match token {
            JsonToken::Id(s) => after_keyword(RootStatus::ImportId(s), data_type),
            _ => RootStep::Error(ParseError::WrongImportStatement),
        },
        RootStatus::ImportId(id) => match token {
            JsonToken::Id(s) => if s@ == "from"@ {
                after_keyword(RootStatus::ImportIdFrom(id), data_type)
            } else {
                RootStep::Error(ParseError::WrongImportStatement)
            },
            _ => RootStep::Error(ParseError::WrongImportStatement),
        },
        RootStatus::ImportIdFrom(id) => match token {
            JsonToken::String(module) => RootStep::Import(
                id,
                module,
                RootState { status: RootStatus::Initial, data_type, new_line: false },
            ),
            _ => RootStep::Error(ParseError::WrongImportStatement),
        },
    }
}

/// After a new line, a statement keyword starts its statement whenever the data type read so
/// far allows it: `const` always, making the module DJS; `export` and `import` whenever the
/// module can still be an ES module (it is not CommonJS), making it one; `module` whenever it
/// can still be a CommonJS module (it is not an ES module), making it one.
pub proof fn law_statement_keywords(data_type: DataType, s: String)
    ensures
        s@ == "const"@ ==> root_step_spec(
            RootState { status: RootStatus::Initial, data_type, new_line: true },
            JsonToken::Id(s),
        ) == RootStep::Continue(
            RootState { status: RootStatus::Const, data_type: djs_of(data_type), new_line: false },
        ),
        s@ == "export"@ && data_type != DataType::Cjs ==> root_step_spec(
            RootState { status: RootStatus::Initial, data_type, new_line: true },
            JsonToken::Id(s),
        ) == RootStep::Continue(
            RootState { status: RootStatus::Export, data_type: DataType::Mjs, new_line: false },
        ),
        s@ == "import"@ && data_type != DataType::Cjs ==> root_step_spec(
            RootState { status: RootStatus::Initial, data_type, new_line: true },
            JsonToken::Id(s),
        ) == RootStep::Continue(
            RootState { status: RootStatus::Import, data_type: DataType::Mjs, new_line: false },
        ),
        s@ == "module"@ && data_type != DataType::Mjs ==> root_step_spec(
            RootState { status: RootStatus::Initial, data_type, new_line: true },
            JsonToken::Id(s),
        ) == RootStep::Continue(
            RootState { status: RootStatus::Module, data_type: DataType::Cjs, new_line: false },
        ),
{
    reveal_strlit("const");
    reveal_strlit("export");
    reveal_strlit("import");
    reveal_strlit("module");
    assert("const"@[0] == 'c' && "export"@[0] == 'e' && "import"@[0] == 'i' && "module"@[0]
        == 'm');
}

/// True when the text of `s` is `w`.
pub fn text_is(s: &String, w: &str) -> (r: bool)
    ensures
        r == (s@ == w@),
{
    let a = chars_of(s.as_str());
    let b = chars_of(w);
    assert(a@ == s@);
    assert(b@ == w@);
    if a.len() != b.len() {
        return false;
    }
    let n = a.len();
    let mut i: usize = 0;
    while i < n
        invariant
            i <= n,
            n == a@.len(),
            n == b@.len(),
            forall|j: int| 0 <= j < i ==> a@[j] == b@[j],
            a@ == s@,
            b@ == w@,
        decreases n - i,
    {
        if a[i] != b[i] {
            assert(a@[i as int] != b@[i as int]);
            return false;
        }
        i = i + 1;
    }
    proof {
        assert(a@ =~= b@);
    }
    true
}

impl RootState {
    /// The state at the start of a module: no statement read, and a statement may start.
    pub fn new() -> (r: RootState)
        ensures
            r.status == RootStatus::Initial,
            r.data_type == DataType::Json,
            r.new_line,
    {
        RootState { status: RootStatus::Initial, data_type: DataType::Json, new_line: true }
    }

    /// Reads one token at the root of a module (see `root_step_spec`).
    pub fn parse(self, token: JsonToken) -> (r: RootStep)
        ensures
            r == root_step_spec(self, token),
    {
        let data_type = self.data_type;
        match self.status {
            RootStatus::Initial => match token {
                JsonToken::NewLine => RootStep::Continue(
                    RootState { status: RootStatus::Initial, data_type, new_line: true },
                ),
                JsonToken::Id(s) => {
                    if !self.new_line {
                        RootStep::Error(ParseError::NewLineExpected)
                    } else if text_is(&s, "const") {
                        RootStep::Continue(
                            RootState {
                                status: RootStatus::Const,
                                data_type: data_type.to_djs(),
                                new_line: false,
                            },
                        )
                    } else if text_is(&s, "export") && data_type.is_mjs_compatible() {
                        RootStep::Continue(
                            RootState {
                                status: RootStatus::Export,
                                data_type: DataType::Mjs,
                                new_line: false,
                            },
                        )
                    } else if text_is(&s, "module") && data_type.is_cjs_compatible() {
                        RootStep::Continue(
                            RootState {
                                status: RootStatus::Module,
                                data_type: DataType::Cjs,
                                new_line: false,
                            },
                        )
                    } else if text_is(&s, "import") && data_type.is_mjs_compatible() {
                        RootStep::Continue(
                            RootState {
                                status: RootStatus::Import,
                                data_type: DataType::Mjs,
                                new_line: false,
                            },
                        )
                    } else {
                        RootStep::Value(data_type, JsonToken::Id(s))
                    }
                },
                _ => {
                    if self.new_line {
                        RootStep::Value(data_type, token)
                    } else {
                        RootStep::Error(ParseError::NewLineExpected)
                    }
                },
            },
            RootStatus::Export => match token {
                JsonToken::Id(s) => {
                    if text_is(&s, "default") {
                        RootStep::ParseModule(data_type)
                    } else {
                        RootStep::Error(ParseError::WrongExportStatement)
                    }
                },
                _ => RootStep::Error(ParseError::WrongExportStatement),
            },
            RootStatus::Module => match token {
                JsonToken::Dot => RootStep::Continue(
                    RootState { status: RootStatus::ModuleDot, data_type, new_line: false },
                ),
                _ => RootStep::Error(ParseError::WrongExportStatement),
            },
            RootStatus::ModuleDot => match token {
                JsonToken::Id(s) => {
                    if text_is(&s, "exports") {
                        RootStep::Continue(
                            RootState {
                                status: RootStatus::ModuleDotExports,
                                data_type,
                                new_line: false,
                            },
                        )
                    } else {
                        RootStep::Error(ParseError::WrongExportStatement)
                    }
                },
                _ => RootStep::Error(ParseError::WrongExportStatement),
            },
            RootStatus::ModuleDotExports => match token {
                JsonToken::Equals => RootStep::ParseModule(data_type),
                _ => RootStep::Error(ParseError::WrongExportStatement),
            },
            RootStatus::Const => match token {
                JsonToken::Id(s) => RootStep::Continue(
                    RootState { status: RootStatus::ConstId(s), data_type, new_line: false },
                ),
                _ => RootStep::Error(ParseError::WrongConstStatement),
            },
            RootStatus::ConstId(key) => match token {
                JsonToken::Equals => RootStep::ParseConst(key, data_type),
                _ => RootStep::Error(ParseError::WrongConstStatement),
            },
            RootStatus::Import => match token {
                JsonToken::Id(s) => RootStep::Continue(
                    RootState { status: RootStatus::ImportId(s), data_type, new_line: false },
                ),
                _ => RootStep::Error(ParseError::WrongImportStatement),
            },
            RootStatus::ImportId(id) => match token {
                JsonToken::Id(s) => {
                    if text_is(&s, "from") {
                        RootStep::Continue(
                            RootState {
                                status: RootStatus::ImportIdFrom(id),
                                data_type,
                                new_line: false,
                            },
                        )
                    } else {
                        RootStep::Error(ParseError::WrongImportStatement)
                    }
                },
                _ => RootStep::Error(ParseError::WrongImportStatement),
            },
            RootStatus::ImportIdFrom(id) => match token {
                JsonToken::String(module) => RootStep::Import(
                    id,
                    module,
                    RootState { status: RootStatus::Initial, data_type, new_line: false },
                ),
                _ => RootStep::Error(ParseError::WrongImportStatement),
            },
        }
    }
}

/// What a token at the root of a module leads to, once an import has been looked up in the
/// cache of modules.
pub enum RootOutcome {
    /// Any step but an import (see `RootStep`).
    Step(RootStep),
    /// An import of a module whose value is known: the name is bound to it, and the root
    /// statements go on from the state.
    Bound(RootState),
    /// An import of a module to be read: the name to bind, the module's path (now marked as
    /// being read), and the state that the root statements go on from once it is bound.
    Read(String, String, RootState),
}

/// Reads one token at the root of a module whose directory is `dir`. An import `import name
/// from "module"` refers to the path `dir/module`: when the cache knows its value, `name` is
/// bound in `consts` to the cache's entry; when it is being read, the import is circular;
/// otherwise it is marked as being read, to be read by the caller. Any other step is
/// `RootState::parse`'s.
pub fn root_state_parse<V>(
    state: RootState,
    token: JsonToken,
    dir: &str,
    consts: &mut Vec<(String, usize)>,
    cache: &mut ModuleCache<V>,
) -> (r: RootOutcome)
    ensures
        old(cache).wf() ==> final(cache).wf(),
        final(cache).complete@ == old(cache).complete@,
        match root_step_spec(state, token) {
            RootStep::Import(id, module, next) => {
                let p = dir@ + seq!['/'] + module@;
                &&& old(cache).has_finished(p) ==> {
                    &&& r == RootOutcome::Bound(next)
                    &&& final(consts)@ == inserted(
                        old(consts)@,
                        id,
                        first_named(old(cache).complete@, p) as usize,
                    )
                    &&& final(cache).progress@ == old(cache).progress@
                }
                &&& !old(cache).has_finished(p) && old(cache).in_progress(p) ==> {
                    &&& r == RootOutcome::Step(RootStep::Error(ParseError::CircularDependency))
                    &&& final(consts)@ == old(consts)@
                    &&& final(cache).progress@ == old(cache).progress@
                }
                &&& !old(cache).has_finished(p) && !old(cache).in_progress(p) ==> {
                    &&& r matches RootOutcome::Read(name, path, n) && name == id && path@ == p
                        && n == next && final(cache).progress@ == old(cache).progress@.push(path)
                    &&& final(consts)@ == old(consts)@
                }
            },
            step => {
                &&& r == RootOutcome::Step(step)
                &&& final(consts)@ == old(consts)@
                &&& final(cache).progress@ == old(cache).progress@
            },
        },
{
    match state.parse(token) {
        RootStep::Import(id, module, next) => {
            let path = concat(dir, module.as_str());
            match cache.import_step(&path) {
                ImportStep::Cached(i) => {
                    insert_entry(consts, id, i);
                    RootOutcome::Bound(next)
                },
                ImportStep::Read => RootOutcome::Read(id, path, next),
                ImportStep::Error(e) => RootOutcome::Step(RootStep::Error(e)),
            }
        },
        step => RootOutcome::Step(step),
    }
}

/// Records the value of an imported module read to its end (see `ModuleCache::finish`), and
/// binds `name` in `consts` to the cache's entry for it. Gives that entry.
pub fn complete_import<V>(
    consts: &mut Vec<(String, usize)>,
    cache: &mut ModuleCache<V>,
    name: String,
    path: String,
    value: V,
) -> (entry: usize)
    ensures
        final(cache).progress@ == old(cache).progress@.filter((|s: String| s@ != path@)),
        final(cache).complete@ == inserted(old(cache).complete@, path, value),
        is_first_named(final(cache).complete@, path@, entry as int),
        final(consts)@ == inserted(old(consts)@, name, entry),
        old(cache).wf() ==> final(cache).wf(),
{
    let entry = cache.finish(path, value);
    insert_entry(consts, name, entry);
    entry
}

} // verus!
