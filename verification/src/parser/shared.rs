use vstd::prelude::*;
use vstd::string::*;

verus! {

/// The kind of document being parsed: plain JSON, or one of the JavaScript-like forms.
#[derive(Debug, Default, PartialEq, Eq, Clone, Copy, Structural)]
pub enum DataType {
    #[default]
    Json,
    Djs,
    Cjs,
    Mjs,
}

/// The type once a DJS construct has been seen: JSON becomes DJS, the others stay.
pub open spec fn djs_of(t: DataType) -> DataType {
    match t {
        DataType::Json | DataType::Djs => DataType::Djs,
        DataType::Cjs => DataType::Cjs,
        DataType::Mjs => DataType::Mjs,
    }
}

/// Moving to DJS twice is moving once, and the type it gives is a DJS type: not JSON.
pub proof fn law_to_djs_idempotent(t: DataType)
    ensures
        djs_of(djs_of(t)) == djs_of(t),
        djs_of(t) != DataType::Json,
{
}

impl DataType {
    /// The type once a DJS construct has been seen (see `djs_of`).
    pub fn to_djs(&self) -> (r: DataType)
        ensures
            r == djs_of(*self),
    {
        match self {
            DataType::Json | DataType::Djs => DataType::Djs,
            DataType::Cjs => DataType::Cjs,
            DataType::Mjs => DataType::Mjs,
        }
    }

    /// True for every type but JSON.
    pub fn is_djs(&self) -> (r: bool)
        ensures
            r == (*self != DataType::Json),
    {
        matches!(self, DataType::Djs | DataType::Cjs | DataType::Mjs)
    }

    /// True for the types that a CommonJS module can still be: all but MJS.
    pub fn is_cjs_compatible(&self) -> (r: bool)
        ensures
            r == (*self != DataType::Mjs),
    {
        matches!(self, DataType::Json | DataType::Djs | DataType::Cjs)
    }

    /// True for the types that an ES module can still be: all but CJS.
    pub fn is_mjs_compatible(&self) -> (r: bool)
        ensures
            r == (*self != DataType::Cjs),
    {
        matches!(self, DataType::Json | DataType::Djs | DataType::Mjs)
    }
}

/// Where the parser stands inside a value.
#[derive(Debug, Default, PartialEq, Eq, Clone, Copy, Structural)]
pub enum ParsingStatus {
    #[default]
    Initial,
    ArrayBegin,
    ArrayValue,
    ArrayComma,
    ObjectBegin,
    ObjectKey,
    ObjectColon,
    ObjectValue,
    ObjectComma,
    ImportBegin,
    ImportValue,
    ImportEnd,
}

/// Why parsing failed.
#[derive(Debug, PartialEq, Eq, Clone, Copy, Structural)]
pub enum ParseError {
    UnexpectedToken,
    UnexpectedEnd,
    WrongExportStatement,
    WrongConstStatement,
    WrongRequireStatement,
    WrongImportStatement,
    CannotReadFile,
    CircularDependency,
    NewLineExpected,
}

/// The name of an error, as its text shows it.
pub open spec fn parse_error_name(e: ParseError) -> Seq<char> {
    match e {
        ParseError::UnexpectedToken => "UnexpectedToken"@,
        ParseError::UnexpectedEnd => "UnexpectedEnd"@,
        ParseError::WrongExportStatement => "WrongExportStatement"@,
        ParseError::WrongConstStatement => "WrongConstStatement"@,
        ParseError::WrongRequireStatement => "WrongRequireStatement"@,
        ParseError::WrongImportStatement => "WrongImportStatement"@,
        ParseError::CannotReadFile => "CannotReadFile"@,
        ParseError::CircularDependency => "CircularDependency"@,
        ParseError::NewLineExpected => "NewLineExpected"@,
    }
}

impl ParseError {
    /// The error's text: the name of its variant.
    pub fn to_string(&self) -> (r: String)
        ensures
            r@ == parse_error_name(*self),
    {
        let name = match self {
            ParseError::UnexpectedToken => "UnexpectedToken",
            ParseError::UnexpectedEnd => "UnexpectedEnd",
            ParseError::WrongExportStatement => "WrongExportStatement",
            ParseError::WrongConstStatement => "WrongConstStatement",
            ParseError::WrongRequireStatement => "WrongRequireStatement",
            ParseError::WrongImportStatement => "WrongImportStatement",
            ParseError::CannotReadFile => "CannotReadFile",
            ParseError::CircularDependency => "CircularDependency",
            ParseError::NewLineExpected => "NewLineExpected",
        };
        String::from_str(name)
    }
}

/// True when one of the entries of `s` has the name `k`.
pub open spec fn has_name<X>(s: Seq<(String, X)>, k: Seq<char>) -> bool {
    exists|i: int| 0 <= i < s.len() && #[trigger] s[i].0@ == k
}

/// True when entry `i` of `s` is the first with the name `k`.
pub open spec fn is_first_named<X>(s: Seq<(String, X)>, k: Seq<char>, i: int) -> bool {
    &&& 0 <= i < s.len()
    &&& s[i].0@ == k
    &&& forall|j: int| 0 <= j < i ==> s[j].0@ != k
}

/// The position of the first entry of `s` with the name `k`, where there is one.
pub open spec fn first_named<X>(s: Seq<(String, X)>, k: Seq<char>) -> int {
    choose|i: int| is_first_named(s, k, i)
}

/// `s` with the entry `(key, x)`: in place of the first entry with that name, or added at
/// the end where there is none.
pub open spec fn inserted<X>(s: Seq<(String, X)>, key: String, x: X) -> Seq<(String, X)> {
    if has_name(s, key@) {
        s.update(first_named(s, key@), (key, x))
    } else {
        s.push((key, x))
    }
}

/// No two entries of `s` have the same name.
pub open spec fn distinct_names<X>(s: Seq<(String, X)>) -> bool {
    forall|i: int, j: int| 0 <= i < j < s.len() ==> s[i].0@ != s[j].0@
}

/// No text occurs twice in `s`.
pub open spec fn distinct_texts(s: Seq<String>) -> bool {
    forall|i: int, j: int| 0 <= i < j < s.len() ==> s[i]@ != s[j]@
}

/// The first entry with a name is the one that `first_named` picks.
pub proof fn lemma_first_named<X>(s: Seq<(String, X)>, k: Seq<char>, i: int)
    requires
        is_first_named(s, k, i),
    ensures
        first_named(s, k) == i,
{
    let c = first_named(s, k);
    assert(is_first_named(s, k, c));
    if c < i {
        assert(s[c].0@ != k);
    }
    if c > i {
        assert(s[i].0@ != k);
    }
}

/// Puts `(key, x)` into `v` (see `inserted`), and gives the position of the entry.
pub fn insert_entry<X>(v: &mut Vec<(String, X)>, key: String, x: X) -> (r: usize)
    ensures
        final(v)@ == inserted(old(v)@, key, x),
        is_first_named(final(v)@, key@, r as int),
        distinct_names(old(v)@) ==> distinct_names(final(v)@),
{
    let n = v.len();
    let mut i: usize = 0;
    while i < n
        invariant
            i <= n,
            n == v@.len(),
            v@ == old(v)@,
            forall|j: int| 0 <= j < i ==> v@[j].0@ != key@,
        decreases n - i,
    {
        if v[i].0 == key {
            proof {
                lemma_first_named(old(v)@, key@, i as int);
            }
            let ghost k = key;
            v.set(i, (key, x));
            proof {
                assert(is_first_named(v@, k@, i as int));
            }
            return i;
        }
        i = i + 1;
    }
    v.push((key, x));
    proof {
        assert(!has_name(old(v)@, key@));
        assert(is_first_named(v@, key@, n as int));
    }
    n
}

/// The modules met so far: those whose value is known, with it, and the paths of those being
/// read. A path that is being read and is met again is a circular import.
pub struct ModuleCache<V> {
    pub complete: Vec<(String, V)>,
    pub progress: Vec<String>,
}

/// What to do with an imported module.
#[derive(Debug, PartialEq, Eq, Clone, Copy, Structural)]
pub enum ImportStep {
    /// Its value is known: it is the value of this entry of `complete`.
    Cached(usize),
    /// It is to be read and parsed; its path is now marked as being read.
    Read,
    /// It cannot be imported.
    Error(ParseError),
}

impl<V> ModuleCache<V> {
    /// No path has two known values, and no path is marked twice as being read.
    pub open spec fn wf(&self) -> bool {
        distinct_names(self.complete@) && distinct_texts(self.progress@)
    }

    /// True when the value of the module at `path` is known.
    pub open spec fn has_finished(&self, path: Seq<char>) -> bool {
        has_name(self.complete@, path)
    }

    /// True when the module at `path` is being read.
    pub open spec fn in_progress(&self, path: Seq<char>) -> bool {
        exists|i: int| 0 <= i < self.progress@.len() && #[trigger] self.progress@[i]@ == path
    }

    /// An empty cache.
    pub fn new() -> (r: Self)
        ensures
            r.complete@.len() == 0,
            r.progress@.len() == 0,
            r.wf(),
    {
        ModuleCache { complete: Vec::new(), progress: Vec::new() }
    }

    /// Records the value of the module at `path`, read to its end: the path is no longer
    /// marked as being read, and its value is known, in place of an earlier one. Gives the
    /// entry that holds it.
    pub fn finish(&mut self, path: String, value: V) -> (entry: usize)
        ensures
            final(self).progress@ == old(self).progress@.filter((|s: String| s@ != path@)),
            final(self).complete@ == inserted(old(self).complete@, path, value),
            is_first_named(final(self).complete@, path@, entry as int),
            old(self).wf() ==> final(self).wf(),
    {
        let ghost pred = (|s: String| s@ != path@);
        let ghost start = self.progress@;
        let mut kept: Vec<String> = Vec::new();
        let m = self.progress.len();
        let mut k: usize = 0;
        proof {
            assert(start.take(0) =~= Seq::<String>::empty());
            reveal(Seq::filter);
        }
        while k < m
            invariant
                k <= m,
                m == start.len(),
                self.progress@ == start,
                pred == (|s: String| s@ != path@),
                kept@ == start.take(k as int).filter(pred),
                distinct_texts(start) ==> distinct_texts(kept@),
                forall|a: int|
                    0 <= a < kept@.len() ==> exists|j: int|
                        0 <= j < k && #[trigger] start[j]@ == (#[trigger] kept@[a])@,
            decreases m - k,
        {
            let s = &self.progress[k];
            proof {
                assert(start.take(k + 1) =~= start.take(k as int).push(start[k as int]));
                start.take(k as int).lemma_filter_push(start[k as int], pred);
            }
            if *s != path {
                let ghost before = kept@;
                kept.push(s.clone());
                proof {
                    assert forall|a: int| 0 <= a < kept@.len() implies exists|j: int|
                        0 <= j < k + 1 && #[trigger] start[j]@ == (#[trigger] kept@[a])@ by {
                        if a < before.len() {
                            assert(kept@[a] == before[a]);
                        } else {
                            assert(start[k as int]@ == kept@[a]@);
                        }
                    }
                    if distinct_texts(start) {
                        assert forall|a: int, b: int| 0 <= a < b < kept@.len() implies kept@[a]@
                            != kept@[b]@ by {
                            if b == before.len() {
                                assert(kept@[a] == before[a]);
                                let j = choose|j: int| 0 <= j < k && #[trigger] start[j]@ == before[a]@;
                                assert(start[j]@ != start[k as int]@);
                            } else {
                                assert(kept@[a] == before[a] && kept@[b] == before[b]);
                            }
                        }
                    }
                }
            }
            k = k + 1;
        }
        proof {
            assert(start.take(m as int) =~= start);
        }
        self.progress = kept;
        insert_entry(&mut self.complete, path, value)
    }

    /// Decides what to do with an import of the module at `path`: take its known value, fail
    /// on a circular import, or mark it as being read and read it.
    pub fn import_step(&mut self, path: &String) -> (r: ImportStep)
        ensures
            old(self).has_finished(path@) ==> r == ImportStep::Cached(
                first_named(old(self).complete@, path@) as usize,
            ),
            !old(self).has_finished(path@) && old(self).in_progress(path@) ==> r
                == ImportStep::Error(ParseError::CircularDependency),
            !old(self).has_finished(path@) && !old(self).in_progress(path@) ==> r
                == ImportStep::Read,
            r matches ImportStep::Cached(i) ==> is_first_named(old(self).complete@, path@, i as int),
            final(self).complete@ == old(self).complete@,
            r == ImportStep::Read ==> final(self).progress@ == old(self).progress@.push(*path),
            r != ImportStep::Read ==> final(self).progress@ == old(self).progress@,
            old(self).wf() ==> final(self).wf(),
    {
        let n = self.complete.len();
        let mut i: usize = 0;
        while i < n
            invariant
                i <= n,
                n == self.complete@.len(),
                self.complete@ == old(self).complete@,
                self.progress@ == old(self).progress@,
                forall|j: int| 0 <= j < i ==> self.complete@[j].0@ != path@,
            decreases n - i,
        {
            if self.complete[i].0 == *path {
                proof {
                    lemma_first_named(self.complete@, path@, i as int);
                }
                return ImportStep::Cached(i);
            }
            i = i + 1;
        }
        let m = self.progress.len();
        let mut k: usize = 0;
        while k < m
            invariant
                k <= m,
                m == self.progress@.len(),
                self.complete@ == old(self).complete@,
                self.progress@ == old(self).progress@,
                forall|j: int| 0 <= j < k ==> self.progress@[j]@ != path@,
                forall|j: int| 0 <= j < n ==> self.complete@[j].0@ != path@,
                n == self.complete@.len(),
            decreases m - k,
        {
            if self.progress[k] == *path {
                return ImportStep::Error(ParseError::CircularDependency);
            }
            k = k + 1;
        }
        self.progress.push(path.clone());
        ImportStep::Read
    }
}

} // verus!
