//! The CMake cache file: one variable per line, written as
//! `NAME[-ADVANCED]:TYPE=VALUE`, between comments and blank lines.
use crate::cpp::builder::variables::{ascending, has_key, lemma_map_of, map_of, Variables};
use crate::error::{Error, ErrorView};
use crate::lines::{
    is_text, join_lines, line_text, next_line, read_text, split_lines, text_lines,
};
use crate::order::{name_order, NameOrder};
use crate::text::{find_char, index_of, to_chars, trim, trim_window, window_is};
use vstd::prelude::*;

verus! {

/// The declared type of a cache variable.
#[derive(Copy, Clone, Debug, PartialEq, Eq, Hash, Structural)]
pub enum CMakeVariableType {
    Bool,
    FilePath,
    Path,
    String,
    Internal,
}

/// A variable of a CMake cache.
#[derive(Debug, PartialEq, Eq, Hash)]
pub struct CMakeVariable {
    name: String,
    var_type: CMakeVariableType,
    value: String,
    advanced: bool,
}

/// The mathematical value of a [`CMakeVariable`].
pub struct VariableView {
    pub name: Seq<char>,
    pub var_type: CMakeVariableType,
    pub value: Seq<char>,
    pub advanced: bool,
}

impl View for CMakeVariable {
    type V = VariableView;

    closed spec fn view(&self) -> VariableView {
        VariableView {
            name: self.name@,
            var_type: self.var_type,
            value: self.value@,
            advanced: self.advanced,
        }
    }
}

/// The suffix that marks a variable as advanced in the text of a cache.
pub open spec fn advanced_suffix() -> Seq<char> {
    "-ADVANCED"@
}

/// The part of a line before the first `c` and the part after it.
pub open spec fn split_once(s: Seq<char>, c: char) -> Option<(Seq<char>, Seq<char>)> {
    let i = index_of(s, c);
    if i < s.len() {
        Some((s.take(i), s.skip(i + 1)))
    } else {
        None
    }
}

/// Whether a trimmed line is a comment: it starts with `#` or with `//`.
pub open spec fn is_comment(t: Seq<char>) -> bool {
    ||| (t.len() >= 1 && t[0] == '#')
    ||| (t.len() >= 2 && t[0] == '/' && t[1] == '/')
}

/// The type that `t` spells, if it spells one.
pub open spec fn kind_of_spelling(t: Seq<char>) -> Option<CMakeVariableType> {
    if t == CMakeVariableType::Bool.spelling() {
        Some(CMakeVariableType::Bool)
    } else if t == CMakeVariableType::FilePath.spelling() {
        Some(CMakeVariableType::FilePath)
    } else if t == CMakeVariableType::Path.spelling() {
        Some(CMakeVariableType::Path)
    } else if t == CMakeVariableType::String.spelling() {
        Some(CMakeVariableType::String)
    } else if t == CMakeVariableType::Internal.spelling() {
        Some(CMakeVariableType::Internal)
    } else {
        None
    }
}

/// Whether the key of a line carries the advanced suffix.
pub open spec fn is_advanced_key(key: Seq<char>) -> bool {
    advanced_suffix().is_suffix_of(key)
}

/// The name in the key of a line: the key without the advanced suffix.
pub open spec fn bare_name(key: Seq<char>) -> Seq<char> {
    if is_advanced_key(key) {
        key.take(key.len() - advanced_suffix().len())
    } else {
        key
    }
}

/// The variable made of a key, the text of a type and a value, all trimmed.
/// A key that is empty, or that holds nothing before the advanced suffix,
/// leaves the variable without a name and is refused, as is an empty type.
pub open spec fn parse_parts(key: Seq<char>, kind_text: Seq<char>, value: Seq<char>) -> Result<
    VariableView,
    ErrorView,
> {
    if key.len() == 0 || bare_name(key).len() == 0 || kind_text.len() == 0 {
        Err(ErrorView::CMakeVariableParseErrorMissingName)
    } else {
        match kind_of_spelling(kind_text) {
            None => Err(ErrorView::CMakeVariableTypeUnknown(kind_text)),
            Some(kind) => Ok(
                VariableView {
                    name: bare_name(key),
                    var_type: kind,
                    value,
                    advanced: is_advanced_key(key),
                },
            ),
        }
    }
}

/// The variable made of the two trimmed sides of an assignment.
pub open spec fn parse_assignment(lhs: Seq<char>, value: Seq<char>) -> Result<
    VariableView,
    ErrorView,
> {
    if lhs.len() == 0 {
        Err(ErrorView::CMakeVariableParseErrorMissingName)
    } else {
        match split_once(lhs, ':') {
            None => Err(ErrorView::CMakeVariableParseErrorMissingColon),
            Some((key, kind_text)) => parse_parts(trim(key), trim(kind_text), value),
        }
    }
}

/// What a line of a cache means: a variable, or the reason why it is none.
pub open spec fn parse_line(line: Seq<char>) -> Result<VariableView, ErrorView> {
    let t = trim(line);
    if t.len() == 0 {
        Err(ErrorView::CMakeVariableParseErrorEmptyLine)
    } else if is_comment(t) {
        Err(ErrorView::CMakeVariableParseErrorCommentLine)
    } else {
        match split_once(t, '=') {
            None => Err(ErrorView::CMakeVariableParseErrorAssignmentLine),
            Some((lhs, rhs)) => parse_assignment(trim(lhs), trim(rhs)),
        }
    }
}

/// The line that stands for a variable.
pub open spec fn format_variable(v: VariableView) -> Seq<char> {
    v.name + (if v.advanced {
        advanced_suffix()
    } else {
        Seq::<char>::empty()
    }) + seq![':'] + v.var_type.spelling() + seq!['='] + v.value
}

impl CMakeVariableType {
    /// The spelling of the type in the text of a cache.
    pub open spec fn spelling(self) -> Seq<char> {
        match self {
            CMakeVariableType::Bool => "BOOL"@,
            CMakeVariableType::FilePath => "FILEPATH"@,
            CMakeVariableType::Path => "PATH"@,
            CMakeVariableType::String => "STRING"@,
            CMakeVariableType::Internal => "INTERNAL"@,
        }
    }

    /// The spelling of the type in the text of a cache.
    pub fn as_str(&self) -> (r: &'static str)
        ensures
            r@ == self.spelling(),
    {
        match self {
            CMakeVariableType::Bool => "BOOL",
            CMakeVariableType::FilePath => "FILEPATH",
            CMakeVariableType::Path => "PATH",
            CMakeVariableType::String => "STRING",
            CMakeVariableType::Internal => "INTERNAL",
        }
    }

    /// The spelling of the type, as an owned string.
    pub fn to_string(&self) -> (r: String)
        ensures
            r@ == self.spelling(),
    {
        self.as_str().to_owned()
    }

    /// The type that `s` spells exactly; any other text is an error that
    /// carries it.
    pub fn from_str(s: &str) -> (r: Result<CMakeVariableType, Error>)
        ensures
            match r {
                Ok(kind) => kind_of_spelling(s@) == Some(kind),
                Err(e) => kind_of_spelling(s@) is None && e@ == ErrorView::CMakeVariableTypeUnknown(
                    s@,
                ),
            },
    {
        let v = to_chars(s);
        match kind_in_window(&v, 0, v.len()) {
            Some(kind) => {
                assert(v@.subrange(0, v@.len() as int) =~= v@);
                Ok(kind)
            },
            None => {
                assert(v@.subrange(0, v@.len() as int) =~= v@);
                Err(Error::CMakeVariableTypeUnknown(s.to_owned()))
            },
        }
    }
}

/// The type that the window of `v` from `lo` to `hi` spells, if any.
fn kind_in_window(v: &Vec<char>, lo: usize, hi: usize) -> (r: Option<CMakeVariableType>)
    requires
        lo <= hi <= v.len(),
    ensures
        r == kind_of_spelling(v@.subrange(lo as int, hi as int)),
{
    if window_is(v, lo, hi, "BOOL") {
        Some(CMakeVariableType::Bool)
    } else if window_is(v, lo, hi, "FILEPATH") {
        Some(CMakeVariableType::FilePath)
    } else if window_is(v, lo, hi, "PATH") {
        Some(CMakeVariableType::Path)
    } else if window_is(v, lo, hi, "STRING") {
        Some(CMakeVariableType::String)
    } else if window_is(v, lo, hi, "INTERNAL") {
        Some(CMakeVariableType::Internal)
    } else {
        None
    }
}

impl CMakeVariable {
    /// A variable with the given parts.
    pub fn new(name: String, var_type: CMakeVariableType, value: String, advanced: bool) -> (r:
        CMakeVariable)
        ensures
            r@ == (VariableView { name: name@, var_type, value: value@, advanced }),
    {
        CMakeVariable { name, var_type, value, advanced }
    }

    /// The name, without the advanced suffix.
    pub fn name(&self) -> (r: &str)
        ensures
            r@ == self@.name,
    {
        self.name.as_str()
    }

    /// The declared type.
    pub fn var_type(&self) -> (r: CMakeVariableType)
        ensures
            r == self@.var_type,
    {
        self.var_type
    }

    /// The value, as it stands after the `=`.
    pub fn value(&self) -> (r: &str)
        ensures
            r@ == self@.value,
    {
        self.value.as_str()
    }

    /// Whether the variable is marked as advanced.
    pub fn advanced(&self) -> (r: bool)
        ensures
            r == self@.advanced,
    {
        self.advanced
    }

    /// The variable that the line `s` declares, or the reason why it declares
    /// none. A variable that a line declares has a name.
    pub fn from_str(s: &str) -> (r: Result<CMakeVariable, Error>)
        ensures
            match r {
                Ok(v) => parse_line(s@) == Ok::<VariableView, ErrorView>(v@),
                Err(e) => parse_line(s@) == Err::<VariableView, ErrorView>(e@),
            },
            r matches Ok(v) ==> v@.name.len() > 0,
    {
        let v = to_chars(s);
        let n = v.len();
        let ghost line = v@;
        assert(line.subrange(0, n as int) =~= line);
        let (a, b) = trim_window(&v, 0, n);
        let ghost t = line.subrange(a as int, b as int);
        if a == b {
            return Err(Error::CMakeVariableParseErrorEmptyLine);
        }
        if v[a] == '#' || (b - a >= 2 && v[a] == '/' && v[a + 1] == '/') {
            return Err(Error::CMakeVariableParseErrorCommentLine);
        }
        let eq = find_char(&v, a, b, '=');
        if eq == b {
            return Err(Error::CMakeVariableParseErrorAssignmentLine);
        }
        assert(t.take(eq - a) =~= line.subrange(a as int, eq as int));
        assert(t.skip(eq - a + 1) =~= line.subrange(eq + 1, b as int));
        let (la, lb) = trim_window(&v, a, eq);
        let (ra, rb) = trim_window(&v, eq + 1, b);
        let ghost lhs = line.subrange(la as int, lb as int);
        if la == lb {
            return Err(Error::CMakeVariableParseErrorMissingName);
        }
        let colon = find_char(&v, la, lb, ':');
        if colon == lb {
            return Err(Error::CMakeVariableParseErrorMissingColon);
        }
        assert(lhs.take(colon - la) =~= line.subrange(la as int, colon as int));
        assert(lhs.skip(colon - la + 1) =~= line.subrange(colon + 1, lb as int));
        let (ka, kb) = trim_window(&v, la, colon);
        let (ta, tb) = trim_window(&v, colon + 1, lb);
        let ghost key = line.subrange(ka as int, kb as int);
        if ka == kb || ta == tb {
            return Err(Error::CMakeVariableParseErrorMissingName);
        }
        proof {
            reveal_strlit("-ADVANCED");
        }
        let advanced = kb - ka >= 9 && window_is(&v, kb - 9, kb, "-ADVANCED");
        assert(advanced == is_advanced_key(key)) by {
            if kb - ka >= 9 {
                assert(key.subrange(key.len() - 9, key.len() as int) =~= line.subrange(
                    kb - 9,
                    kb as int,
                ));
            }
        }
        let name_end = if advanced {
            kb - 9
        } else {
            kb
        };
        assert(bare_name(key) =~= line.subrange(ka as int, name_end as int));
        if name_end == ka {
            return Err(Error::CMakeVariableParseErrorMissingName);
        }
        match kind_in_window(&v, ta, tb) {
            None => {
                let text = s.substring_char(ta, tb);
                Err(Error::CMakeVariableTypeUnknown(text.to_owned()))
            },
            Some(var_type) => {
                let name = s.substring_char(ka, name_end);
                let value = s.substring_char(ra, rb);
                Ok(
                    CMakeVariable {
                        name: name.to_owned(),
                        var_type,
                        value: value.to_owned(),
                        advanced,
                    },
                )
            },
        }
    }

    /// The line that stands for the variable.
    pub fn to_string(&self) -> (r: String)
        ensures
            r@ == format_variable(self@),
    {
        proof {
            reveal_strlit(":");
            reveal_strlit("=");
            reveal_strlit("");
        }
        let mut r = self.name.clone();
        if self.advanced {
            r.append("-ADVANCED");
        }
        r.append(":");
        r.append(self.var_type.as_str());
        r.append("=");
        r.append(self.value.as_str());
        proof {
            assert(":"@ =~= seq![':']);
            assert("="@ =~= seq!['=']);
            assert(self.name@ + Seq::<char>::empty() =~= self.name@);
        }
        r
    }
}

impl Clone for CMakeVariable {
    fn clone(&self) -> (r: CMakeVariable)
        ensures
            r@ == self@,
    {
        CMakeVariable {
            name: self.name.clone(),
            var_type: self.var_type,
            value: self.value.clone(),
            advanced: self.advanced,
        }
    }
}

/// The name of the variable that holds the source directory.
pub open spec fn home_directory_name() -> Seq<char> {
    "CMAKE_HOME_DIRECTORY"@
}

/// The name of the variable that holds the directory of the cache file, which
/// is the build directory.
pub open spec fn cachefile_dir_name() -> Seq<char> {
    "CMAKE_CACHEFILE_DIR"@
}

/// The name of the variable that holds the generator.
pub open spec fn generator_name() -> Seq<char> {
    "CMAKE_GENERATOR"@
}

/// A field of the cache that is taken from the variable of a well-known name.
#[derive(Copy, Clone, Debug, PartialEq, Eq, Hash, Structural)]
pub enum DerivedField {
    SourceDir,
    BuildDir,
    Generator,
}

impl DerivedField {
    /// The name of the variable from which the field is taken.
    pub open spec fn variable_name(self) -> Seq<char> {
        match self {
            DerivedField::SourceDir => home_directory_name(),
            DerivedField::BuildDir => cachefile_dir_name(),
            DerivedField::Generator => generator_name(),
        }
    }

    /// The name of the variable from which the field is taken.
    pub fn name(&self) -> (r: &'static str)
        ensures
            r@ == self.variable_name(),
    {
        match self {
            DerivedField::SourceDir => "CMAKE_HOME_DIRECTORY",
            DerivedField::BuildDir => "CMAKE_CACHEFILE_DIR",
            DerivedField::Generator => "CMAKE_GENERATOR",
        }
    }

    /// The field that is taken from the variable named `name`, if there is
    /// one.
    pub fn of_variable(name: &str) -> (r: Option<DerivedField>)
        ensures
            r == derived_field(name@),
    {
        let fields = [DerivedField::SourceDir, DerivedField::BuildDir, DerivedField::Generator];
        let mut i: usize = 0;
        while i < 3
            invariant
                i <= 3,
                fields@ == seq![
                    DerivedField::SourceDir,
                    DerivedField::BuildDir,
                    DerivedField::Generator,
                ],
                forall|j: int| 0 <= j < i ==> name@ != (#[trigger] fields@[j]).variable_name(),
            decreases 3 - i,
        {
            if name_order(name, fields[i].name()) == NameOrder::Same {
                return Some(fields[i]);
            }
            i = i + 1;
        }
        assert(name@ != fields@[0].variable_name());
        assert(name@ != fields@[1].variable_name());
        assert(name@ != fields@[2].variable_name());
        None
    }
}

/// The field that is taken from the variable named `name`, if there is one.
pub open spec fn derived_field(name: Seq<char>) -> Option<DerivedField> {
    if name == DerivedField::SourceDir.variable_name() {
        Some(DerivedField::SourceDir)
    } else if name == DerivedField::BuildDir.variable_name() {
        Some(DerivedField::BuildDir)
    } else if name == DerivedField::Generator.variable_name() {
        Some(DerivedField::Generator)
    } else {
        None
    }
}

/// What a CMake cache file holds.
#[derive(Clone, Debug, PartialEq, Eq, Hash)]
pub struct CMakeCache {
    source_dir: Option<String>,
    build_dir: Option<String>,
    generator: Option<String>,
    variables: Variables,
}

/// The mathematical value of a [`CMakeCache`].
pub struct CacheView {
    pub source_dir: Option<Seq<char>>,
    pub build_dir: Option<Seq<char>>,
    pub generator: Option<Seq<char>>,
    pub variables: Map<Seq<char>, VariableView>,
}

/// The text of an optional string.
pub open spec fn option_text(s: Option<String>) -> Option<Seq<char>> {
    match s {
        Some(s) => Some(s@),
        None => None,
    }
}

impl View for CMakeCache {
    type V = CacheView;

    closed spec fn view(&self) -> CacheView {
        CacheView {
            source_dir: option_text(self.source_dir),
            build_dir: option_text(self.build_dir),
            generator: option_text(self.generator),
            variables: self.variables@,
        }
    }
}

/// The cache in which nothing is known.
pub open spec fn empty_cache() -> CacheView {
    CacheView { source_dir: None, build_dir: None, generator: None, variables: Map::empty() }
}

/// The cache `c` with `value` in the given field.
pub open spec fn with_field(c: CacheView, field: DerivedField, value: Seq<char>) -> CacheView {
    match field {
        DerivedField::SourceDir => CacheView { source_dir: Some(value), ..c },
        DerivedField::BuildDir => CacheView { build_dir: Some(value), ..c },
        DerivedField::Generator => CacheView { generator: Some(value), ..c },
    }
}

/// The cache `c` after the variable `v` was read. A variable under one of the
/// three well-known names sets the field that belongs to the name, whatever
/// its type; a variable enters the table unless its type is `Internal`.
pub open spec fn record(c: CacheView, v: VariableView) -> CacheView {
    let noted = match derived_field(v.name) {
        Some(field) => with_field(c, field, v.value),
        None => c,
    };
    if v.var_type == CMakeVariableType::Internal {
        noted
    } else {
        CacheView { variables: noted.variables.insert(v.name, v), ..noted }
    }
}

/// The cache `c` after `line` was read: a line that declares no variable
/// changes nothing.
pub open spec fn read_line(c: CacheView, line: Seq<char>) -> CacheView {
    match parse_line(line) {
        Ok(v) => record(c, v),
        Err(_) => c,
    }
}

/// The cache `c` after `lines` were read in turn.
pub open spec fn read_lines(c: CacheView, lines: Seq<Seq<char>>) -> CacheView
    decreases lines.len(),
{
    if lines.len() == 0 {
        c
    } else {
        read_line(read_lines(c, lines.drop_last()), lines.last())
    }
}

/// What the bytes of a cache file hold: what is known after its lines were
/// read, starting with nothing. A line that is no UTF-8 counts as an empty
/// line.
pub open spec fn load(data: Seq<u8>) -> CacheView {
    read_lines(empty_cache(), text_lines(data))
}

impl CMakeCache {
    /// The source directory, if the cache names one.
    pub fn source_dir(&self) -> (r: Option<&str>)
        ensures
            r is Some <==> self@.source_dir is Some,
            r matches Some(s) ==> Some(s@) == self@.source_dir,
    {
        match &self.source_dir {
            Some(s) => Some(s.as_str()),
            None => None,
        }
    }

    /// The build directory, if the cache names one.
    pub fn build_dir(&self) -> (r: Option<&str>)
        ensures
            r is Some <==> self@.build_dir is Some,
            r matches Some(s) ==> Some(s@) == self@.build_dir,
    {
        match &self.build_dir {
            Some(s) => Some(s.as_str()),
            None => None,
        }
    }

    /// The generator, if the cache names one.
    pub fn generator(&self) -> (r: Option<&str>)
        ensures
            r is Some <==> self@.generator is Some,
            r matches Some(s) ==> Some(s@) == self@.generator,
    {
        match &self.generator {
            Some(s) => Some(s.as_str()),
            None => None,
        }
    }

    /// The table of the variables whose type is not `Internal`.
    pub fn variables(&self) -> (r: &Variables)
        ensures
            r@ == self@.variables,
    {
        &self.variables
    }

    /// Puts `value` in the given field.
    fn set_field(&mut self, field: DerivedField, value: String)
        ensures
            final(self)@ == with_field(old(self)@, field, value@),
    {
        match field {
            DerivedField::SourceDir => self.source_dir = Some(value),
            DerivedField::BuildDir => self.build_dir = Some(value),
            DerivedField::Generator => self.generator = Some(value),
        }
    }

    /// Takes note of one variable that was read.
    fn record(&mut self, variable: CMakeVariable)
        ensures
            final(self)@ == record(old(self)@, variable@),
    {
        if let Some(field) = DerivedField::of_variable(variable.name()) {
            self.set_field(field, variable.value().to_owned());
        }
        if variable.var_type() != CMakeVariableType::Internal {
            let name = variable.name().to_owned();
            self.variables.insert(name, variable);
        }
    }

    /// Reads a cache file from its bytes. This never fails: a line that
    /// declares no variable, or that is no UTF-8, is passed over.
    pub fn parse(data: &[u8]) -> (r: Option<CMakeCache>)
        ensures
            r matches Some(cache) && cache@ == load(data@),
    {
        let mut cache = CMakeCache::default();
        let n = data.len();
        let mut pos: usize = 0;
        let ghost mut done: Seq<Seq<u8>> = Seq::empty();
        proof {
            assert(data@.skip(0) =~= data@);
            assert(done.map_values(|line: Seq<u8>| line_text(line)) =~= Seq::<Seq<char>>::empty());
        }
        while pos < n
            invariant
                n == data@.len(),
                pos <= n,
                split_lines(data@) == done + split_lines(data@.skip(pos as int)),
                cache@ == read_lines(
                    empty_cache(),
                    done.map_values(|line: Seq<u8>| line_text(line)),
                ),
            decreases n - pos,
        {
            let (line, next) = next_line(data, pos);
            let ghost before = done.map_values(|line: Seq<u8>| line_text(line));
            proof {
                let rest = split_lines(data@.skip(next as int));
                assert(done + (seq![line@] + rest) =~= done.push(line@) + rest);
                done = done.push(line@);
                let after = done.map_values(|line: Seq<u8>| line_text(line));
                assert(after.drop_last() =~= before);
                assert(after.last() == line_text(line@));
            }
            match read_text(line) {
                Some(s) => {
                    match CMakeVariable::from_str(s) {
                        Ok(variable) => {
                            cache.record(variable);
                        },
                        Err(_) => {},
                    }
                },
                None => {
                    proof {
                        assert(trim(Seq::<char>::empty()) =~= Seq::<char>::empty());
                    }
                },
            }
            pos = next;
        }
        proof {
            assert(data@.skip(n as int) =~= Seq::<u8>::empty());
            assert(done + Seq::<Seq<u8>>::empty() =~= done);
        }
        Some(cache)
    }
}

/// Whether `line` declares a variable named `name`.
pub open spec fn declares(line: Seq<char>, name: Seq<char>) -> bool {
    parse_line(line) matches Ok(v) && v.name == name
}

/// The names of the variables that `lines` declare.
pub open spec fn names_in(lines: Seq<Seq<char>>) -> Set<Seq<char>> {
    Set::new(|name: Seq<char>| exists|i: int| 0 <= i < lines.len() && declares(lines[i], name))
}

/// The names that lines and one more line declare are those that the lines
/// declare and the one that the line declares.
pub proof fn lemma_names_in_push(lines: Seq<Seq<char>>, line: Seq<char>)
    ensures
        forall|name: Seq<char>|
            #![trigger names_in(lines.push(line)).contains(name)]
            names_in(lines.push(line)).contains(name) <==> names_in(lines).contains(name)
                || declares(line, name),
{
    let more = lines.push(line);
    assert forall|name: Seq<char>|
        #![trigger names_in(more).contains(name)]
        names_in(more).contains(name) <==> names_in(lines).contains(name) || declares(
            line,
            name,
        ) by {
        if names_in(more).contains(name) {
            let i = choose|i: int| 0 <= i < more.len() && declares(more[i], name);
            if i < lines.len() {
                assert(lines[i] == more[i]);
            }
        }
        if names_in(lines).contains(name) {
            let i = choose|i: int| 0 <= i < lines.len() && declares(lines[i], name);
            assert(more[i] == lines[i]);
        }
        if declares(line, name) {
            assert(declares(more[more.len() - 1], name));
        }
    }
}

/// The variable that the patch puts in the place of `v`: the one that it
/// holds under the name of `v`, or `v` itself where it holds none.
pub open spec fn patched_variable(v: VariableView, patch: Map<Seq<char>, VariableView>) -> VariableView {
    if patch.contains_key(v.name) {
        patch[v.name]
    } else {
        v
    }
}

/// What stands in the patched text for `line`. A line that declares no
/// variable stays as it is. A line that declares a variable whose name is in
/// the patch gives way to the variable of the patch; any other is written
/// anew from what it declares.
pub open spec fn patch_line(line: Seq<char>, patch: Map<Seq<char>, VariableView>) -> Seq<char> {
    match parse_line(line) {
        Err(_) => line,
        Ok(v) => format_variable(patched_variable(v, patch)),
    }
}

/// What is added to the patched text for the entries of the patch whose names
/// are not among `seen`, the names that the text declares: for each, in the
/// order of the names, an empty line and the line of the variable.
pub open spec fn patch_tail(entries: Seq<(Seq<char>, VariableView)>, seen: Set<Seq<char>>) -> Seq<
    char,
>
    decreases entries.len(),
{
    if entries.len() == 0 {
        Seq::empty()
    } else {
        patch_tail(entries.drop_last(), seen) + (if seen.contains(entries.last().0) {
            Seq::<char>::empty()
        } else {
            seq!['\n'] + format_variable(entries.last().1) + seq!['\n']
        })
    }
}

/// The patched text: each of `lines` patched and followed by a line feed, then
/// what is added for the new names.
pub open spec fn patched_text(lines: Seq<Seq<char>>, entries: Seq<(Seq<char>, VariableView)>) -> Seq<
    char,
> {
    join_lines(lines.map_values(|line: Seq<char>| patch_line(line, map_of(entries)))) + patch_tail(
        entries,
        names_in(lines),
    )
}

/// The description of the fault that a stream with a line that is no UTF-8
/// reports.
pub open spec fn invalid_utf8_message() -> Seq<char> {
    "stream did not contain valid UTF-8"@
}

/// The result of patching the bytes of a cache file: the patched text, or the
/// fault of a line that cannot be read.
pub open spec fn patch_data(data: Seq<u8>, entries: Seq<(Seq<char>, VariableView)>) -> Result<
    Seq<char>,
    ErrorView,
> {
    if is_text(data) {
        Ok(patched_text(text_lines(data), entries))
    } else {
        Err(ErrorView::IO(invalid_utf8_message()))
    }
}

/// Patches the bytes of a cache file with the variables of `patch`. Lines that
/// declare a variable of the patch are replaced, the variables that the file
/// did not declare are added at the end, and all else stays. A line that is no
/// UTF-8 is a fault, and nothing is returned then.
pub fn patch_cmake_cache_data(in_cmake_cache: &[u8], patch: &Variables) -> (r: Result<String, Error>)
    ensures
        match r {
            Ok(text) => patch_data(in_cmake_cache@, patch.entries()) == Ok::<Seq<char>, ErrorView>(
                text@,
            ),
            Err(e) => patch_data(in_cmake_cache@, patch.entries()) == Err::<Seq<char>, ErrorView>(
                e@,
            ),
        },
{
    let n = in_cmake_cache.len();
    let ghost data = in_cmake_cache;
    let count = patch.len();
    let ghost entries = patch.entries();
    let ghost table = map_of(entries);
    proof {
        use_type_invariant(patch);
        patch.lemma_entries();
        lemma_map_of(entries);
        reveal_strlit("\n");
        assert("\n"@ =~= seq!['\n']);
    }
    let mut pending: Vec<bool> = Vec::new();
    let mut k: usize = 0;
    while k < count
        invariant
            k <= count,
            pending@.len() == k,
            forall|j: int| 0 <= j < k ==> pending@[j],
        decreases count - k,
    {
        pending.push(true);
        k = k + 1;
    }
    let mut result = String::new();
    let mut pos: usize = 0;
    let ghost mut done: Seq<Seq<u8>> = Seq::empty();
    proof {
        assert(data@.skip(0) =~= data@);
        let lines = done.map_values(|line: Seq<u8>| line_text(line));
        assert(lines =~= Seq::<Seq<char>>::empty());
        assert(lines.map_values(|line: Seq<char>| patch_line(line, table)) =~= Seq::<
            Seq<char>,
        >::empty());
    }
    while pos < n
        invariant
            n == data@.len(),
            data == in_cmake_cache,
            pos <= n,
            count == entries.len(),
            entries == patch.entries(),
            ascending(entries),
            table == map_of(entries),
            "\n"@ == seq!['\n'],
            forall|i: int|
                0 <= i < entries.len() ==> table.contains_key(#[trigger] entries[i].0)
                    && table[entries[i].0] == entries[i].1,
            forall|key: Seq<char>| table.contains_key(key) <==> has_key(entries, key),
            split_lines(data@) == done + split_lines(data@.skip(pos as int)),
            forall|i: int| 0 <= i < done.len() ==> vstd::utf8::valid_utf8(#[trigger] done[i]),
            result@ == join_lines(
                done.map_values(|line: Seq<u8>| line_text(line)).map_values(
                    |line: Seq<char>| patch_line(line, table),
                ),
            ),
            pending@.len() == count,
            forall|j: int|
                0 <= j < count ==> (pending@[j] <==> !names_in(
                    done.map_values(|line: Seq<u8>| line_text(line)),
                ).contains(#[trigger] entries[j].0)),
        decreases n - pos,
    {
        let (line, next) = next_line(in_cmake_cache, pos);
        let ghost lines_before = done.map_values(|line: Seq<u8>| line_text(line));
        let ghost done_before = done;
        proof {
            let rest = split_lines(data@.skip(next as int));
            assert(done + (seq![line@] + rest) =~= done.push(line@) + rest);
            done = done.push(line@);
        }
        let ghost lines = done.map_values(|line: Seq<u8>| line_text(line));
        let ghost the_line = line_text(line@);
        proof {
            assert(lines =~= lines_before.push(the_line));
            let patched_before = lines_before.map_values(|line: Seq<char>| patch_line(line, table));
            let patched = lines.map_values(|line: Seq<char>| patch_line(line, table));
            assert(patched.drop_last() =~= patched_before);
            assert(patched.last() == patch_line(the_line, table));
        }
        let s = match read_text(line) {
            Some(s) => s,
            None => {
                proof {
                    let all = split_lines(data@);
                    assert(all[done_before.len() as int] == line@);
                    assert(!is_text(data@));
                }
                return Err(Error::IO("stream did not contain valid UTF-8".to_owned()));
            },
        };
        match CMakeVariable::from_str(s) {
            Ok(var) => {
                let found = patch.position(var.name());
                let ghost at_hit = found is Some;
                match found {
                    Some(at) => {
                        pending.set(at, false);
                        let text = patch.value_at(at).to_string();
                        result.append(text.as_str());
                    },
                    None => {
                        let text = var.to_string();
                        result.append(text.as_str());
                    },
                }
                proof {
                    lemma_map_of(entries);
                    lemma_names_in_push(lines_before, the_line);
                    assert(has_key(entries, var@.name) ==> at_hit);
                }
            },
            Err(_) => {
                result.append(s);
                proof {
                    lemma_names_in_push(lines_before, the_line);
                }
            },
        }
        result.append("\n");
        pos = next;
    }
    proof {
        assert(data@.skip(n as int) =~= Seq::<u8>::empty());
        assert(done + Seq::<Seq<u8>>::empty() =~= done);
        assert(done == split_lines(data@));
        assert(is_text(data@));
        assert(entries.take(0) =~= Seq::<(Seq<char>, VariableView)>::empty());
    }
    let ghost lines = text_lines(data@);
    let ghost body = result@;
    let mut j: usize = 0;
    while j < count
        invariant
            j <= count,
            count == entries.len(),
            entries == patch.entries(),
            "\n"@ == seq!['\n'],
            pending@.len() == count,
            forall|i: int|
                0 <= i < count ==> (pending@[i] <==> !names_in(lines).contains(
                    #[trigger] entries[i].0,
                )),
            result@ == body + patch_tail(entries.take(j as int), names_in(lines)),
        decreases count - j,
    {
        proof {
            let head = entries.take(j + 1);
            assert(head.drop_last() =~= entries.take(j as int));
            assert(head.last() == entries[j as int]);
        }
        if pending[j] {
            let text = patch.value_at(j).to_string();
            result.append("\n");
            result.append(text.as_str());
            result.append("\n");
            proof {
                let t = patch_tail(entries.take(j as int), names_in(lines));
                let f = format_variable(entries[j as int].1);
                assert(body + t + seq!['\n'] + f + seq!['\n'] =~= body + (t + (seq!['\n'] + f
                    + seq!['\n'])));
            }
        } else {
            proof {
                let t = patch_tail(entries.take(j as int), names_in(lines));
                assert(t + Seq::<char>::empty() =~= t);
            }
        }
        j = j + 1;
    }
    proof {
        assert(entries.take(count as int) =~= entries);
    }
    Ok(result)
}

impl Default for CMakeCache {
    /// The cache in which nothing is known.
    fn default() -> (r: CMakeCache)
        ensures
            r@ == empty_cache(),
    {
        CMakeCache { source_dir: None, build_dir: None, generator: None, variables: Variables::new() }
    }
}

} // verus!
