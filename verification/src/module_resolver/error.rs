//! Module identifiers, file kinds, and the errors of module resolution.

use vstd::prelude::*;

verus! {

/// Whether two string slices hold the same text.
pub(crate) fn same_text(a: &str, b: &str) -> (same: bool)
    ensures
        same == (a@ == b@),
{
    let left = a.to_owned();
    let right = b.to_owned();
    left == right
}

/// What kind of source file a module is, decided by its file extension.
#[derive(Debug, Clone, Copy, PartialEq, Eq, Hash, Structural)]
pub enum ModuleKind {
    /// A typed source file.
    Typed,
    /// An ambient declaration file.
    Declaration,
    /// A plain Lua file.
    PlainLua,
}

impl ModuleKind {
    /// The extension text that selects each kind.
    pub open spec fn spec_extension(self) -> Seq<char> {
        match self {
            ModuleKind::Typed => "luax"@,
            ModuleKind::Declaration => "d.luax"@,
            ModuleKind::PlainLua => "lua"@,
        }
    }

    /// The kind that an extension text selects, if any.
    pub open spec fn spec_from_extension(ext: Seq<char>) -> Option<ModuleKind> {
        if ext == "luax"@ {
            Some(ModuleKind::Typed)
        } else if ext == ".d.luax"@ {
            Some(ModuleKind::Declaration)
        } else if ext == "lua"@ {
            Some(ModuleKind::PlainLua)
        } else {
            None
        }
    }

    /// The kind of module that a file with the extension `ext` holds, or
    /// nothing for an extension that is not that of a module. The extension
    /// of a declaration file is its doubled qualifier, dot included.
    pub fn from_extension(ext: &str) -> (kind: Option<ModuleKind>)
        ensures
            kind == Self::spec_from_extension(ext@),
    {
        if same_text(ext, "luax") {
            Some(ModuleKind::Typed)
        } else if same_text(ext, ".d.luax") {
            Some(ModuleKind::Declaration)
        } else if same_text(ext, "lua") {
            Some(ModuleKind::PlainLua)
        } else {
            None
        }
    }

    /// The extension of the files that hold modules of this kind.
    pub fn extension(&self) -> (ext: &'static str)
        ensures
            ext@ == self.spec_extension(),
    {
        match self {
            ModuleKind::Typed => "luax",
            ModuleKind::Declaration => "d.luax",
            ModuleKind::PlainLua => "lua",
        }
    }

    /// The end of the path of a file of this kind: a dot and the extension.
    pub open spec fn spec_path_suffix(self) -> Seq<char> {
        "."@ + self.spec_extension()
    }

    /// The kind of the file with the path `path`, if it is a module at all.
    /// A declaration file is known by the doubled qualifier before the
    /// extension of a typed file, so it is not taken for a typed file.
    pub open spec fn spec_from_path(path: Seq<char>) -> Option<ModuleKind> {
        if ModuleKind::Declaration.spec_path_suffix().is_suffix_of(path) {
            Some(ModuleKind::Declaration)
        } else if ModuleKind::Typed.spec_path_suffix().is_suffix_of(path) {
            Some(ModuleKind::Typed)
        } else if ModuleKind::PlainLua.spec_path_suffix().is_suffix_of(path) {
            Some(ModuleKind::PlainLua)
        } else {
            None
        }
    }

    /// Whether `path` ends as the path of a file of this kind does.
    fn marks(&self, path: &str) -> (yes: bool)
        ensures
            yes == self.spec_path_suffix().is_suffix_of(path@),
    {
        let mut suffix = String::from_str(".");
        suffix.append(self.extension());
        ends_with(path, suffix.as_str())
    }

    /// Classifies a file by its path: the kind of module that it holds, or
    /// nothing for a file that is no module.
    pub fn from_path(path: &str) -> (kind: Option<ModuleKind>)
        ensures
            kind == Self::spec_from_path(path@),
    {
        if ModuleKind::Declaration.marks(path) {
            Some(ModuleKind::Declaration)
        } else if ModuleKind::Typed.marks(path) {
            Some(ModuleKind::Typed)
        } else if ModuleKind::PlainLua.marks(path) {
            Some(ModuleKind::PlainLua)
        } else {
            None
        }
    }

    /// Different kinds have different extensions: the extension tells the kind.
    pub proof fn lemma_extension_tells_kind(self, other: ModuleKind)
        requires
            self.spec_extension() == other.spec_extension(),
        ensures
            self == other,
    {
        reveal_strlit("luax");
        reveal_strlit("d.luax");
        reveal_strlit("lua");
        assert("luax"@.len() == 4);
        assert("d.luax"@.len() == 6);
        assert("lua"@.len() == 3);
    }

    /// The extensions of typed and plain files select their own kind. The
    /// extension of declaration files does not: such a file is known by its
    /// doubled qualifier, dot included.
    pub proof fn lemma_extension_round_trip(self)
        ensures
            Self::spec_from_extension(self.spec_extension()) == if self == ModuleKind::Declaration {
                None
            } else {
                Some(self)
            },
    {
        reveal_strlit("luax");
        reveal_strlit("d.luax");
        reveal_strlit(".d.luax");
        reveal_strlit("lua");
        let ext = self.spec_extension();
        match self {
            ModuleKind::Typed => {},
            ModuleKind::Declaration => {
                assert(ext.len() == 6);
                assert("luax"@.len() == 4 && ".d.luax"@.len() == 7 && "lua"@.len() == 3);
            },
            ModuleKind::PlainLua => {
                assert(ext.len() == 3);
                assert("luax"@.len() == 4 && ".d.luax"@.len() == 7);
            },
        }
    }
}

/// Whether `text` ends with `suffix`.
pub(crate) fn ends_with(text: &str, suffix: &str) -> (yes: bool)
    ensures
        yes == suffix@.is_suffix_of(text@),
{
    let n = text.unicode_len();
    let m = suffix.unicode_len();
    if m > n {
        return false;
    }
    let start = n - m;
    let mut i: usize = 0;
    while i < m
        invariant
            n == text@.len(),
            m == suffix@.len(),
            start == n - m,
            i <= m <= n,
            forall|j: int| 0 <= j < i ==> text@[start + j] == suffix@[j],
        decreases m - i,
    {
        if text.get_char(start + i) != suffix.get_char(i) {
            proof {
                let tail = text@.subrange(text@.len() - suffix@.len(), text@.len() as int);
                assert(tail[i as int] == text@[start + i]);
            }
            return false;
        }
        i = i + 1;
    }
    proof {
        assert(suffix@ =~= text@.subrange(text@.len() - suffix@.len(), text@.len() as int));
    }
    true
}

/// The identity of a module: the canonical path of its source file, as text.
/// Two identifiers are equal exactly when their paths are.
#[derive(Debug, Eq, Hash)]
pub struct ModuleId {
    path: String,
}

impl View for ModuleId {
    type V = Seq<char>;

    closed spec fn view(&self) -> Seq<char> {
        self.path@
    }
}

impl ModuleId {
    /// The identifier of the module whose source file has the canonical
    /// path `path`.
    pub fn new(path: String) -> (id: ModuleId)
        ensures
            id@ == path@,
    {
        ModuleId { path }
    }

    /// The canonical path of the module's source file.
    pub fn path(&self) -> (path: &String)
        ensures
            path@ == self@,
    {
        &self.path
    }

    /// The canonical path of the module's source file, as a string slice.
    pub fn as_str(&self) -> (text: &str)
        ensures
            text@ == self@,
    {
        self.path.as_str()
    }

    /// The path, as it is shown to a user.
    pub fn to_string(&self) -> (text: String)
        ensures
            text@ == self@,
    {
        self.path.clone()
    }

    /// The kind of module that the file of this identifier holds, or
    /// nothing if its path does not end as the path of a module does.
    pub fn kind(&self) -> (kind: Option<ModuleKind>)
        ensures
            kind == ModuleKind::spec_from_path(self@),
    {
        ModuleKind::from_path(self.path.as_str())
    }
}

impl Clone for ModuleId {
    fn clone(&self) -> (copy: ModuleId)
        ensures
            copy@ == self@,
    {
        ModuleId { path: self.path.clone() }
    }
}

impl PartialEq for ModuleId {
    fn eq(&self, other: &ModuleId) -> (same: bool) {
        self.path == other.path
    }
}

impl vstd::std_specs::cmp::PartialEqSpecImpl for ModuleId {
    open spec fn obeys_eq_spec() -> bool {
        true
    }

    open spec fn eq_spec(&self, other: &ModuleId) -> bool {
        self@ == other@
    }
}

impl From<String> for ModuleId {
    fn from(path: String) -> (id: ModuleId)
        ensures
            id@ == path@,
    {
        ModuleId { path }
    }
}

impl vstd::std_specs::convert::FromSpecImpl<String> for ModuleId {
    open spec fn obeys_from_spec() -> bool {
        true
    }

    closed spec fn from_spec(path: String) -> ModuleId {
        ModuleId { path }
    }
}

/// The texts of a sequence of module identifiers.
pub open spec fn id_texts(ids: Seq<ModuleId>) -> Seq<Seq<char>> {
    ids.map_values(|id: ModuleId| id@)
}

/// The texts of a sequence of strings.
pub open spec fn string_texts(items: Seq<String>) -> Seq<Seq<char>> {
    items.map_values(|item: String| item@)
}

/// One line for each searched path, each led by a line break and a dash.
pub open spec fn path_lines(paths: Seq<Seq<char>>) -> Seq<char>
    decreases paths.len(),
{
    if paths.len() == 0 {
        Seq::empty()
    } else {
        path_lines(paths.drop_last()) + "\n  - "@ + paths.last()
    }
}

/// The modules of a cycle in order, with an arrow between neighbours.
pub open spec fn cycle_chain(ids: Seq<Seq<char>>) -> Seq<char>
    decreases ids.len(),
{
    if ids.len() == 0 {
        Seq::empty()
    } else if ids.len() == 1 {
        ids[0]
    } else {
        cycle_chain(ids.drop_last()) + " -> "@ + ids.last()
    }
}

/// What can go wrong while modules are found, ordered and linked. Each
/// variant carries what a message about it needs.
#[derive(Debug)]
pub enum ModuleError {
    /// No file was found for an import; `searched_paths` lists every place tried.
    NotFound { source: String, searched_paths: Vec<String> },
    /// Modules import each other's values in a circle. `cycle` lists the
    /// circle in import order, its first module repeated at the end.
    CircularDependency { cycle: Vec<ModuleId> },
    /// An import path that cannot name a module.
    InvalidPath { source: String, reason: String },
    /// A source file could not be read.
    IoError { path: String, message: String },
    /// A module was asked for before it was checked.
    NotCompiled { id: ModuleId },
    /// A module does not export the name asked of it.
    ExportNotFound { module_id: ModuleId, export_name: String },
    /// A module exports one name both as a value and as a type.
    DuplicateExport { module_id: ModuleId, export_name: String },
}

/// A module error as mathematics: the variant, with texts in place of
/// strings and identifiers.
pub enum ErrorModel {
    NotFound { source: Seq<char>, searched_paths: Seq<Seq<char>> },
    CircularDependency { cycle: Seq<Seq<char>> },
    InvalidPath { source: Seq<char>, reason: Seq<char> },
    IoError { path: Seq<char>, message: Seq<char> },
    NotCompiled { id: Seq<char> },
    ExportNotFound { module_id: Seq<char>, export_name: Seq<char> },
    DuplicateExport { module_id: Seq<char>, export_name: Seq<char> },
}

impl ErrorModel {
    /// The message of each error, word for word.
    pub open spec fn message(self) -> Seq<char> {
        match self {
            ErrorModel::NotFound { source, searched_paths } => "Cannot find module '"@ + source
                + "'\nSearched paths:"@ + path_lines(searched_paths),
            ErrorModel::CircularDependency { cycle } => "Circular runtime dependency detected: "@
                + cycle_chain(cycle)
                + "\nTo break the cycle, turn one of these imports into `import type`."@,
            ErrorModel::InvalidPath { source, reason } => "Invalid module path '"@ + source + "': "@
                + reason,
            ErrorModel::IoError { path, message } => "I/O error reading '"@ + path + "': "@ + message,
            ErrorModel::NotCompiled { id } => "Module '"@ + id + "' has not been compiled yet"@,
            ErrorModel::ExportNotFound { module_id, export_name } => "Module '"@ + module_id
                + "' does not export '"@ + export_name + "'"@,
            ErrorModel::DuplicateExport { module_id, export_name } => "Duplicate export '"@
                + export_name + "' in module '"@ + module_id + "'"@,
        }
    }
}

impl View for ModuleError {
    type V = ErrorModel;

    open spec fn view(&self) -> ErrorModel {
        match self {
            ModuleError::NotFound { source, searched_paths } => ErrorModel::NotFound {
                source: source@,
                searched_paths: string_texts(searched_paths@),
            },
            ModuleError::CircularDependency { cycle } => ErrorModel::CircularDependency {
                cycle: id_texts(cycle@),
            },
            ModuleError::InvalidPath { source, reason } => ErrorModel::InvalidPath {
                source: source@,
                reason: reason@,
            },
            ModuleError::IoError { path, message } => ErrorModel::IoError {
                path: path@,
                message: message@,
            },
            ModuleError::NotCompiled { id } => ErrorModel::NotCompiled { id: id@ },
            ModuleError::ExportNotFound { module_id, export_name } => ErrorModel::ExportNotFound {
                module_id: module_id@,
                export_name: export_name@,
            },
            ModuleError::DuplicateExport { module_id, export_name } => ErrorModel::DuplicateExport {
                module_id: module_id@,
                export_name: export_name@,
            },
        }
    }
}

/// A copy of a list of strings.
fn copy_strings(items: &Vec<String>) -> (copy: Vec<String>)
    ensures
        string_texts(copy@) == string_texts(items@),
{
    let mut copy: Vec<String> = Vec::new();
    let mut i: usize = 0;
    while i < items.len()
        invariant
            i <= items.len(),
            copy.len() == i,
            forall|j: int| 0 <= j < i ==> (#[trigger] copy[j])@ == items[j]@,
        decreases items.len() - i,
    {
        copy.push(items[i].clone());
        i = i + 1;
    }
    proof {
        assert(string_texts(copy@) =~= string_texts(items@));
    }
    copy
}

/// A copy of a list of module identifiers.
fn copy_ids(items: &Vec<ModuleId>) -> (copy: Vec<ModuleId>)
    ensures
        id_texts(copy@) == id_texts(items@),
{
    let mut copy: Vec<ModuleId> = Vec::new();
    let mut i: usize = 0;
    while i < items.len()
        invariant
            i <= items.len(),
            copy.len() == i,
            forall|j: int| 0 <= j < i ==> (#[trigger] copy[j])@ == items[j]@,
        decreases items.len() - i,
    {
        copy.push(items[i].clone());
        i = i + 1;
    }
    proof {
        assert(id_texts(copy@) =~= id_texts(items@));
    }
    copy
}

impl Clone for ModuleError {
    fn clone(&self) -> (copy: ModuleError)
        ensures
            copy@ == self@,
    {
        match self {
            ModuleError::NotFound { source, searched_paths } => ModuleError::NotFound {
                source: source.clone(),
                searched_paths: copy_strings(searched_paths),
            },
            ModuleError::CircularDependency { cycle } => ModuleError::CircularDependency {
                cycle: copy_ids(cycle),
            },
            ModuleError::InvalidPath { source, reason } => ModuleError::InvalidPath {
                source: source.clone(),
                reason: reason.clone(),
            },
            ModuleError::IoError { path, message } => ModuleError::IoError {
                path: path.clone(),
                message: message.clone(),
            },
            ModuleError::NotCompiled { id } => ModuleError::NotCompiled { id: id.clone() },
            ModuleError::ExportNotFound { module_id, export_name } => ModuleError::ExportNotFound {
                module_id: module_id.clone(),
                export_name: export_name.clone(),
            },
            ModuleError::DuplicateExport { module_id, export_name } => ModuleError::DuplicateExport {
                module_id: module_id.clone(),
                export_name: export_name.clone(),
            },
        }
    }
}

impl ModuleError {
    /// The error that caused this one. Errors of module resolution are
    /// never caused by another error.
    pub fn source(&self) -> (cause: Option<&ModuleError>)
        ensures
            cause.is_none(),
    {
        None
    }

    /// The message that is shown to a user.
    pub fn to_string(&self) -> (text: String)
        ensures
            text@ == self@.message(),
    {
        match self {
            ModuleError::NotFound { source, searched_paths } => {
                let mut text = String::from_str("Cannot find module '");
                text.append(source.as_str());
                text.append("'\nSearched paths:");
                let ghost head = text@;
                let mut i: usize = 0;
                while i < searched_paths.len()
                    invariant
                        i <= searched_paths.len(),
                        text@ == head + path_lines(string_texts(searched_paths@).take(i as int)),
                    decreases searched_paths.len() - i,
                {
                    proof {
                        let all = string_texts(searched_paths@);
                        assert(all.take(i + 1).drop_last() =~= all.take(i as int));
                        assert(all.take(i + 1).last() == searched_paths@[i as int]@);
                    }
                    text.append("\n  - ");
                    text.append(searched_paths[i].as_str());
                    i = i + 1;
                }
                proof {
                    let all = string_texts(searched_paths@);
                    assert(all.take(i as int) =~= all);
                }
                text
            },
            ModuleError::CircularDependency { cycle } => {
                let mut text = String::from_str("Circular runtime dependency detected: ");
                let ghost head = text@;
                let mut i: usize = 0;
                while i < cycle.len()
                    invariant
                        i <= cycle.len(),
                        text@ == head + cycle_chain(id_texts(cycle@).take(i as int)),
                    decreases cycle.len() - i,
                {
                    proof {
                        let all = id_texts(cycle@);
                        assert(all.take(i + 1).drop_last() =~= all.take(i as int));
                        assert(all.take(i + 1).last() == cycle@[i as int]@);
                        if i == 0 {
                            assert(all.take(1)[0] == cycle@[0]@);
                        }
                    }
                    if i > 0 {
                        text.append(" -> ");
                    }
                    text.append(cycle[i].as_str());
                    i = i + 1;
                }
                proof {
                    let all = id_texts(cycle@);
                    assert(all.take(i as int) =~= all);
                }
                text.append("\nTo break the cycle, turn one of these imports into `import type`.");
                text
            },
            ModuleError::InvalidPath { source, reason } => {
                let mut text = String::from_str("Invalid module path '");
                text.append(source.as_str());
                text.append("': ");
                text.append(reason.as_str());
                text
            },
            ModuleError::IoError { path, message } => {
                let mut text = String::from_str("I/O error reading '");
                text.append(path.as_str());
                text.append("': ");
                text.append(message.as_str());
                text
            },
            ModuleError::NotCompiled { id } => {
                let mut text = String::from_str("Module '");
                text.append(id.as_str());
                text.append("' has not been compiled yet");
                text
            },
            ModuleError::ExportNotFound { module_id, export_name } => {
                let mut text = String::from_str("Module '");
                text.append(module_id.as_str());
                text.append("' does not export '");
                text.append(export_name.as_str());
                text.append("'");
                text
            },
            ModuleError::DuplicateExport { module_id, export_name } => {
                let mut text = String::from_str("Duplicate export '");
                text.append(export_name.as_str());
                text.append("' in module '");
                text.append(module_id.as_str());
                text.append("'");
                text
            },
        }
    }
}

} // verus!
