//! The CMake files of a project: which files of a tree are CMake files, and
//! what an analysis says of them.
//!
//! A path of a listing is made of the names from the project root down to the
//! file, with `/` between them.
use crate::error::{Error, ErrorView};
use crate::lines::join_lines;
use crate::text::{texts, to_chars, window_is};
use vstd::prelude::*;

verus! {

/// The list of found CMake files, each by its path below the project root.
pub type CMakeFiles = Vec<String>;

/// A single cmake file in the project like a *.cmake or CMakeLists.txt file.
#[derive(Debug, Clone, PartialEq, Eq, Hash)]
pub struct CMakeFile {
    /// The path to the cmake file.
    pub path: String,
    pub cmake_file_type: CMakeFileClassification,
    /// A list of other cmake files that are included by this cmake file.
    /// For example through include or add_subdirectory.
    pub includes: Vec<String>,
    /// A list of targets defined in this cmake file.
    pub targets: Vec<CMakeTarget>,
}

/// A single cmake target in the project like an executable or a library.
#[derive(Debug, Clone, PartialEq, Eq, Hash)]
pub struct CMakeTarget {
    /// The name of the cmake target also used for referencing.
    pub name: String,
    /// A more human-readable name for the cmake target.
    pub display_name: String,
    pub target_type: CMakeTargetType,
    /// The list of linked/referenced targets for the cmake target.
    /// The targets are listed by their names.
    pub linked_targets: Vec<String>,
}

/// The type of target defined in a cmake file.
/// Can either be a library or an executable.
#[derive(Debug, Clone, PartialEq, Eq, Hash)]
pub enum CMakeTargetType {
    Executable,
    Library,
}

/// The overall cmake project with all its cmake files and defined targets.
#[derive(Debug, Clone, PartialEq, Eq, Hash)]
pub struct CMakeProject {
    /// The name of the project.
    pub project_name: String,
    /// The list of cmake files in the project.
    pub cmake_files: Vec<CMakeFile>,
    /// The list of targets defined in the cmake files.
    pub targets: Vec<CMakeTarget>,
}

/// The classification of the cmake file.
/// That is, is it a CMakeLists.txt file, a Find script, or something else?
#[derive(Debug, Clone, PartialEq, Eq, Hash)]
pub enum CMakeFileClassification {
    CMakeLists,
    FindScript,
    Other,
}

/// What stands in a folder under a name.
#[derive(Debug, PartialEq, Eq, Hash)]
pub enum FolderEntry {
    /// Something that is no folder; `is_file` tells whether it is a regular
    /// file.
    File { name: String, is_file: bool },
    /// A folder with what stands in it, in the order in which it was read;
    /// `None` where the folder could not be read.
    Folder { name: String, entries: Option<Vec<FolderEntry>> },
}

/// What was found of a project folder: whether it is a directory at all,
/// whether a `CMakeLists.txt` stands in it, and what stands in it, in the
/// order in which it was read, or the description of the fault for which it
/// could not be read.
#[derive(Debug, PartialEq, Eq, Hash)]
pub struct ProjectListing {
    pub is_directory: bool,
    pub has_cmake_lists: bool,
    pub root: Result<Vec<FolderEntry>, String>,
}

/// The lower-case form of `text`, as the standard library gives it.
pub uninterp spec fn lowercase(text: Seq<char>) -> Seq<char>;

/// `str::to_lowercase`: the result is the lower-case form of the argument,
/// which depends on nothing else.
#[verifier::external_body]
fn to_lowercase(text: &str) -> (r: String)
    ensures
        r@ == lowercase(text@),
{
    text.to_lowercase()
}

/// The position just behind the last `c` in `s`, or 0 where `s` holds none.
pub open spec fn after_last(s: Seq<char>, c: char) -> int
    decreases s.len(),
{
    if s.len() == 0 {
        0
    } else if s.last() == c {
        s.len() as int
    } else {
        after_last(s.drop_last(), c)
    }
}

/// The last name of a path: what follows the last `/`. A path that ends with
/// `/` or with the name `..` has none.
pub open spec fn file_name(path: Seq<char>) -> Option<Seq<char>> {
    let name = path.skip(after_last(path, '/'));
    if name.len() == 0 || name == seq!['.', '.'] {
        None
    } else {
        Some(name)
    }
}

/// The extension of a file name: what follows its last `.`, unless that is
/// its first character.
pub open spec fn extension(name: Seq<char>) -> Option<Seq<char>> {
    let dot = after_last(name, '.');
    if dot <= 1 {
        None
    } else {
        Some(name.skip(dot))
    }
}

/// Whether a file whose lower-case extension and lower-case name are given is
/// a CMake file: its extension is `cmake`, or its name is `cmakelists.txt`.
pub open spec fn is_cmake_name_spec(
    lower_extension: Option<Seq<char>>,
    lower_name: Option<Seq<char>>,
) -> bool {
    lower_extension == Some("cmake"@) || lower_name == Some("cmakelists.txt"@)
}

/// The lower-case form of an optional text.
pub open spec fn lowercase_of(text: Option<Seq<char>>) -> Option<Seq<char>> {
    match text {
        Some(t) => Some(lowercase(t)),
        None => None,
    }
}

/// Whether the entry at `path` is a CMake file: a regular file whose name, in
/// any case of letters, is `CMakeLists.txt` or ends with `.cmake`.
pub open spec fn is_cmake_path(path: Seq<char>, is_file: bool) -> bool {
    is_file && match file_name(path) {
        Some(name) => is_cmake_name_spec(lowercase_of(extension(name)), Some(lowercase(name))),
        None => false,
    }
}

/// Whether a name begins at position `i` of `path`.
pub open spec fn starts_name(path: Seq<char>, i: int) -> bool {
    path[i] != '/' && (i == 0 || path[i - 1] == '/')
}

/// The number of names in a path.
pub open spec fn depth(path: Seq<char>) -> nat
    decreases path.len(),
{
    if path.len() == 0 {
        0
    } else {
        depth(path.drop_last()) + if starts_name(path, path.len() - 1) {
            1nat
        } else {
            0nat
        }
    }
}

/// The position just behind the last `c` in the window of `v` from `lo` to
/// `hi`, or `lo` where the window holds none.
fn find_after_last(v: &Vec<char>, lo: usize, hi: usize, c: char) -> (r: usize)
    requires
        lo <= hi <= v.len(),
    ensures
        lo <= r <= hi,
        r - lo == after_last(v@.subrange(lo as int, hi as int), c),
{
    let mut i: usize = hi;
    while i > lo && v[i - 1] != c
        invariant
            lo <= i <= hi <= v.len(),
            after_last(v@.subrange(lo as int, hi as int), c) == after_last(
                v@.subrange(lo as int, i as int),
                c,
            ),
        decreases i,
    {
        proof {
            let w = v@.subrange(lo as int, i as int);
            assert(w.last() == v@[i - 1]);
            assert(w.drop_last() =~= v@.subrange(lo as int, i - 1));
        }
        i = i - 1;
    }
    proof {
        let w = v@.subrange(lo as int, i as int);
        if i > lo {
            assert(w.last() == v@[i - 1]);
        }
    }
    i
}

/// Whether a file with the given lower-case extension and lower-case name is
/// a CMake file.
pub fn is_cmake_name(lower_extension: Option<&str>, lower_name: Option<&str>) -> (r: bool)
    ensures
        r == is_cmake_name_spec(
            match lower_extension {
                Some(e) => Some(e@),
                None => None,
            },
            match lower_name {
                Some(n) => Some(n@),
                None => None,
            },
        ),
{
    let by_extension = match lower_extension {
        Some(e) => {
            let v = to_chars(e);
            assert(v@.subrange(0, v@.len() as int) =~= v@);
            window_is(&v, 0, v.len(), "cmake")
        },
        None => false,
    };
    let by_name = match lower_name {
        Some(n) => {
            let v = to_chars(n);
            assert(v@.subrange(0, v@.len() as int) =~= v@);
            window_is(&v, 0, v.len(), "cmakelists.txt")
        },
        None => false,
    };
    by_extension || by_name
}

/// Checks if the given path references a cmake file.
/// That is either a CMakeLists.txt or a file with .cmake extension.
/// If it is a cmake file it returns true and false otherwise.
pub fn is_cmake_file(file_path: &str, is_file: bool) -> (r: bool)
    ensures
        r == is_cmake_path(file_path@, is_file),
{
    // First, we check if it is actually a file
    if !is_file {
        return false;
    }
    let v = to_chars(file_path);
    let n = v.len();
    assert(v@.subrange(0, n as int) =~= v@);
    let start = find_after_last(&v, 0, n, '/');
    let ghost name = v@.skip(start as int);
    assert(v@.subrange(start as int, n as int) =~= name);
    if start == n || (n - start == 2 && v[start] == '.' && v[start + 1] == '.') {
        proof {
            if start < n {
                assert(name =~= seq!['.', '.']);
            }
        }
        return false;
    }
    assert(name != seq!['.', '.']) by {
        if name == seq!['.', '.'] {
            assert(name.len() == 2 && name[0] == '.' && name[1] == '.');
        }
    }
    let dot = find_after_last(&v, start, n, '.');
    let file_name = file_path.substring_char(start, n);
    let lower_name = to_lowercase(file_name);
    if dot - start <= 1 {
        is_cmake_name(None, Some(lower_name.as_str()))
    } else {
        assert(name.skip(dot - start) =~= v@.subrange(dot as int, n as int));
        let ext = file_path.substring_char(dot, n);
        let lower_extension = to_lowercase(ext);
        is_cmake_name(Some(lower_extension.as_str()), Some(lower_name.as_str()))
    }
}

/// The number of names in `path`.
pub fn path_depth(path: &str) -> (r: usize)
    ensures
        r == depth(path@),
{
    let v = to_chars(path);
    let n = v.len();
    let mut count: usize = 0;
    let mut i: usize = 0;
    while i < n
        invariant
            n == v@.len(),
            i <= n,
            count <= i,
            count == depth(v@.take(i as int)),
        decreases n - i,
    {
        proof {
            let next = v@.take(i + 1);
            assert(next.drop_last() =~= v@.take(i as int));
            assert(next[i as int] == v@[i as int]);
            if i > 0 {
                assert(next[i - 1] == v@[i - 1]);
            }
        }
        if v[i] != '/' && (i == 0 || v[i - 1] == '/') {
            count = count + 1;
        }
        i = i + 1;
    }
    assert(v@.take(n as int) =~= v@);
    count
}

/// The paths of the CMake files in a folder and in the folders below it, in
/// the order in which the tree is walked: what a folder holds comes where
/// the folder stands. `prefix` is the path of the folder, with a `/` behind
/// it unless it is empty. A folder that could not be read gives nothing.
pub open spec fn cmake_paths(entries: Seq<FolderEntry>, prefix: Seq<char>) -> Seq<Seq<char>>
    decreases entries,
{
    if entries.len() == 0 {
        Seq::empty()
    } else {
        cmake_paths(entries.drop_last(), prefix) + match entries.last() {
            FolderEntry::File { name, is_file } => if is_cmake_path(prefix + name@, is_file) {
                seq![prefix + name@]
            } else {
                Seq::empty()
            },
            FolderEntry::Folder { name, entries: Some(inner) } => cmake_paths(
                inner@,
                prefix + name@ + seq!['/'],
            ),
            FolderEntry::Folder { entries: None, .. } => Seq::empty(),
        }
    }
}

/// Those of `paths` that hold `d` names, in the order of `paths`.
pub open spec fn at_depth(paths: Seq<Seq<char>>, d: nat) -> Seq<Seq<char>>
    decreases paths.len(),
{
    if paths.len() == 0 {
        Seq::empty()
    } else {
        let rest = at_depth(paths.drop_last(), d);
        if depth(paths.last()) == d {
            rest.push(paths.last())
        } else {
            rest
        }
    }
}

/// Those of `paths` that hold at most `d` names: first those with none, then
/// those with one, and so on, each group in the order of `paths`.
pub open spec fn up_to_depth(paths: Seq<Seq<char>>, d: nat) -> Seq<Seq<char>>
    decreases d,
{
    if d == 0 {
        at_depth(paths, 0)
    } else {
        up_to_depth(paths, (d - 1) as nat) + at_depth(paths, d)
    }
}

/// The largest number of names that one of `paths` holds.
pub open spec fn max_depth(paths: Seq<Seq<char>>) -> nat
    decreases paths.len(),
{
    if paths.len() == 0 {
        0
    } else {
        let rest = max_depth(paths.drop_last());
        if depth(paths.last()) > rest {
            depth(paths.last())
        } else {
            rest
        }
    }
}

/// `paths` in the order of their numbers of names; paths with the same number
/// keep their order.
pub open spec fn sorted_by_depth(paths: Seq<Seq<char>>) -> Seq<Seq<char>> {
    up_to_depth(paths, max_depth(paths))
}

/// Whether the numbers of names of `paths` never descend.
pub open spec fn ascends_by_depth(paths: Seq<Seq<char>>) -> bool {
    forall|i: int, j: int| 0 <= i < j < paths.len() ==> depth(paths[i]) <= depth(paths[j])
}

/// The paths of a given depth among two sequences, one after the other, are
/// those of the first and then those of the second.
proof fn lemma_at_depth_concat(a: Seq<Seq<char>>, b: Seq<Seq<char>>, d: nat)
    ensures
        at_depth(a + b, d) == at_depth(a, d) + at_depth(b, d),
    decreases b.len(),
{
    if b.len() == 0 {
        assert(a + b =~= a);
        assert(at_depth(a, d) + at_depth(b, d) =~= at_depth(a, d));
    } else {
        lemma_at_depth_concat(a, b.drop_last(), d);
        assert((a + b).drop_last() =~= a + b.drop_last());
        assert((a + b).last() == b.last());
        assert(at_depth(a + b, d) =~= at_depth(a, d) + at_depth(b, d));
    }
}

/// The paths of depth `m` all have that depth: taking from them those of
/// depth `d` leaves all or none.
proof fn lemma_at_depth_twice(paths: Seq<Seq<char>>, m: nat, d: nat)
    ensures
        forall|i: int| 0 <= i < at_depth(paths, m).len() ==> depth(#[trigger] at_depth(paths, m)[i]) == m,
        at_depth(at_depth(paths, m), d) == if d == m {
            at_depth(paths, m)
        } else {
            Seq::<Seq<char>>::empty()
        },
    decreases paths.len(),
{
    if paths.len() > 0 {
        let head = paths.drop_last();
        lemma_at_depth_twice(head, m, d);
        if depth(paths.last()) == m {
            let got = at_depth(paths, m);
            assert(got.drop_last() =~= at_depth(head, m));
            assert(got.last() == paths.last());
        }
    }
}

/// No path is deeper than the deepest, so none has a depth beyond that.
proof fn lemma_beyond_max_depth(paths: Seq<Seq<char>>, d: nat)
    requires
        d > max_depth(paths),
    ensures
        at_depth(paths, d) == Seq::<Seq<char>>::empty(),
    decreases paths.len(),
{
    if paths.len() > 0 {
        lemma_beyond_max_depth(paths.drop_last(), d);
    }
}

/// What holds of the paths up to a depth: they ascend by depth, none is
/// deeper than the bound, and those of each depth are the paths of that depth
/// in their old order.
proof fn lemma_up_to_depth(paths: Seq<Seq<char>>, m: nat, d: nat)
    ensures
        ascends_by_depth(up_to_depth(paths, m)),
        forall|i: int|
            0 <= i < up_to_depth(paths, m).len() ==> depth(#[trigger] up_to_depth(paths, m)[i])
                <= m,
        at_depth(up_to_depth(paths, m), d) == if d <= m {
            at_depth(paths, d)
        } else {
            Seq::<Seq<char>>::empty()
        },
    decreases m,
{
    lemma_at_depth_twice(paths, m, d);
    if m > 0 {
        let lower = up_to_depth(paths, (m - 1) as nat);
        let level = at_depth(paths, m);
        lemma_up_to_depth(paths, (m - 1) as nat, d);
        lemma_at_depth_concat(lower, level, d);
        let all = up_to_depth(paths, m);
        assert forall|i: int, j: int| 0 <= i < j < all.len() implies depth(all[i]) <= depth(
            all[j],
        ) by {
            if j < lower.len() {
                assert(all[i] == lower[i] && all[j] == lower[j]);
            } else if i < lower.len() {
                assert(all[i] == lower[i]);
                assert(all[j] == level[j - lower.len()]);
            } else {
                assert(all[i] == level[i - lower.len()]);
                assert(all[j] == level[j - lower.len()]);
            }
        }
        assert forall|i: int| 0 <= i < all.len() implies depth(#[trigger] all[i]) <= m by {
            if i < lower.len() {
                assert(all[i] == lower[i]);
            } else {
                assert(all[i] == level[i - lower.len()]);
            }
        }
    }
}

/// Sorting by depth is a stable sort: the sorted paths ascend by depth, and
/// those of each depth are the paths of that depth in their old order.
pub proof fn lemma_sorted_by_depth(paths: Seq<Seq<char>>)
    ensures
        ascends_by_depth(sorted_by_depth(paths)),
        forall|d: nat| #[trigger] at_depth(sorted_by_depth(paths), d) == at_depth(paths, d),
{
    assert forall|d: nat| #[trigger]
        at_depth(sorted_by_depth(paths), d) == at_depth(paths, d) by {
        lemma_up_to_depth(paths, max_depth(paths), d);
        if d > max_depth(paths) {
            lemma_beyond_max_depth(paths, d);
        }
    }
    lemma_up_to_depth(paths, max_depth(paths), 0);
}

/// What is said when a project folder with a `CMakeLists.txt` yields no CMake
/// file.
pub open spec fn no_files_message() -> Seq<char> {
    "It should be non-empty, as we checked the root folder"@
}

/// The CMake files of a listed project folder, or the reason why there are
/// none.
pub open spec fn find_cmake_files(root_folder: Seq<char>, listing: ProjectListing) -> Result<
    Seq<Seq<char>>,
    ErrorView,
> {
    if !listing.is_directory {
        Err(ErrorView::NotADirectory(root_folder))
    } else if !listing.has_cmake_lists {
        Err(ErrorView::NoCMakeListsFound)
    } else {
        match listing.root {
            Err(fault) => Err(ErrorView::IO(fault@)),
            Ok(entries) => if cmake_paths(entries@, Seq::empty()).len() == 0 {
                Err(ErrorView::InternalError(no_files_message()))
            } else {
                Ok(sorted_by_depth(cmake_paths(entries@, Seq::empty())))
            },
        }
    }
}

/// Recursively traverses over the folder structure to find all cmake files.
///
/// # Arguments
/// * `prefix` - The path of the folder below the project root, with a `/`
///   behind it unless it is empty.
/// * `folder` - What stands in the folder.
/// * `cmake_files` - The mutable reference to the CMakeFiles collection to populate.
pub fn recursively_find_cmake_project_files(
    prefix: &str,
    folder: &Vec<FolderEntry>,
    cmake_files: &mut CMakeFiles,
)
    ensures
        texts(final(cmake_files)@) == texts(old(cmake_files)@) + cmake_paths(folder@, prefix@),
    decreases folder,
{
    let n = folder.len();
    let ghost start = texts(cmake_files@);
    let mut i: usize = 0;
    proof {
        reveal_strlit("/");
        assert("/"@ =~= seq!['/']);
        assert(folder@.take(0) =~= Seq::<FolderEntry>::empty());
        assert(start + cmake_paths(folder@.take(0), prefix@) =~= start);
    }
    // Iterate over the entries in the directory to find
    // - cmake-files
    // - sub-directories to further traverse

    while i < n
        invariant
            n == folder@.len(),
            i <= n,
            "/"@ == seq!['/'],
            texts(cmake_files@) == start + cmake_paths(folder@.take(i as int), prefix@),
        decreases n - i,
    {
        proof {
            let next = folder@.take(i + 1);
            assert(next.drop_last() =~= folder@.take(i as int));
            assert(next.last() == folder@[i as int]);
        }
        let ghost before = texts(cmake_files@);
        match &folder[i] {
            FolderEntry::Folder { name, entries: Some(inner) } => {
                let mut deeper = prefix.to_owned();
                deeper.append(name.as_str());
                deeper.append("/");
                recursively_find_cmake_project_files(deeper.as_str(), inner, cmake_files);
            },
            FolderEntry::Folder { entries: None, .. } => {
                proof {
                    assert(before + Seq::<Seq<char>>::empty() =~= before);
                }
            },
            FolderEntry::File { name, is_file } => {
                let mut path = prefix.to_owned();
                path.append(name.as_str());
                if is_cmake_file(path.as_str(), *is_file) {
                    // Found a cmake file, add it to the cmake_files collection
                    cmake_files.push(path);
                    proof {
                        assert(texts(cmake_files@) =~= before + seq![prefix@ + name@]);
                    }
                } else {
                    proof {
                        assert(before + Seq::<Seq<char>>::empty() =~= before);
                    }
                }
            },
        }
        i = i + 1;
    }
    proof {
        assert(folder@.take(n as int) =~= folder@);
    }
}

/// The numbers of names of `paths`, and the largest of them.
fn path_depths(paths: &CMakeFiles) -> (r: (Vec<usize>, usize))
    ensures
        r.0@.len() == paths@.len(),
        forall|k: int| 0 <= k < r.0@.len() ==> #[trigger] r.0@[k] == depth(paths@[k]@),
        r.1 == max_depth(texts(paths@)),
{
    let n = paths.len();
    let mut depths: Vec<usize> = Vec::new();
    let mut deepest: usize = 0;
    let mut i: usize = 0;
    proof {
        assert(texts(paths@).take(0) =~= Seq::<Seq<char>>::empty());
    }
    while i < n
        invariant
            n == paths@.len(),
            i <= n,
            depths@.len() == i,
            forall|k: int| 0 <= k < i ==> #[trigger] depths@[k] == depth(paths@[k]@),
            deepest == max_depth(texts(paths@).take(i as int)),
        decreases n - i,
    {
        proof {
            let next = texts(paths@).take(i + 1);
            assert(next.drop_last() =~= texts(paths@).take(i as int));
            assert(next.last() == paths@[i as int]@);
        }
        let d = path_depth(paths[i].as_str());
        depths.push(d);
        if d > deepest {
            deepest = d;
        }
        i = i + 1;
    }
    proof {
        assert(texts(paths@).take(n as int) =~= texts(paths@));
    }
    (depths, deepest)
}

/// Finds the cmake files among what was listed of a project folder and its
/// sub-folders: the files nearest to the root come first, and files equally
/// deep keep the order in which the tree was walked.
///
/// # Arguments
/// * `root_folder` - The path to the project root folder.
/// * `listing` - What was found in that folder.
pub fn find_cmake_files_in_project(root_folder: &str, listing: &ProjectListing) -> (r: Result<
    CMakeFiles,
    Error,
>)
    ensures
        match r {
            Ok(files) => find_cmake_files(root_folder@, *listing) == Ok::<
                Seq<Seq<char>>,
                ErrorView,
            >(texts(files@)),
            Err(e) => find_cmake_files(root_folder@, *listing) == Err::<Seq<Seq<char>>, ErrorView>(
                e@,
            ),
        },
{
    if !listing.is_directory {
        return Err(Error::NotADirectory(root_folder.to_owned()));
    }
    // make sure the project root folder has a CMakeLists.txt file

    if !listing.has_cmake_lists {
        return Err(Error::NoCMakeListsFound);
    }
    let mut found: CMakeFiles = Vec::new();
    match &listing.root {
        Err(fault) => {
            return Err(Error::IO(fault.clone()));
        },
        Ok(entries) => {
            proof {
                reveal_strlit("");
                assert(""@ =~= Seq::<char>::empty());
                assert(texts(found@) =~= Seq::<Seq<char>>::empty());
            }
            recursively_find_cmake_project_files("", entries, &mut found);
            proof {
                let paths = cmake_paths(entries@, Seq::empty());
                assert(Seq::<Seq<char>>::empty() + paths =~= paths);
            }
        },
    }
    let (depths, deepest) = path_depths(&found);
    let n = found.len();
    if n == 0 {
        return Err(
            Error::InternalError(
                "It should be non-empty, as we checked the root folder".to_owned(),
            ),
        );
    }
    // sort by path lengths, i.e. how many directories deep the file is

    let ghost paths = texts(found@);
    let mut sorted: CMakeFiles = Vec::new();
    let mut d: usize = 0;
    proof {
        assert(texts(sorted@) =~= Seq::<Seq<char>>::empty());
    }
    loop
        invariant_except_break
            d <= deepest,
            texts(sorted@) == if d == 0 {
                Seq::<Seq<char>>::empty()
            } else {
                up_to_depth(paths, (d - 1) as nat)
            },
        invariant
            n == found@.len(),
            paths == texts(found@),
            depths@.len() == n,
            forall|k: int| 0 <= k < n ==> #[trigger] depths@[k] == depth(found@[k]@),
        ensures
            texts(sorted@) == up_to_depth(paths, deepest as nat),
        decreases deepest - d,
    {
        let ghost start = texts(sorted@);
        let mut k: usize = 0;
        proof {
            assert(paths.take(0) =~= Seq::<Seq<char>>::empty());
            assert(start + at_depth(paths.take(0), d as nat) =~= start);
        }
        while k < n
            invariant
                n == found@.len(),
                paths == texts(found@),
                depths@.len() == n,
                forall|j: int| 0 <= j < n ==> #[trigger] depths@[j] == depth(found@[j]@),
                k <= n,
                texts(sorted@) == start + at_depth(paths.take(k as int), d as nat),
            decreases n - k,
        {
            proof {
                let next = paths.take(k + 1);
                assert(next.drop_last() =~= paths.take(k as int));
                assert(next.last() == found@[k as int]@);
            }
            if depths[k] == d {
                let ghost before = texts(sorted@);
                sorted.push(found[k].clone());
                proof {
                    assert(texts(sorted@) =~= before.push(found@[k as int]@));
                    assert(before.push(found@[k as int]@) =~= start + at_depth(
                        paths.take(k as int),
                        d as nat,
                    ).push(found@[k as int]@));
                }
            }
            k = k + 1;
        }
        proof {
            assert(paths.take(n as int) =~= paths);
        }
        if d == deepest {
            break ;
        }
        d = d + 1;
    }
    Ok(sorted)
}

/// What a prompt begins with: the task.
pub open spec fn prompt_task() -> Seq<char> {
    "Task: Analyze the following CMake files and identify for each, what is the purpose of the file and references to other cmake files:\n\n"@
}

/// The part of a prompt that shows one file: its path, its contents and its
/// path again.
pub open spec fn prompt_section(path: Seq<char>, contents: Seq<char>) -> Seq<char> {
    "--- FILE: "@ + path + " ---\n"@ + contents + "\n"@ + "--- END FILE: "@ + path
        + " ---\n\n"@
}

/// The prompt for the given files: the task, then a section for each file
/// whose contents could be read.
pub open spec fn prompt_text(files: Seq<(String, Option<String>)>) -> Seq<char>
    decreases files.len(),
{
    if files.len() == 0 {
        prompt_task()
    } else {
        prompt_text(files.drop_last()) + match files.last().1 {
            Some(contents) => prompt_section(files.last().0@, contents@),
            None => Seq::<char>::empty(),
        }
    }
}

/// Creates a prompt for a LLM to generate classify the cmake files and analyze their mutual dependencies.
/// Return the prompt as a String.
///
/// # Arguments
/// - `files`: The CMake files to analyze, each with its contents where they
///   could be read.
pub fn create_prompt(files: &Vec<(String, Option<String>)>) -> (r: String)
    ensures
        r@ == prompt_text(files@),
{
    // first write the task part of the prompt
    let mut prompt =
        "Task: Analyze the following CMake files and identify for each, what is the purpose of the file and references to other cmake files:\n\n".to_owned();
    let n = files.len();
    let mut i: usize = 0;
    proof {
        assert(files@.take(0) =~= Seq::<(String, Option<String>)>::empty());
    }
    while i < n
        invariant
            n == files@.len(),
            i <= n,
            prompt@ == prompt_text(files@.take(i as int)),
        decreases n - i,
    {
        proof {
            let next = files@.take(i + 1);
            assert(next.drop_last() =~= files@.take(i as int));
            assert(next.last() == files@[i as int]);
        }
        let ghost before = prompt@;
        match &files[i].1 {
            Some(contents) => {
                let path = files[i].0.as_str();
                prompt.append("--- FILE: ");
                prompt.append(path);
                prompt.append(" ---\n");
                prompt.append(contents.as_str());
                prompt.append("\n");
                prompt.append("--- END FILE: ");
                prompt.append(path);
                prompt.append(" ---\n\n");
                proof {
                    assert(prompt@ =~= before + prompt_section(path@, contents@));
                }
            },
            None => {
                proof {
                    assert(before + Seq::<char>::empty() =~= before);
                }
            },
        }
        i = i + 1;
    }
    proof {
        assert(files@.take(n as int) =~= files@);
    }
    prompt
}

/// The list of the given cmake files as a text, one path on each line.
/// Is used for logging and debugging.
pub fn cmake_files_text(cmake_files: &CMakeFiles) -> (r: String)
    ensures
        r@ == join_lines(texts(cmake_files@)),
{
    let mut text = String::new();
    let n = cmake_files.len();
    let mut i: usize = 0;
    proof {
        reveal_strlit("\n");
        assert("\n"@ =~= seq!['\n']);
        assert(texts(cmake_files@).take(0) =~= Seq::<Seq<char>>::empty());
    }
    while i < n
        invariant
            n == cmake_files@.len(),
            i <= n,
            "\n"@ == seq!['\n'],
            text@ == join_lines(texts(cmake_files@).take(i as int)),
        decreases n - i,
    {
        proof {
            let next = texts(cmake_files@).take(i + 1);
            assert(next.drop_last() =~= texts(cmake_files@).take(i as int));
            assert(next.last() == cmake_files@[i as int]@);
        }
        text.append(cmake_files[i].as_str());
        text.append("\n");
        i = i + 1;
    }
    proof {
        assert(texts(cmake_files@).take(n as int) =~= texts(cmake_files@));
    }
    text
}

} // verus!
