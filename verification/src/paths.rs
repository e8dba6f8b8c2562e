//! Paths, the search for programs, and the names of files that start in a given way.

use vstd::prelude::*;
use vstd::seq_lib::*;
use vstd::string::*;

use crate::text::{
    char_pieces, ends_with_char, has_last_char, has_prefix, joined, law_joined_words_split_again,
    lemma_split_on_joined, split_on, split_on_char,
};

verus! {

/// What is known of a file that exists.
#[derive(Clone, Copy, Debug, PartialEq, Eq, Structural)]
pub struct FileMeta {
    pub is_file: bool,
    pub is_dir: bool,
    pub mode: u32,
}

/// Whether a file can be run: it is there, it is a regular file, and its mode lets someone
/// execute it.
pub open spec fn executable(meta: Option<FileMeta>) -> bool {
    meta is Some && meta->0.is_file && meta->0.mode & 0o111 != 0
}

/// Whether a file can be run.
pub fn is_executable(meta: Option<FileMeta>) -> (r: bool)
    ensures
        r == executable(meta),
{
    match meta {
        Some(m) => m.is_file && m.mode & 0o111 != 0,
        None => false,
    }
}

/// The path of `name` within the directory `dir`. A name that is an absolute path stands for
/// itself.
pub open spec fn joined_path(dir: Seq<char>, name: Seq<char>) -> Seq<char> {
    if name.len() > 0 && name[0] == '/' {
        name
    } else if dir.len() == 0 || dir.last() == '/' {
        dir + name
    } else {
        dir.push('/') + name
    }
}

/// The path of `name` within the directory `dir`.
pub fn join_path(dir: &str, name: &str) -> (r: String)
    ensures
        r@ == joined_path(dir@, name@),
{
    if name.unicode_len() > 0 && name.get_char(0) == '/' {
        return name.to_owned();
    }
    let mut r = dir.to_owned();
    if dir.unicode_len() > 0 && !has_last_char(dir, '/') {
        r.push('/');
    }
    r.append(name);
    r
}

/// Where the program `cmd` may be: under each directory of the search path, in order. A colon
/// separates the directories.
pub open spec fn candidates(cmd: Seq<char>, path: Seq<char>) -> Seq<Seq<char>> {
    let dirs = split_on(path, ':');
    Seq::new(dirs.len(), |i: int| joined_path(dirs[i], cmd))
}

/// The directories of the search path, in order.
pub fn search_dirs(path: &str) -> (r: Vec<String>)
    ensures
        r.deep_view() == split_on(path@, ':'),
{
    split_on_char(path, ':')
}

/// Where the program `cmd` may be, in the order in which it is looked for.
pub fn path_candidates(cmd: &str, path: &str) -> (r: Vec<String>)
    ensures
        r.deep_view() == candidates(cmd@, path@),
{
    let dirs = search_dirs(path);
    let mut r: Vec<String> = Vec::new();
    let mut i: usize = 0;
    while i < dirs.len()
        invariant
            i <= dirs.len(),
            dirs.deep_view() == split_on(path@, ':'),
            r.deep_view() == candidates(cmd@, path@).take(i as int),
        decreases dirs.len() - i,
    {
        let ghost done = r.deep_view();
        let candidate = join_path(dirs[i].as_str(), cmd);
        r.push(candidate);
        proof {
            assert(dirs@[i as int]@ == dirs.deep_view()[i as int]);
            assert(r.deep_view() == done.push(candidate@));
            assert(candidates(cmd@, path@).take(i + 1) == done.push(candidate@));
        }
        i += 1;
    }
    assert(candidates(cmd@, path@).take(i as int) == candidates(cmd@, path@));
    r
}

/// The first of the paths, from position `i` on, at which there is a file that can be run.
pub open spec fn first_executable(
    paths: Seq<Seq<char>>,
    probes: Seq<Option<FileMeta>>,
    i: int,
) -> Option<Seq<char>>
    decreases paths.len() - i,
{
    if i >= paths.len() {
        None
    } else if executable(probes[i]) {
        Some(paths[i])
    } else {
        first_executable(paths, probes, i + 1)
    }
}

/// The program that the search path gives for `cmd`, where `probes` says what is found at each
/// candidate.
pub open spec fn program_for(
    cmd: Seq<char>,
    path: Seq<char>,
    probes: Seq<Option<FileMeta>>,
) -> Option<Seq<char>> {
    first_executable(candidates(cmd, path), probes, 0)
}

/// The program that the search path gives for `cmd`, where `probes` says what is found at each of
/// [`path_candidates`].
pub fn find_in_path(cmd: &str, path: &str, probes: &Vec<Option<FileMeta>>) -> (r: Option<String>)
    requires
        probes.len() == candidates(cmd@, path@).len(),
    ensures
        r.deep_view() == program_for(cmd@, path@, probes@),
{
    let paths = path_candidates(cmd, path);
    let ghost all = candidates(cmd@, path@);
    let mut i: usize = 0;
    while i < paths.len()
        invariant
            i <= paths.len(),
            paths.deep_view() == all,
            all == candidates(cmd@, path@),
            probes.len() == all.len(),
            program_for(cmd@, path@, probes@) == first_executable(all, probes@, i as int),
        decreases paths.len() - i,
    {
        if is_executable(probes[i]) {
            assert(paths@[i as int]@ == all[i as int]);
            return Some(paths[i].clone());
        }
        i += 1;
    }
    None
}

/// The search finds a program exactly when one of the candidates can be run; what it finds is
/// a candidate that can be run, and no earlier one can.
pub proof fn law_first_candidate_found(
    cmd: Seq<char>,
    path: Seq<char>,
    probes: Seq<Option<FileMeta>>,
)
    requires
        probes.len() == candidates(cmd, path).len(),
    ensures
        program_for(cmd, path, probes) is None <==> forall|i: int|
            0 <= i < probes.len() ==> !executable(#[trigger] probes[i]),
        program_for(cmd, path, probes) matches Some(found) ==> exists|i: int|
            {
                &&& 0 <= i < probes.len()
                &&& executable(#[trigger] probes[i])
                &&& found == candidates(cmd, path)[i]
                &&& forall|j: int| 0 <= j < i ==> !executable(#[trigger] probes[j])
            },
{
    lemma_first_executable(candidates(cmd, path), probes, 0);
}

proof fn lemma_first_executable(paths: Seq<Seq<char>>, probes: Seq<Option<FileMeta>>, i: int)
    requires
        0 <= i <= paths.len() == probes.len(),
    ensures
        first_executable(paths, probes, i) is None <==> forall|k: int|
            i <= k < probes.len() ==> !executable(#[trigger] probes[k]),
        first_executable(paths, probes, i) matches Some(found) ==> exists|k: int|
            {
                &&& i <= k < probes.len()
                &&& executable(#[trigger] probes[k])
                &&& found == paths[k]
                &&& forall|j: int| i <= j < k ==> !executable(#[trigger] probes[j])
            },
    decreases paths.len() - i,
{
    if i < paths.len() && !executable(probes[i]) {
        lemma_first_executable(paths, probes, i + 1);
        if let Some(found) = first_executable(paths, probes, i) {
            let k = choose|k: int|
                {
                    &&& i + 1 <= k < probes.len()
                    &&& executable(#[trigger] probes[k])
                    &&& found == paths[k]
                    &&& forall|j: int| i + 1 <= j < k ==> !executable(#[trigger] probes[j])
                };
            assert(executable(probes[k]));
        }
    }
}

/// An entry of a directory: its name, and what is known of the file.
#[derive(Debug)]
pub struct DirEntry {
    pub name: String,
    pub meta: Option<FileMeta>,
}

/// What a [`DirEntry`] holds.
pub struct DirEntryView {
    pub name: Seq<char>,
    pub meta: Option<FileMeta>,
}

impl DeepView for DirEntry {
    type V = DirEntryView;

    open spec fn deep_view(&self) -> DirEntryView {
        DirEntryView { name: self.name@, meta: self.meta }
    }
}

impl DirEntryView {
    /// Whether the entry starts with `prefix` and, where that is asked for, can be run.
    pub open spec fn wanted(self, prefix: Seq<char>, executable_only: bool) -> bool {
        prefix.is_prefix_of(self.name) && (executable_only ==> executable(self.meta))
    }

    /// The name as it is shown: that of a directory ends with a slash.
    pub open spec fn shown(self) -> Seq<char> {
        if self.meta is Some && self.meta->0.is_dir {
            self.name.push('/')
        } else {
            self.name
        }
    }
}

/// The entries of a directory that start with `prefix`, as they are shown.
pub open spec fn matching_names(
    prefix: Seq<char>,
    entries: Seq<DirEntryView>,
    executable_only: bool,
) -> Seq<Seq<char>>
    decreases entries.len(),
{
    if entries.len() == 0 {
        seq![]
    } else {
        let before = matching_names(prefix, entries.drop_last(), executable_only);
        if entries.last().wanted(prefix, executable_only) {
            before.push(entries.last().shown())
        } else {
            before
        }
    }
}

/// The entries of a directory that start with `prefix`, as they are shown; a directory that
/// cannot be read has no entries.
pub fn find_prefix_file_in_dir(
    prefix: &str,
    entries: &Vec<DirEntry>,
    executable_only: bool,
) -> (r: Vec<String>)
    ensures
        r.deep_view() == matching_names(prefix@, entries.deep_view(), executable_only),
{
    let mut r: Vec<String> = Vec::new();
    let mut i: usize = 0;
    let ghost all = entries.deep_view();
    while i < entries.len()
        invariant
            i <= entries.len(),
            all == entries.deep_view(),
            r.deep_view() == matching_names(prefix@, all.take(i as int), executable_only),
        decreases entries.len() - i,
    {
        let entry = &entries[i];
        proof {
            assert(all[i as int] == entry.deep_view());
            assert(all.take(i + 1).drop_last() == all.take(i as int));
        }
        if has_prefix(entry.name.as_str(), prefix) && (!executable_only || is_executable(
            entry.meta,
        )) {
            let ghost done = r.deep_view();
            let mut name = entry.name.clone();
            let is_dir = match entry.meta {
                Some(m) => m.is_dir,
                None => false,
            };
            if is_dir {
                name.push('/');
            }
            let ghost shown = name@;
            r.push(name);
            assert(r.deep_view() == done.push(shown));
        }
        i += 1;
    }
    assert(all.take(i as int) == all);
    r
}

/// The programs of the listed directories that start with `prefix`, directory by directory.
pub open spec fn matching_programs(
    prefix: Seq<char>,
    listings: Seq<Seq<DirEntryView>>,
) -> Seq<Seq<char>>
    decreases listings.len(),
{
    if listings.len() == 0 {
        seq![]
    } else {
        matching_programs(prefix, listings.drop_last()) + matching_names(
            prefix,
            listings.last(),
            true,
        )
    }
}

/// The programs that start with `prefix`, where `listings` holds the entries of each directory of
/// the search path.
pub fn find_prefix_executables_in_path(prefix: &str, listings: &Vec<Vec<DirEntry>>) -> (r: Vec<
    String,
>)
    ensures
        r.deep_view() == matching_programs(prefix@, listings.deep_view()),
{
    let mut r: Vec<String> = Vec::new();
    let mut i: usize = 0;
    let ghost all = listings.deep_view();
    while i < listings.len()
        invariant
            i <= listings.len(),
            all == listings.deep_view(),
            r.deep_view() == matching_programs(prefix@, all.take(i as int)),
        decreases listings.len() - i,
    {
        let ghost done = r.deep_view();
        let mut more = find_prefix_file_in_dir(prefix, &listings[i], true);
        let ghost added = more.deep_view();
        r.append(&mut more);
        proof {
            assert(all[i as int] == listings@[i as int].deep_view());
            assert(all.take(i + 1).drop_last() == all.take(i as int));
            assert(r.deep_view() == done + added);
        }
        i += 1;
    }
    assert(all.take(i as int) == all);
    r
}

/// Where the last slash of a path is, or -1 where it has none.
pub open spec fn last_slash(path: Seq<char>) -> int
    decreases path.len(),
{
    if path.len() == 0 {
        -1
    } else if path.last() == '/' {
        path.len() - 1
    } else {
        last_slash(path.drop_last())
    }
}

proof fn lemma_last_slash(path: Seq<char>)
    ensures
        -1 <= last_slash(path) < path.len(),
        last_slash(path) >= 0 ==> path[last_slash(path)] == '/',
        forall|k: int| last_slash(path) < k < path.len() ==> path[k] != '/',
    decreases path.len(),
{
    if path.len() > 0 && path.last() != '/' {
        let front = path.drop_last();
        lemma_last_slash(front);
        assert forall|k: int| last_slash(path) < k < path.len() implies path[k] != '/' by {
            if k < front.len() {
                assert(front[k] == path[k]);
            }
        }
    }
}

/// What stands behind the last slash of a path.
pub open spec fn tail_of(path: Seq<char>) -> Seq<char> {
    path.skip(last_slash(path) + 1)
}

/// What stands before the last slash of a path; nothing where it has none.
pub open spec fn head_of(path: Seq<char>) -> Seq<char> {
    if last_slash(path) < 0 {
        seq![]
    } else {
        path.take(last_slash(path))
    }
}

/// Whether something stands at the end of a path that adds nothing to it: a slash, or a slash and
/// a dot. The root itself is not at the end of a path.
pub open spec fn untidy(path: Seq<char>) -> bool {
    path.len() > 1 && (path.last() == '/' || (path.last() == '.' && path[path.len() - 2] == '/'))
}

/// A path without what stands at its end and adds nothing to it.
pub open spec fn tidied(path: Seq<char>) -> Seq<char>
    decreases path.len(),
{
    if untidy(path) {
        tidied(path.drop_last())
    } else {
        path
    }
}

/// The path without its final component: what stands before it, tidied. The root and the empty path
/// have no parent.
pub open spec fn path_parent(path: Seq<char>) -> Option<Seq<char>> {
    let p = tidied(path);
    if p.len() == 0 || p == seq!['/'] {
        None
    } else {
        Some(tidied(p.take(last_slash(p) + 1)))
    }
}

/// The final component of a path, where that is a name: neither `.` nor `..`, nor the root.
pub open spec fn path_file_name(path: Seq<char>) -> Option<Seq<char>> {
    let name = tail_of(tidied(path));
    if name.len() == 0 || name == seq!['.'] || name == seq!['.', '.'] {
        None
    } else {
        Some(name)
    }
}

/// The members of `pieces` that are neither empty nor a dot, in order.
pub open spec fn without_dots(pieces: Seq<Seq<char>>) -> Seq<Seq<char>>
    decreases pieces.len(),
{
    if pieces.len() == 0 {
        seq![]
    } else if pieces.last().len() == 0 || pieces.last() == seq!['.'] {
        without_dots(pieces.drop_last())
    } else {
        without_dots(pieces.drop_last()).push(pieces.last())
    }
}

/// What a path leads through: whether it starts at the root, whether it starts with a dot as its
/// first component, and then the components that are no dots.
#[verifier::ext_equal]
pub struct PathParts {
    pub rooted: bool,
    pub dotted: bool,
    pub names: Seq<Seq<char>>,
}

/// The parts of a path. Slashes that repeat, and dots behind the first component, count for nothing.
pub open spec fn path_parts(path: Seq<char>) -> PathParts {
    let pieces = split_on(path, '/');
    PathParts {
        rooted: path.len() > 0 && path[0] == '/',
        dotted: pieces[0] == seq!['.'],
        names: without_dots(pieces),
    }
}

/// Whether two paths are the same one, though they may be written in different ways.
pub open spec fn same_parts(a: Seq<char>, b: Seq<char>) -> bool {
    path_parts(a) == path_parts(b)
}

/// `std::path::Path::parent`, as it is on Unix: the path without its final component, where dots
/// and slashes that add nothing are passed over at the end, and cut off from what is left.
#[verifier::external_body]
fn parent_of(path: &str) -> (r: Option<String>)
    ensures
        r.deep_view() == path_parent(path@),
{
    std::path::Path::new(path).parent().and_then(|p| p.to_str()).map(|p| p.to_string())
}

/// `std::path::Path::file_name`, as it is on Unix: the final component of the path, where dots and
/// slashes that add nothing are passed over at the end; `None` where that is the root or `..`, or
/// there is none.
#[verifier::external_body]
fn file_name_of(path: &str) -> (r: Option<String>)
    ensures
        r.deep_view() == path_file_name(path@),
{
    std::path::Path::new(path).file_name().and_then(|p| p.to_str()).map(|p| p.to_string())
}

/// Equality of `std::path::Path`, as it is on Unix: two paths are equal when their components are.
/// Repeated slashes, a slash at the end, and dots that are not the first component make none.
#[verifier::external_body]
fn same_path(a: &str, b: &str) -> (r: bool)
    ensures
        r == same_parts(a@, b@),
{
    std::path::Path::new(a) == std::path::Path::new(b)
}

/// The directory in which a typed path is completed, and the start of the name in it. A path that
/// ends with a slash is the directory itself; else its parent is, and the current directory where
/// that is missing or empty.
pub open spec fn completion_target(
    prefix: Seq<char>,
    parent: Option<Seq<char>>,
    file_name: Option<Seq<char>>,
) -> (Seq<char>, Seq<char>) {
    if ends_with_char(prefix, '/') {
        (prefix, seq![])
    } else {
        (
            if parent is Some && parent->0.len() > 0 {
                parent->0
            } else {
                seq!['.']
            },
            if file_name is Some {
                file_name->0
            } else {
                seq![]
            },
        )
    }
}

/// The directory in which a typed path is completed, and the start of the name in it, from the
/// path's parent and file name.
pub fn completion_target_of(prefix: &str, parent: Option<String>, file_name: Option<String>) -> (r: (
    String,
    String,
))
    ensures
        (r.0@, r.1@) == completion_target(prefix@, parent.deep_view(), file_name.deep_view()),
{
    proof {
        reveal_strlit(".");
        assert("."@ == seq!['.']);
    }
    if has_last_char(prefix, '/') {
        (prefix.to_owned(), String::new())
    } else {
        let dir = match parent {
            Some(p) => if p.as_str().is_empty() {
                ".".to_owned()
            } else {
                p
            },
            None => ".".to_owned(),
        };
        let name = match file_name {
            Some(n) => n,
            None => String::new(),
        };
        (dir, name)
    }
}

/// The directory in which a typed path is completed, and the start of the name in it.
pub open spec fn completion_place(prefix: Seq<char>) -> (Seq<char>, Seq<char>) {
    completion_target(prefix, path_parent(prefix), path_file_name(prefix))
}

/// The directory whose entries complete a typed path.
pub fn completion_dir(prefix: &str) -> (r: String)
    ensures
        r@ == completion_place(prefix@).0,
{
    let parent = parent_of(prefix);
    let file_name = file_name_of(prefix);
    completion_target_of(prefix, parent, file_name).0
}

/// Names of a directory as paths: as they are where it is the current directory, else within it.
pub open spec fn paths_within(dir: Seq<char>, is_current: bool, names: Seq<Seq<char>>) -> Seq<
    Seq<char>,
> {
    Seq::new(
        names.len(),
        |i: int|
            if is_current {
                names[i]
            } else {
                joined_path(dir, names[i])
            },
    )
}

/// Names of a directory as paths.
pub fn name_paths(dir: &str, is_current: bool, names: Vec<String>) -> (r: Vec<String>)
    ensures
        r.deep_view() == paths_within(dir@, is_current, names.deep_view()),
{
    if is_current {
        assert(names.deep_view() == paths_within(dir@, is_current, names.deep_view()));
        return names;
    }
    let ghost all = paths_within(dir@, is_current, names.deep_view());
    let mut r: Vec<String> = Vec::new();
    let mut i: usize = 0;
    while i < names.len()
        invariant
            i <= names.len(),
            !is_current,
            all == paths_within(dir@, is_current, names.deep_view()),
            r.deep_view() == all.take(i as int),
        decreases names.len() - i,
    {
        let ghost done = r.deep_view();
        let path = join_path(dir, names[i].as_str());
        let ghost added = path@;
        r.push(path);
        proof {
            assert(r.deep_view() == done.push(added));
            assert(names.deep_view()[i as int] == names@[i as int]@);
            assert(all.take(i + 1) == done.push(added));
        }
        i += 1;
    }
    assert(all.take(i as int) == all);
    r
}

/// The completions of a typed path from the entries of its directory.
pub open spec fn path_completions(
    dir: Seq<char>,
    name: Seq<char>,
    is_current: bool,
    entries: Seq<DirEntryView>,
) -> Seq<Seq<char>> {
    paths_within(dir, is_current, matching_names(name, entries, false))
}

/// The completions of a typed path, where `entries` are those of the directory that it is completed
/// in. In the current directory, however it is written, they are bare names.
pub open spec fn typed_completions(prefix: Seq<char>, entries: Seq<DirEntryView>) -> Seq<Seq<char>> {
    let (dir, name) = completion_place(prefix);
    path_completions(dir, name, same_parts(dir, seq!['.']), entries)
}

/// The completions of a typed path, where `entries` are those of the directory that
/// [`completion_dir`] gives for it.
pub fn find_prefix_file_in_cwd(prefix: &str, entries: &Vec<DirEntry>) -> (r: Vec<String>)
    ensures
        r.deep_view() == typed_completions(prefix@, entries.deep_view()),
{
    proof {
        reveal_strlit(".");
        assert("."@ == seq!['.']);
    }
    let parent = parent_of(prefix);
    let file_name = file_name_of(prefix);
    let (dir, name) = completion_target_of(prefix, parent, file_name);
    let names = find_prefix_file_in_dir(name.as_str(), entries, false);
    let is_current = same_path(dir.as_str(), ".");
    name_paths(dir.as_str(), is_current, names)
}

proof fn lemma_matching_names(prefix: Seq<char>, entries: Seq<DirEntryView>, only: bool)
    ensures
        forall|k: int|
            0 <= k < matching_names(prefix, entries, only).len() ==> prefix.is_prefix_of(
                #[trigger] matching_names(prefix, entries, only)[k],
            ),
    decreases entries.len(),
{
    if entries.len() > 0 {
        lemma_matching_names(prefix, entries.drop_last(), only);
        let before = matching_names(prefix, entries.drop_last(), only);
        let all = matching_names(prefix, entries, only);
        assert forall|k: int| 0 <= k < all.len() implies prefix.is_prefix_of(#[trigger] all[k]) by {
            if k < before.len() {
                assert(all[k] == before[k]);
            } else {
                let name = entries.last().name;
                assert(name.push('/').subrange(0, prefix.len() as int) == name.subrange(
                    0,
                    prefix.len() as int,
                ));
            }
        }
    }
}

/// What is offered for a typed name starts with it.
pub proof fn law_names_extend_prefix(
    prefix: Seq<char>,
    entries: Seq<DirEntryView>,
    executable_only: bool,
    k: int,
)
    requires
        0 <= k < matching_names(prefix, entries, executable_only).len(),
    ensures
        prefix.is_prefix_of(matching_names(prefix, entries, executable_only)[k]),
{
    lemma_matching_names(prefix, entries, executable_only);
}

/// What is offered for a typed path starts with what was typed, where that ends with a slash, or
/// ends with a name and has nothing before it that adds nothing, and where it does not itself say
/// that it is in the current directory. A name in a directory does not start with a slash.
pub proof fn law_paths_extend_prefix(prefix: Seq<char>, entries: Seq<DirEntryView>, k: int)
    requires
        prefix.len() == 0 || ends_with_char(prefix, '/') || {
            &&& tail_of(prefix) != seq!['.']
            &&& tail_of(prefix) != seq!['.', '.']
            &&& last_slash(prefix) > 0 ==> !untidy(head_of(prefix)) && head_of(prefix) != seq!['/']
        },
        last_slash(prefix) >= 0 ==> !same_parts(completion_place(prefix).0, seq!['.']),
        forall|i: int|
            0 <= i < entries.len() ==> (#[trigger] entries[i]).name.len() > 0 && entries[i].name[0]
                != '/',
        0 <= k < typed_completions(prefix, entries).len(),
    ensures
        prefix.is_prefix_of(typed_completions(prefix, entries)[k]),
{
    let (dir, name) = completion_place(prefix);
    let at = last_slash(prefix);
    lemma_last_slash(prefix);
    lemma_matching_names(name, entries, false);
    lemma_matching_names_start(name, entries, false);
    let shown = matching_names(name, entries, false)[k];
    assert(name.is_prefix_of(shown));
    assert(shown.len() > 0 && shown[0] != '/');
    let path = typed_completions(prefix, entries)[k];
    if at < 0 {
        lemma_bare_place(prefix);
        assert(tail_of(prefix) == prefix);
        lemma_dot_is_current();
        assert(path == shown);
    } else {
        let head = if ends_with_char(prefix, '/') || at == 0 {
            dir
        } else {
            dir.push('/')
        };
        if !ends_with_char(prefix, '/') {
            lemma_placed_in_head(prefix);
            if at > 0 && dir.len() == 1 {
                assert(dir == seq![dir[0]]);
            }
        }
        assert(dir.len() > 0);
        assert(path == joined_path(dir, shown));
        assert(head.last() == '/');
        assert(path == head + shown);
        assert(prefix == head + name);
        assert(path.subrange(0, prefix.len() as int) == prefix) by {
            assert forall|j: int| 0 <= j < name.len() implies shown[j] == name[j] by {
                assert(shown.subrange(0, name.len() as int)[j] == shown[j]);
            }
        }
    }
}

/// Where a path that ends with a name is completed, where nothing before the name adds nothing.
proof fn lemma_placed_in_head(path: Seq<char>)
    requires
        last_slash(path) >= 0,
        path.last() != '/',
        tail_of(path) != seq!['.'],
        tail_of(path) != seq!['.', '.'],
        last_slash(path) > 0 ==> !untidy(head_of(path)) && head_of(path) != seq!['/'],
    ensures
        completion_place(path) == (
            if last_slash(path) == 0 {
                seq!['/']
            } else {
                head_of(path)
            },
            tail_of(path),
        ),
{
    let at = last_slash(path);
    lemma_last_slash(path);
    lemma_tidy_before_name(path);
    let cut = path.take(at + 1);
    assert(tail_of(path).len() > 0);
    if at == 0 {
        assert(cut == seq!['/']);
        assert(!untidy(cut));
    } else {
        assert(untidy(cut));
        assert(cut.drop_last() == head_of(path));
        reveal_with_fuel(tidied, 2);
    }
    assert(path != seq!['/']);
}

/// A path that ends with something else than a dot is tidy.
proof fn lemma_tidy_before_name(path: Seq<char>)
    requires
        path.len() > 0 ==> path.last() != '/',
        tail_of(path) != seq!['.'],
    ensures
        tidied(path) == path,
{
    lemma_last_slash(path);
    if untidy(path) {
        assert(last_slash(path) == path.len() - 2) by {
            assert(path[path.len() - 2] == '/');
        }
        assert(tail_of(path) == seq!['.']);
    }
}

/// Where a text without slashes is completed.
proof fn lemma_bare_place(name: Seq<char>)
    requires
        last_slash(name) < 0,
    ensures
        completion_place(name).0 == seq!['.'],
        completion_place(name).1 == (if name == seq!['.'] || name == seq!['.', '.'] {
            Seq::<char>::empty()
        } else {
            name
        }),
{
    lemma_last_slash(name);
    assert(!untidy(name));
    assert(name.skip(0) == name);
    assert(name.take(0) == Seq::<char>::empty());
    assert(name != seq!['/']) by {
        if name == seq!['/'] {
            assert(name[0] == '/');
        }
    }
}

proof fn lemma_dot_is_current()
    ensures
        same_parts(seq!['.'], seq!['.']),
        same_parts(seq!['.', '/'], seq!['.']),
{
    let empty = Seq::<char>::empty();
    let dot = seq!['.'];
    let a = seq!['.'];
    let b = seq!['.', '/'];
    reveal_with_fuel(char_pieces, 3);
    assert(seq![empty].drop_last() == Seq::<Seq<char>>::empty());
    assert(empty.push('.') == dot);
    assert(char_pieces(a, '/', 1) == seq![dot]);
    assert(char_pieces(b, '/', 1) == seq![dot]);
    assert(char_pieces(b, '/', 2) == seq![dot].push(empty));
    assert(seq![dot].push(empty).drop_last() == seq![dot]);
    assert(without_dots(seq![dot].push(empty)) == without_dots(seq![dot]));
}

/// A dot and a slash in front of a typed name change nothing: the name is completed in the current
/// directory, and the same names are offered, without them, whatever the order in which the
/// directory is listed.
pub proof fn law_leading_dot_changes_nothing(
    name: Seq<char>,
    entries: Seq<DirEntryView>,
    again: Seq<DirEntryView>,
)
    requires
        !name.contains('/'),
        entries.to_multiset() == again.to_multiset(),
    ensures
        same_parts(completion_place(name).0, seq!['.']),
        same_parts(completion_place(seq!['.', '/'] + name).0, seq!['.']),
        typed_completions(seq!['.', '/'] + name, entries) == typed_completions(name, entries),
        typed_completions(seq!['.', '/'] + name, entries).to_multiset() == typed_completions(
            name,
            again,
        ).to_multiset(),
{
    let long = seq!['.', '/'] + name;
    lemma_last_slash(name);
    lemma_last_slash(long);
    lemma_dot_is_current();
    assert(last_slash(name) < 0);
    lemma_bare_place(name);
    assert(long[1] == '/');
    assert(last_slash(long) == 1) by {
        if last_slash(long) > 1 {
            assert(long[last_slash(long)] == name[last_slash(long) - 2]);
        }
    }
    assert(tail_of(long) == name);
    assert(head_of(long) == seq!['.']);
    if name.len() == 0 {
        assert(long == seq!['.', '/']);
    } else if name == seq!['.'] {
        assert(long.drop_last() == seq!['.', '/']);
        assert(long.drop_last().drop_last() == seq!['.']);
        reveal_with_fuel(tidied, 3);
        assert(tidied(long) == seq!['.']);
        lemma_last_slash(seq!['.']);
        assert(seq!['.'].take(0) == Seq::<char>::empty());
        assert(seq!['.'].skip(0) == seq!['.']);
    } else {
        assert(long.last() == name.last());
        lemma_tidy_before_name(long);
        let cut = long.take(2);
        assert(cut == seq!['.', '/']);
        assert(cut.drop_last() == seq!['.']);
        reveal_with_fuel(tidied, 2);
        assert(tidied(cut) == seq!['.']);
    }
    let place = completion_place(name).1;
    assert(completion_place(long).1 == place);
    let bare = matching_names(place, entries, false);
    assert(typed_completions(long, entries) == bare);
    assert(typed_completions(name, entries) == bare);
    assert(typed_completions(name, again) == matching_names(place, again, false));
    law_listing_order_is_irrelevant(place, entries, again, false);
}

proof fn lemma_matching_names_concat(
    prefix: Seq<char>,
    a: Seq<DirEntryView>,
    b: Seq<DirEntryView>,
    only: bool,
)
    ensures
        matching_names(prefix, a + b, only) == matching_names(prefix, a, only) + matching_names(
            prefix,
            b,
            only,
        ),
    decreases b.len(),
{
    if b.len() == 0 {
        assert(a + b == a);
        assert(matching_names(prefix, a, only) + matching_names(prefix, b, only) == matching_names(
            prefix,
            a,
            only,
        ));
    } else {
        lemma_matching_names_concat(prefix, a, b.drop_last(), only);
        assert((a + b).drop_last() == a + b.drop_last());
        assert((a + b).last() == b.last());
        let names = matching_names(prefix, a, only);
        let more = matching_names(prefix, b.drop_last(), only);
        let shown = b.last().shown();
        assert((names + more).push(shown) == names + more.push(shown));
    }
}

/// The same names are found, and as often, in whatever order a directory is listed.
pub proof fn law_listing_order_is_irrelevant(
    prefix: Seq<char>,
    entries: Seq<DirEntryView>,
    again: Seq<DirEntryView>,
    executable_only: bool,
)
    requires
        entries.to_multiset() == again.to_multiset(),
    ensures
        matching_names(prefix, entries, executable_only).to_multiset() == matching_names(
            prefix,
            again,
            executable_only,
        ).to_multiset(),
    decreases entries.len(),
{
    to_multiset_len(entries);
    to_multiset_len(again);
    if entries.len() == 0 {
        assert(entries == again);
    } else {
        let n = entries.len() - 1;
        let entry = entries[n];
        to_multiset_contains(entries, entry);
        to_multiset_contains(again, entry);
        let j = choose|j: int| 0 <= j < again.len() && again[j] == entry;
        to_multiset_remove(entries, n);
        to_multiset_remove(again, j);
        let rest = again.remove(j);
        assert(entries.remove(n) == entries.drop_last());
        law_listing_order_is_irrelevant(prefix, entries.drop_last(), rest, executable_only);
        let before = again.take(j);
        let after = again.skip(j + 1);
        assert(rest == before + after);
        assert(again == before.push(entry) + after);
        lemma_matching_names_concat(prefix, before, after, executable_only);
        lemma_matching_names_concat(prefix, before.push(entry), after, executable_only);
        assert(before.push(entry).drop_last() == before);
        let names = matching_names(prefix, before, executable_only);
        let more = matching_names(prefix, after, executable_only);
        let most = matching_names(prefix, entries.drop_last(), executable_only);
        let shown = entry.shown();
        if entry.wanted(prefix, executable_only) {
            to_multiset_build(most, shown);
            to_multiset_insert(names + more, names.len() as int, shown);
            assert((names + more).insert(names.len() as int, shown) == names.push(shown) + more);
        }
    }
}

proof fn lemma_matching_programs_concat(
    prefix: Seq<char>,
    a: Seq<Seq<DirEntryView>>,
    b: Seq<Seq<DirEntryView>>,
)
    ensures
        matching_programs(prefix, a + b) == matching_programs(prefix, a) + matching_programs(
            prefix,
            b,
        ),
    decreases b.len(),
{
    if b.len() == 0 {
        assert(a + b == a);
        assert(matching_programs(prefix, a) + matching_programs(prefix, b) == matching_programs(
            prefix,
            a,
        ));
    } else {
        lemma_matching_programs_concat(prefix, a, b.drop_last());
        assert((a + b).drop_last() == a + b.drop_last());
        assert((a + b).last() == b.last());
        assert(matching_programs(prefix, a + b) == matching_programs(prefix, a)
            + matching_programs(prefix, b));
    }
}

proof fn lemma_first_executable_concat(
    a: Seq<Seq<char>>,
    b: Seq<Seq<char>>,
    x: Seq<Option<FileMeta>>,
    y: Seq<Option<FileMeta>>,
    i: int,
)
    requires
        a.len() == x.len(),
        b.len() == y.len(),
        0 <= i <= a.len() + b.len(),
    ensures
        first_executable(a + b, x + y, i) == (if i >= a.len() {
            first_executable(b, y, i - a.len())
        } else if first_executable(a, x, i) is Some {
            first_executable(a, x, i)
        } else {
            first_executable(b, y, 0)
        }),
    decreases a.len() + b.len() - i,
{
    if i < a.len() + b.len() {
        lemma_first_executable_concat(a, b, x, y, i + 1);
    }
}

/// Two search paths with a colon between them are searched one after the other: the directories of
/// the first come before those of the second, the programs that complete a name are those of both,
/// and a program of the second is found only where the first has none.
pub proof fn law_search_paths_join(
    first: Seq<char>,
    second: Seq<char>,
    name: Seq<char>,
    probes: Seq<Option<FileMeta>>,
    more_probes: Seq<Option<FileMeta>>,
    listings: Seq<Seq<DirEntryView>>,
    more_listings: Seq<Seq<DirEntryView>>,
)
    requires
        probes.len() == candidates(name, first).len(),
        more_probes.len() == candidates(name, second).len(),
    ensures
        split_on(first.push(':') + second, ':') == split_on(first, ':') + split_on(second, ':'),
        candidates(name, first.push(':') + second) == candidates(name, first) + candidates(
            name,
            second,
        ),
        program_for(name, first.push(':') + second, probes + more_probes) == (if program_for(
            name,
            first,
            probes,
        ) is Some {
            program_for(name, first, probes)
        } else {
            program_for(name, second, more_probes)
        }),
        matching_programs(name, listings + more_listings) == matching_programs(name, listings)
            + matching_programs(name, more_listings),
{
    lemma_split_on_joined(first, ':', second, second.len() as int);
    assert(candidates(name, first.push(':') + second) == candidates(name, first) + candidates(
        name,
        second,
    ));
    lemma_first_executable_concat(
        candidates(name, first),
        candidates(name, second),
        probes,
        more_probes,
        0,
    );
    lemma_matching_programs_concat(name, listings, more_listings);
}

proof fn lemma_program_names(prefix: Seq<char>, entries: Seq<DirEntryView>)
    requires
        forall|i: int|
            0 <= i < entries.len() ==> plain_entry(#[trigger] entries[i]),
    ensures
        forall|k: int|
            0 <= k < matching_names(prefix, entries, true).len() ==> !ends_with_char(
                #[trigger] matching_names(prefix, entries, true)[k],
                '/',
            ),
    decreases entries.len(),
{
    if entries.len() > 0 {
        let front = entries.drop_last();
        assert forall|i: int| 0 <= i < front.len() implies plain_entry(#[trigger] front[i]) by {
            assert(front[i] == entries[i]);
        }
        lemma_program_names(prefix, front);
        assert(plain_entry(entries[entries.len() - 1]));
        let before = matching_names(prefix, front, true);
        let all = matching_names(prefix, entries, true);
        assert forall|k: int| 0 <= k < all.len() implies !ends_with_char(#[trigger] all[k], '/') by {
            if k < before.len() {
                assert(all[k] == before[k]);
            }
        }
    }
}

/// What holds of the entries of a real directory: none is a file and a directory at once, and no
/// name ends with a slash.
pub open spec fn plain_entry(entry: DirEntryView) -> bool {
    &&& !(entry.meta is Some && entry.meta->0.is_file && entry.meta->0.is_dir)
    &&& !ends_with_char(entry.name, '/')
}

/// No program is shown as a directory: none that is found for a name ends with a slash.
pub proof fn law_programs_are_no_directories(
    prefix: Seq<char>,
    listings: Seq<Seq<DirEntryView>>,
    k: int,
)
    requires
        forall|d: int, i: int|
            0 <= d < listings.len() && 0 <= i < listings[d].len() ==> plain_entry(
                #[trigger] listings[d][i],
            ),
        0 <= k < matching_programs(prefix, listings).len(),
    ensures
        !ends_with_char(matching_programs(prefix, listings)[k], '/'),
    decreases listings.len(),
{
    if listings.len() > 0 {
        let front = listings.drop_last();
        let last = listings.last();
        let before = matching_programs(prefix, front);
        assert forall|i: int| 0 <= i < last.len() implies plain_entry(#[trigger] last[i]) by {
            assert(listings[listings.len() - 1][i] == last[i]);
        }
        lemma_program_names(prefix, last);
        if k < before.len() {
            assert forall|d: int, i: int|
                0 <= d < front.len() && 0 <= i < front[d].len() implies plain_entry(
                #[trigger] front[d][i],
            ) by {
                assert(front[d][i] == listings[d][i]);
            }
            law_programs_are_no_directories(prefix, front, k);
            assert(matching_programs(prefix, listings)[k] == before[k]);
        } else {
            assert(matching_programs(prefix, listings)[k] == matching_names(prefix, last, true)[k
                - before.len()]);
        }
    }
}

proof fn lemma_matching_names_start(prefix: Seq<char>, entries: Seq<DirEntryView>, only: bool)
    requires
        forall|i: int|
            0 <= i < entries.len() ==> (#[trigger] entries[i]).name.len() > 0 && entries[i].name[0]
                != '/',
    ensures
        forall|k: int|
            0 <= k < matching_names(prefix, entries, only).len() ==> (#[trigger] matching_names(
                prefix,
                entries,
                only,
            )[k]).len() > 0 && matching_names(prefix, entries, only)[k][0] != '/',
    decreases entries.len(),
{
    if entries.len() > 0 {
        let front = entries.drop_last();
        assert forall|i: int| 0 <= i < front.len() implies (#[trigger] front[i]).name.len() > 0
            && front[i].name[0] != '/' by {
            assert(front[i] == entries[i]);
        }
        lemma_matching_names_start(prefix, front, only);
        let before = matching_names(prefix, front, only);
        let all = matching_names(prefix, entries, only);
        assert forall|k: int| 0 <= k < all.len() implies (#[trigger] all[k]).len() > 0 && all[k][0]
            != '/' by {
            if k < before.len() {
                assert(all[k] == before[k]);
            } else {
                assert(entries[entries.len() - 1].name.len() > 0);
            }
        }
    }
}

/// A file can be run where it is a regular file and its owner, its group or the others may execute
/// it.
pub proof fn law_someone_may_execute(meta: FileMeta)
    ensures
        executable(Some(meta)) <==> meta.is_file && (meta.mode & 0o100 != 0 || meta.mode & 0o010 != 0
            || meta.mode & 0o001 != 0),
        !executable(None),
{
    let mode = meta.mode;
    assert(mode & 0o111 != 0 <==> (mode & 0o100 != 0 || mode & 0o010 != 0 || mode & 0o001 != 0))
        by (bit_vector);
}

/// The path of a name within a directory starts with the directory and ends with the name, with one
/// slash between them and nothing else; an absolute path stands for itself.
pub proof fn law_name_within_a_directory(dir: Seq<char>, name: Seq<char>)
    ensures
        name.len() > 0 && name[0] == '/' ==> joined_path(dir, name) == name,
        (name.len() == 0 || name[0] != '/') && dir.len() > 0 && dir.last() != '/' ==> joined_path(
            dir,
            name,
        ) == dir + seq!['/'] + name,
        (name.len() == 0 || name[0] != '/') && (dir.len() == 0 || dir.last() == '/') ==> joined_path(
            dir,
            name,
        ) == dir + name,
{
    assert(dir.push('/') + name == dir + seq!['/'] + name);
}

/// Each entry of a directory is looked at by itself: it is found where it starts with the prefix
/// and, if only programs are wanted, can be run; a directory is shown with a slash behind it. What
/// is found stays in the order of the entries.
pub proof fn law_each_entry_decides_for_itself(
    prefix: Seq<char>,
    entries: Seq<DirEntryView>,
    entry: DirEntryView,
    executable_only: bool,
)
    ensures
        ({
            let starts = prefix.len() <= entry.name.len() && entry.name.take(prefix.len() as int)
                == prefix;
            let runs = entry.meta is Some && entry.meta->0.is_file && entry.meta->0.mode & 0o111 != 0;
            let shown = if entry.meta is Some && entry.meta->0.is_dir {
                entry.name + seq!['/']
            } else {
                entry.name
            };
            let before = matching_names(prefix, entries, executable_only);
            matching_names(prefix, entries.push(entry), executable_only) == (if starts && (
            !executable_only || runs) {
                before.push(shown)
            } else {
                before
            })
        }),
        matching_names(prefix, Seq::empty(), executable_only).len() == 0,
{
    assert(entries.push(entry).drop_last() == entries);
    assert(entry.name.push('/') == entry.name + seq!['/']);
    if prefix.len() <= entry.name.len() {
        assert(entry.name.take(prefix.len() as int) == entry.name.subrange(0, prefix.len() as int));
    }
}

proof fn lemma_entry_is_found(prefix: Seq<char>, entries: Seq<DirEntryView>, only: bool, i: int)
    requires
        0 <= i < entries.len(),
        entries[i].wanted(prefix, only),
    ensures
        matching_names(prefix, entries, only).contains(entries[i].shown()),
    decreases entries.len(),
{
    let front = entries.drop_last();
    let before = matching_names(prefix, front, only);
    let all = matching_names(prefix, entries, only);
    if i < front.len() {
        lemma_entry_is_found(prefix, front, only, i);
        let k = choose|k: int| 0 <= k < before.len() && before[k] == front[i].shown();
        assert(all[k] == entries[i].shown());
    } else {
        assert(all[before.len() as int] == entries[i].shown());
    }
}

/// Every program of every listed directory that starts with the prefix is found.
pub proof fn law_every_program_is_found(
    prefix: Seq<char>,
    listings: Seq<Seq<DirEntryView>>,
    d: int,
    i: int,
)
    requires
        0 <= d < listings.len(),
        0 <= i < listings[d].len(),
    ensures
        prefix.is_prefix_of(listings[d][i].name) && (listings[d][i].meta matches Some(meta)
            && meta.is_file && !meta.is_dir && meta.mode & 0o111 != 0) ==> matching_programs(
            prefix,
            listings,
        ).contains(listings[d][i].name),
    decreases listings.len(),
{
    let entry = listings[d][i];
    if prefix.is_prefix_of(entry.name) && entry.meta is Some && entry.meta->0.is_file
        && !entry.meta->0.is_dir && entry.meta->0.mode & 0o111 != 0 {
        let front = listings.drop_last();
        let before = matching_programs(prefix, front);
        let more = matching_names(prefix, listings.last(), true);
        let all = matching_programs(prefix, listings);
        if d < front.len() {
            law_every_program_is_found(prefix, front, d, i);
            assert(front[d][i] == entry);
            let k = choose|k: int| 0 <= k < before.len() && before[k] == entry.name;
            assert(all[k] == entry.name);
        } else {
            lemma_entry_is_found(prefix, listings.last(), true, i);
            let k = choose|k: int| 0 <= k < more.len() && more[k] == entry.name;
            assert(all[before.len() + k] == entry.name);
        }
    }
}

/// Where a typed path is completed: what ends with a slash, in that directory; a name with a path
/// before it, in the directory of that path; a bare name, in the current directory.
pub proof fn law_where_a_path_is_completed(dir: Seq<char>, name: Seq<char>)
    requires
        !name.contains('/'),
        name.len() > 0,
        name != seq!['.'],
        name != seq!['.', '.'],
    ensures
        completion_place(name) == (seq!['.'], name),
        completion_place(dir.push('/')) == (dir.push('/'), Seq::<char>::empty()),
        completion_place(seq!['/'] + name) == (seq!['/'], name),
        dir.len() > 0 && dir.last() != '/' && !untidy(dir) ==> completion_place(dir.push('/') + name)
            == (dir, name),
{
    lemma_last_slash(name);
    assert(last_slash(name) < 0) by {
        if last_slash(name) >= 0 {
            assert(name.contains(name[last_slash(name)]));
        }
    }
    lemma_bare_place(name);
    lemma_slash_before_name(seq!['/'], name);
    assert(head_of(seq!['/'] + name) == Seq::<char>::empty());
    assert((seq!['/'] + name).last() == name.last());
    assert(name[name.len() - 1] != '/');
    lemma_placed_in_head(seq!['/'] + name);
    if dir.len() > 0 && dir.last() != '/' && !untidy(dir) {
        let path = dir.push('/') + name;
        lemma_slash_before_name(dir.push('/'), name);
        assert(head_of(path) == dir);
        assert(path.last() == name.last());
        assert(dir != seq!['/']);
        lemma_placed_in_head(path);
    }
}

proof fn lemma_slash_before_name(head: Seq<char>, name: Seq<char>)
    requires
        head.len() > 0,
        head.last() == '/',
        !name.contains('/'),
    ensures
        last_slash(head + name) == head.len() - 1,
        tail_of(head + name) == name,
{
    let path = head + name;
    lemma_last_slash(path);
    let at = head.len() - 1;
    assert(path[at] == '/');
    if last_slash(path) > at {
        assert(path[last_slash(path)] == name[last_slash(path) - head.len()]);
    }
    assert(path.skip(head.len() as int) == name);
}

/// What is offered for a typed path are the entries that start with its last name: by their bare
/// names in the current directory, and within their directory in any other.
pub proof fn law_entries_are_offered(prefix: Seq<char>, entries: Seq<DirEntryView>, k: int)
    requires
        0 <= k < typed_completions(prefix, entries).len(),
    ensures
        ({
            let (dir, name) = completion_place(prefix);
            let names = matching_names(name, entries, false);
            let offered = typed_completions(prefix, entries);
            &&& offered.len() == names.len()
            &&& same_parts(dir, seq!['.']) ==> offered[k] == names[k]
            &&& !same_parts(dir, seq!['.']) ==> offered[k] == joined_path(dir, names[k])
        }),
{
}

/// Whether an entry is a program that is shown by this name.
pub open spec fn names_program(entry: DirEntryView, name: Seq<char>) -> bool {
    &&& entry.meta is Some
    &&& entry.meta->0.is_file
    &&& entry.meta->0.mode & 0o111 != 0
    &&& name == entry.name || (entry.meta->0.is_dir && name == entry.name.push('/'))
}

proof fn lemma_found_is_entry(prefix: Seq<char>, entries: Seq<DirEntryView>, name: Seq<char>) -> (i: int)
    requires
        matching_names(prefix, entries, true).contains(name),
    ensures
        0 <= i < entries.len(),
        names_program(entries[i], name),
    decreases entries.len(),
{
    let all = matching_names(prefix, entries, true);
    let k = choose|k: int| 0 <= k < all.len() && all[k] == name;
    let front = entries.drop_last();
    let before = matching_names(prefix, front, true);
    if k < before.len() {
        assert(before[k] == name);
        let i = lemma_found_is_entry(prefix, front, name);
        assert(front[i] == entries[i]);
        i
    } else {
        entries.len() - 1
    }
}

/// Nothing but programs of the listed directories is found.
pub proof fn law_only_programs_are_found(
    prefix: Seq<char>,
    listings: Seq<Seq<DirEntryView>>,
    name: Seq<char>,
)
    requires
        matching_programs(prefix, listings).contains(name),
    ensures
        exists|d: int, i: int|
            0 <= d < listings.len() && 0 <= i < listings[d].len() && names_program(
                #[trigger] listings[d][i],
                name,
            ),
    decreases listings.len(),
{
    let all = matching_programs(prefix, listings);
    let k = choose|k: int| 0 <= k < all.len() && all[k] == name;
    let front = listings.drop_last();
    let before = matching_programs(prefix, front);
    let more = matching_names(prefix, listings.last(), true);
    if k < before.len() {
        assert(before[k] == name);
        law_only_programs_are_found(prefix, front, name);
        let (d, i) = choose|d: int, i: int|
            0 <= d < front.len() && 0 <= i < front[d].len() && names_program(
                #[trigger] front[d][i],
                name,
            );
        assert(names_program(listings[d][i], name));
    } else {
        assert(more[k - before.len()] == name);
        let i = lemma_found_is_entry(prefix, listings.last(), name);
        assert(names_program(listings[listings.len() - 1][i], name));
    }
}

/// A search path without a colon is a single directory, and the program is looked for within it; the
/// programs of a single directory are its entries that can be run.
pub proof fn law_single_directory(
    dir: Seq<char>,
    cmd: Seq<char>,
    prefix: Seq<char>,
    entries: Seq<DirEntryView>,
)
    requires
        !dir.contains(':'),
    ensures
        split_on(dir, ':') == seq![dir],
        candidates(cmd, dir) == seq![joined_path(dir, cmd)],
        matching_programs(prefix, seq![entries]) == matching_names(prefix, entries, true),
{
    law_joined_words_split_again(seq![dir], ':');
    assert(joined(seq![dir], ':') == dir);
    assert(candidates(cmd, dir) =~= seq![joined_path(dir, cmd)]);
    assert(seq![entries].drop_last() == Seq::<Seq<DirEntryView>>::empty());
    assert(matching_programs(prefix, seq![entries].drop_last()) == Seq::<Seq<char>>::empty());
    assert(matching_programs(prefix, seq![entries]) =~= matching_names(prefix, entries, true));
}

} // verus!
