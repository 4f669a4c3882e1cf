//! The files of a run: which of them make up the base, which are to be
//! brought up to date, and which are left alone.

use crate::language::{
    backend_id, get_message_lang, language_of, match_to_deepl_lang, same_text, slice_text_of,
    text_of,
};
use vstd::prelude::*;

verus! {

/// What a role is, as a value of mathematics.
pub enum RoleView {
    Base,
    Target { language: Seq<char>, backend: Seq<char> },
    Unmapped { language: Seq<char> },
    Unresolved,
}

/// The part that a catalog file plays in a run.
#[derive(Debug, PartialEq, Eq)]
pub enum FileRole {
    /// The file is in the source language: its entries go into the base.
    Base,
    /// The file is in another language, which the backend knows as
    /// `backend`: it is brought up to date.
    Target { language: String, backend: String },
    /// The file is in a language that the backend has no identifier for.
    /// Nothing can be translated into it, and the file is left alone.
    Unmapped { language: String },
    /// The path shows no language. The file is left alone.
    Unresolved,
}

impl View for FileRole {
    type V = RoleView;

    open spec fn view(&self) -> RoleView {
        match self {
            FileRole::Base => RoleView::Base,
            FileRole::Target { language, backend } => RoleView::Target {
                language: language@,
                backend: backend@,
            },
            FileRole::Unmapped { language } => RoleView::Unmapped { language: language@ },
            FileRole::Unresolved => RoleView::Unresolved,
        }
    }
}

/// The role of a file whose path shows the language `language`, in a run
/// whose source language is `source`. A file in the source language is never
/// its own target.
pub open spec fn role_of(language: Option<Seq<char>>, source: Seq<char>) -> RoleView {
    match language {
        None => RoleView::Unresolved,
        Some(code) => if code == source {
            RoleView::Base
        } else {
            match backend_id(code) {
                Some(backend) => RoleView::Target { language: code, backend },
                None => RoleView::Unmapped { language: code },
            }
        },
    }
}

/// Decides a file's role from the language that its path shows.
pub fn file_role(language: Option<&str>, source_language: &str) -> (role: FileRole)
    ensures
        role@ == role_of(slice_text_of(language), source_language@),
{
    match language {
        None => FileRole::Unresolved,
        Some(code) => {
            if same_text(code, source_language) {
                FileRole::Base
            } else {
                match match_to_deepl_lang(code) {
                    Some(backend) => FileRole::Target { language: code.to_owned(), backend },
                    None => FileRole::Unmapped { language: code.to_owned() },
                }
            }
        },
    }
}

/// Decides the role of the file at `filepath`.
pub fn classify_file(filepath: &str, source_language: &str) -> (role: FileRole)
    ensures
        role@ == role_of(language_of(filepath@), source_language@),
{
    file_role(get_message_lang(filepath), source_language)
}

/// A file that is to be brought up to date, as a value of mathematics.
pub struct TargetView {
    pub path: Seq<char>,
    pub language: Seq<char>,
    pub backend: Seq<char>,
}

/// A file that is to be brought up to date: its path, its language code, and
/// the backend's identifier of that language.
#[derive(Debug, PartialEq, Eq)]
pub struct TargetFile {
    pub path: String,
    pub language: String,
    pub backend: String,
}

impl View for TargetFile {
    type V = TargetView;

    open spec fn view(&self) -> TargetView {
        TargetView { path: self.path@, language: self.language@, backend: self.backend@ }
    }
}

/// A file that is left alone, as a value of mathematics.
pub struct SkippedView {
    pub path: Seq<char>,
    pub language: Option<Seq<char>>,
}

/// A file that is left alone: its path, and its language code where the path
/// shows one. With a code, the backend has no identifier for the language;
/// without, the path shows no language.
#[derive(Debug, PartialEq, Eq)]
pub struct SkippedFile {
    pub path: String,
    pub language: Option<String>,
}

impl View for SkippedFile {
    type V = SkippedView;

    open spec fn view(&self) -> SkippedView {
        SkippedView { path: self.path@, language: text_of(self.language) }
    }
}

/// The files of a run by role, as a value of mathematics.
pub struct PartitionView {
    pub base: Seq<Seq<char>>,
    pub targets: Seq<TargetView>,
    pub skipped: Seq<SkippedView>,
}

/// The files of a run by role. Each list keeps the order in which the files
/// were given.
#[derive(Debug, PartialEq, Eq)]
pub struct FilePartition {
    pub base: Vec<String>,
    pub targets: Vec<TargetFile>,
    pub skipped: Vec<SkippedFile>,
}

impl View for FilePartition {
    type V = PartitionView;

    open spec fn view(&self) -> PartitionView {
        PartitionView {
            base: self.base@.map_values(|p: String| p@),
            targets: self.targets@.map_values(|t: TargetFile| t@),
            skipped: self.skipped@.map_values(|s: SkippedFile| s@),
        }
    }
}

/// The partition with the file at `path` added, whose role is `role`.
pub open spec fn placed(partition: PartitionView, path: Seq<char>, role: RoleView) -> PartitionView {
    match role {
        RoleView::Base => PartitionView { base: partition.base.push(path), ..partition },
        RoleView::Target { language, backend } => PartitionView {
            targets: partition.targets.push(TargetView { path, language, backend }),
            ..partition
        },
        RoleView::Unmapped { language } => PartitionView {
            skipped: partition.skipped.push(SkippedView { path, language: Some(language) }),
            ..partition
        },
        RoleView::Unresolved => PartitionView {
            skipped: partition.skipped.push(SkippedView { path, language: None }),
            ..partition
        },
    }
}

/// The files at `paths` by role, where `roles` gives the role of each.
pub open spec fn partitioned_by(paths: Seq<Seq<char>>, roles: Seq<RoleView>) -> PartitionView
    recommends
        paths.len() == roles.len(),
    decreases paths.len(),
{
    if paths.len() == 0 || roles.len() == 0 {
        PartitionView { base: Seq::empty(), targets: Seq::empty(), skipped: Seq::empty() }
    } else {
        placed(partitioned_by(paths.drop_last(), roles.drop_last()), paths.last(), roles.last())
    }
}

/// The role of each file of `paths` in a run whose source language is
/// `source`.
pub open spec fn roles_of(paths: Seq<Seq<char>>, source: Seq<char>) -> Seq<RoleView> {
    Seq::new(paths.len(), |i: int| role_of(language_of(paths[i]), source))
}

/// The files at `paths` by role, in a run whose source language is `source`.
pub open spec fn partitioned(paths: Seq<Seq<char>>, source: Seq<char>) -> PartitionView {
    partitioned_by(paths, roles_of(paths, source))
}

/// The texts of a list of strings, one for one.
pub open spec fn texts(strings: Seq<String>) -> Seq<Seq<char>> {
    strings.map_values(|s: String| s@)
}

/// Adds the file at `path`, whose role is `role`, to the list that the role
/// names.
pub fn place(partition: &mut FilePartition, path: String, role: FileRole)
    ensures
        final(partition)@ == placed(old(partition)@, path@, role@),
{
    match role {
        FileRole::Base => {
            partition.base.push(path);
            assert(partition@.base =~= old(partition)@.base.push(path@));
        },
        FileRole::Target { language, backend } => {
            let ghost added = TargetView { path: path@, language: language@, backend: backend@ };
            partition.targets.push(TargetFile { path, language, backend });
            assert(partition@.targets =~= old(partition)@.targets.push(added));
        },
        FileRole::Unmapped { language } => {
            let ghost added = SkippedView { path: path@, language: Some(language@) };
            partition.skipped.push(SkippedFile { path, language: Some(language) });
            assert(partition@.skipped =~= old(partition)@.skipped.push(added));
        },
        FileRole::Unresolved => {
            let ghost added = SkippedView { path: path@, language: None };
            partition.skipped.push(SkippedFile { path, language: None });
            assert(partition@.skipped =~= old(partition)@.skipped.push(added));
        },
    }
}

/// Sorts the files of a run by role: the files in the source language, whose
/// entries make up the base; the files to bring up to date; and the files
/// that are left alone.
pub fn partition_files(filepaths: &Vec<String>, source_language: &str) -> (partition:
    FilePartition)
    ensures
        partition@ == partitioned(texts(filepaths@), source_language@),
{
    let mut partition = FilePartition {
        base: Vec::new(),
        targets: Vec::new(),
        skipped: Vec::new(),
    };
    let ghost paths = texts(filepaths@);
    let ghost roles = roles_of(paths, source_language@);
    assert(partition@.base =~= Seq::empty());
    assert(partition@.targets =~= Seq::empty());
    assert(partition@.skipped =~= Seq::empty());
    let n: usize = filepaths.len();
    let mut i: usize = 0;
    while i < n
        invariant
            n == filepaths@.len(),
            i <= n,
            paths == texts(filepaths@),
            roles == roles_of(paths, source_language@),
            partition@ == partitioned_by(paths.take(i as int), roles.take(i as int)),
        decreases n - i,
    {
        let path = filepaths[i].clone();
        let role = classify_file(path.as_str(), source_language);
        proof {
            assert(paths.take(i + 1).drop_last() =~= paths.take(i as int));
            assert(roles.take(i + 1).drop_last() =~= roles.take(i as int));
            assert(paths.take(i + 1).last() == path@);
            assert(roles.take(i + 1).last() == role@);
        }
        place(&mut partition, path, role);
        i += 1;
    }
    assert(paths.take(n as int) =~= paths);
    assert(roles.take(n as int) =~= roles);
    partition
}

} // verus!
