//! Temporary files and directories of a deployment and their clean-up.
//!
//! The library decides what to do with the filesystem and in which order;
//! the embedding program performs each step and reports back what a step
//! read.
use vstd::prelude::*;
use crate::text::push_char;

verus! {

/// A filesystem entry with its clean-up strategy.
#[derive(Clone, Debug, PartialEq, Eq)]
pub enum File {
    /// Text file, removed at clean-up.
    TempRegular(String, String),
    /// Text file whose content is replaced; the previous content, kept in
    /// the third field, is written back at clean-up.
    ProtectedRegular(String, String, String),
    /// Directory with optional permissions, removed at clean-up.
    TempDirectory(String, Option<u32>),
    /// Directory with optional permissions, left behind.
    Directory(String, Option<u32>),
}

/// One operation on the filesystem.
#[derive(Clone, Debug, PartialEq, Eq)]
pub enum FsStep {
    /// Write the text to the file, creating or truncating it.
    Write(String, String),
    /// Create the directory.
    CreateDir(String),
    /// Set the mode bits of the entry.
    SetPermissions(String, u32),
    /// Read the whole file as text.
    ReadToString(String),
    /// Remove the file.
    RemoveFile(String),
    /// Remove every entry listed in the directory, as files.
    RemoveEntries(String),
    /// Remove the now empty directory.
    RemoveDir(String),
}

/// Directory under which temporary directories may be removed.
pub open spec fn temp_root() -> Seq<char> {
    seq!['/', 't', 'm', 'p', '/', 'k', 'o', 'l', 'l', 'a', 'p', 's']
}

/// Result of `std::path::Path::starts_with` on the two paths.
pub uninterp spec fn path_starts_with(path: Seq<char>, base: Seq<char>) -> bool;

/// Whether `path` lies under `base`, whole components compared.
/// Calls `std::path::Path::starts_with`; the contract only names its
/// result.
#[verifier::external_body]
fn starts_with_path(path: &String, base: &String) -> (b: bool)
    ensures
        b == path_starts_with(path@, base@),
{
    std::path::Path::new(path.as_str()).starts_with(base.as_str())
}

fn temp_root_string() -> (s: String)
    ensures
        s@ == temp_root(),
{
    let mut s = String::new();
    let cs = ['/', 't', 'm', 'p', '/', 'k', 'o', 'l', 'l', 'a', 'p', 's'];
    let mut i: usize = 0;
    while i < 12
        invariant
            0 <= i <= 12,
            cs@ == temp_root(),
            s@ == temp_root().take(i as int),
        decreases 12 - i,
    {
        push_char(&mut s, cs[i]);
        proof {
            assert(temp_root().take(i + 1) =~= temp_root().take(i as int).push(cs@[i as int]));
        }
        i = i + 1;
    }
    proof {
        assert(temp_root().take(12) =~= temp_root());
    }
    s
}


/// The steps that create `f`, each with whether its failure stops the
/// creation; a directory that cannot be created is only warned about.
pub open spec fn creation_of(f: File) -> Seq<(FsStep, bool)> {
    match f {
        File::TempRegular(p, c) => seq![(FsStep::Write(p, c), true)],
        File::ProtectedRegular(p, c, _) => seq![(FsStep::ReadToString(p), true), (FsStep::Write(p, c), true)],
        File::TempDirectory(p, perms) => seq![(FsStep::CreateDir(p), false)] + match perms {
            Some(m) => seq![(FsStep::SetPermissions(p, m), true)],
            None => seq![],
        },
        File::Directory(p, perms) => seq![(FsStep::CreateDir(p), false)] + match perms {
            Some(m) => seq![(FsStep::SetPermissions(p, m), true)],
            None => seq![],
        },
    }
}

/// The steps that clean `f` up; a failing step ends the clean-up of `f`.
/// A temporary directory is only removed when it lies under the temporary
/// root.
pub open spec fn removal_of(f: File) -> Seq<FsStep> {
    match f {
        File::TempRegular(p, _) => seq![FsStep::RemoveFile(p)],
        File::ProtectedRegular(p, _, prev) => seq![FsStep::Write(p, prev)],
        File::TempDirectory(p, _) => if path_starts_with(p@, temp_root()) {
            seq![FsStep::RemoveEntries(p), FsStep::RemoveDir(p)]
        } else {
            seq![]
        },
        File::Directory(_, _) => seq![],
    }
}

impl File {
    /// The steps that create this entry, see `creation_of`.
    pub fn creation(&self) -> (r: Vec<(FsStep, bool)>)
        ensures
            r@ == creation_of(*self),
    {
        let mut r: Vec<(FsStep, bool)> = Vec::new();
        match self {
            File::TempRegular(p, c) => {
                r.push((FsStep::Write(p.clone(), c.clone()), true));
            },
            File::ProtectedRegular(p, c, _) => {
                r.push((FsStep::ReadToString(p.clone()), true));
                r.push((FsStep::Write(p.clone(), c.clone()), true));
            },
            File::TempDirectory(p, perms) => {
                r.push((FsStep::CreateDir(p.clone()), false));
                match perms {
                    Some(m) => {
                        r.push((FsStep::SetPermissions(p.clone(), *m), true));
                    },
                    None => {},
                }
            },
            File::Directory(p, perms) => {
                r.push((FsStep::CreateDir(p.clone()), false));
                match perms {
                    Some(m) => {
                        r.push((FsStep::SetPermissions(p.clone(), *m), true));
                    },
                    None => {},
                }
            },
        }
        assert(r@ =~= creation_of(*self));
        r
    }

    /// The steps that clean this entry up, see `removal_of`.
    pub fn removal(&self) -> (r: Vec<FsStep>)
        ensures
            r@ == removal_of(*self),
    {
        let mut r: Vec<FsStep> = Vec::new();
        match self {
            File::TempRegular(p, _) => {
                r.push(FsStep::RemoveFile(p.clone()));
            },
            File::ProtectedRegular(p, _, prev) => {
                r.push(FsStep::Write(p.clone(), prev.clone()));
            },
            File::TempDirectory(p, _) => {
                let root = temp_root_string();
                if starts_with_path(p, &root) {
                    r.push(FsStep::RemoveEntries(p.clone()));
                    r.push(FsStep::RemoveDir(p.clone()));
                }
            },
            File::Directory(_, _) => {},
        }
        assert(r@ =~= removal_of(*self));
        r
    }
}

/// Modifications made to the filesystem; cleaning up undoes them in the
/// reverse order of their creation.  Use `FilesBuilder` to make one.
pub struct Files {
    pub files: Vec<File>,
}

/// Builder to configure a `Files` value, one entry at a time.
pub struct FilesBuilder {
    pub files: Vec<File>,
}

impl FilesBuilder {
    /// A builder with no entries.
    pub fn new() -> (b: Self)
        ensures
            b.files@ == Seq::<File>::empty(),
    {
        Self { files: Vec::new() }
    }

    /// The entries, in the order they were added.
    pub fn try_build(self) -> (f: Files)
        ensures
            f.files@ == self.files@,
    {
        Files::try_new(self.files)
    }

    /// Adds a directory to create, left behind at clean-up.
    pub fn add_dir(self, path: String, perms: Option<u32>) -> (b: Self)
        ensures
            b.files@ == self.files@.push(File::Directory(path, perms)),
    {
        let mut files = self.files;
        files.push(File::Directory(path, perms));
        Self { files }
    }

    /// Adds a directory to create, removed at clean-up.
    pub fn add_temp_dir(self, path: String, perms: Option<u32>) -> (b: Self)
        ensures
            b.files@ == self.files@.push(File::TempDirectory(path, perms)),
    {
        let mut files = self.files;
        files.push(File::TempDirectory(path, perms));
        Self { files }
    }

    /// Adds a text file to create, removed at clean-up.
    pub fn add_temp_file(self, path: String, content: String) -> (b: Self)
        ensures
            b.files@ == self.files@.push(File::TempRegular(path, content)),
    {
        let mut files = self.files;
        files.push(File::TempRegular(path, content));
        Self { files }
    }

    /// Adds an existing file whose content is replaced, restored at clean-up.
    pub fn add_protected_file(self, path: String, content: String) -> (b: Self)
        ensures
            b.files@.len() == self.files@.len() + 1,
            b.files@.drop_last() == self.files@,
            b.files@.last() matches File::ProtectedRegular(p, c, prev) && p == path && c == content
                && prev@.len() == 0,
    {
        let mut files = self.files;
        files.push(File::ProtectedRegular(path, content, String::new()));
        assert(files@.drop_last() =~= self.files@);
        Self { files }
    }
}

/// The clean-up of `files`: the removal steps of every entry, last entry
/// first.
pub open spec fn cleanup_of(files: Seq<File>) -> Seq<Seq<FsStep>> {
    Seq::new(files.len(), |i: int| removal_of(files[files.len() - 1 - i]))
}

impl Files {
    fn try_new(files: Vec<File>) -> (f: Self)
        ensures
            f.files@ == files@,
    {
        Self { files }
    }

    /// The steps that create every entry, entry by entry, in order.
    pub fn creation_plan(&self) -> (r: Vec<Vec<(FsStep, bool)>>)
        ensures
            r@.len() == self.files@.len(),
            forall|i: int| 0 <= i < r@.len() ==> #[trigger] r@[i]@ == creation_of(self.files@[i]),
    {
        let mut r: Vec<Vec<(FsStep, bool)>> = Vec::new();
        let mut i: usize = 0;
        while i < self.files.len()
            invariant
                i <= self.files@.len(),
                r@.len() == i,
                forall|k: int| 0 <= k < i ==> #[trigger] r@[k]@ == creation_of(self.files@[k]),
            decreases self.files@.len() - i,
        {
            r.push(self.files[i].creation());
            i = i + 1;
        }
        r
    }

    /// Keeps `content`, read from the file of entry `i` before it was
    /// replaced, to be written back at clean-up; other entries are left as
    /// they are.
    pub fn keep_previous(&mut self, i: usize, content: String)
        requires
            i < old(self).files@.len(),
        ensures
            final(self).files@ == with_previous(old(self).files@, i as int, content),
    {
        let updated = match &self.files[i] {
            File::ProtectedRegular(p, c, _) => Some(File::ProtectedRegular(p.clone(), c.clone(), content)),
            _ => None,
        };
        match updated {
            Some(f) => {
                self.files.set(i, f);
            },
            None => {},
        }
    }

    /// The clean-up, see `cleanup_of`.
    pub fn cleanup_plan(&self) -> (r: Vec<Vec<FsStep>>)
        ensures
            r@.len() == self.files@.len(),
            forall|i: int| 0 <= i < r@.len() ==> #[trigger] r@[i]@ == cleanup_of(self.files@)[i],
    {
        let mut r: Vec<Vec<FsStep>> = Vec::new();
        let n = self.files.len();
        let mut i: usize = 0;
        while i < n
            invariant
                n == self.files@.len(),
                i <= n,
                r@.len() == i,
                forall|k: int| 0 <= k < i ==> #[trigger] r@[k]@ == cleanup_of(self.files@)[k],
            decreases n - i,
        {
            r.push(self.files[n - 1 - i].removal());
            i = i + 1;
        }
        r
    }
}

/// What a set of files does over its life, entry by entry: a temporary
/// file is written with its content and removed at clean-up; a protected
/// file is read, then written with its content, and at clean-up the
/// content read (kept with `with_previous`) is written back; a directory is
/// created and left behind; a temporary directory is created and, at
/// clean-up, emptied and removed when it lies under the temporary root and
/// left otherwise.  The clean-up takes the entries last first.
pub proof fn lemma_files_life(files: Seq<File>, i: int, previous: String)
    requires
        0 <= i < files.len(),
    ensures
        ({
            let kept = with_previous(files, i, previous);
            let up = cleanup_of(kept)[files.len() - 1 - i];
            match files[i] {
                File::TempRegular(p, c) => creation_of(files[i]) == seq![(FsStep::Write(p, c), true)] && up == seq![
                    FsStep::RemoveFile(p),
                ],
                File::ProtectedRegular(p, c, _) => creation_of(files[i]) == seq![
                    (FsStep::ReadToString(p), true),
                    (FsStep::Write(p, c), true),
                ] && up == seq![FsStep::Write(p, previous)],
                File::Directory(p, _) => creation_of(files[i])[0] == (FsStep::CreateDir(p), false) && up == Seq::<
                    FsStep,
                >::empty(),
                File::TempDirectory(p, _) => creation_of(files[i])[0] == (FsStep::CreateDir(p), false) && up == (if path_starts_with(
                    p@,
                    temp_root(),
                ) {
                    seq![FsStep::RemoveEntries(p), FsStep::RemoveDir(p)]
                } else {
                    Seq::<FsStep>::empty()
                }),
            }
        }),
{
    let kept = with_previous(files, i, previous);
    assert(kept.len() == files.len());
    assert(kept[files.len() - 1 - (files.len() - 1 - i)] == kept[i]);
}

/// The content read from a protected file before it was replaced is what
/// the clean-up writes back to it; no other entry's clean-up changes.
pub proof fn lemma_protected_restored(files: Seq<File>, i: int, previous: String)
    requires
        0 <= i < files.len(),
        files[i] is ProtectedRegular,
    ensures
        ({
            let kept = match files[i] {
                File::ProtectedRegular(p, c, _) => files.update(i, File::ProtectedRegular(p, c, previous)),
                _ => files,
            };
            let path = match files[i] {
                File::ProtectedRegular(p, _, _) => p,
                _ => previous,
            };
            &&& cleanup_of(kept)[files.len() - 1 - i] == seq![FsStep::Write(path, previous)]
            &&& forall|j: int|
                0 <= j < files.len() && j != files.len() - 1 - i ==> #[trigger] cleanup_of(kept)[j]
                    == cleanup_of(files)[j]
        }),
{
}


/// `files` once `content` is kept as what entry `i` held before, when it is
/// a protected file.
pub open spec fn with_previous(files: Seq<File>, i: int, content: String) -> Seq<File> {
    match files[i] {
        File::ProtectedRegular(p, c, _) => files.update(i, File::ProtectedRegular(p, c, content)),
        _ => files,
    }
}

/// How a step of the creation went.
pub enum StepOutcome {
    /// It was done.
    Done,
    /// It was done and read this text.
    Read(String),
    /// It failed.
    Failed,
}

/// What the creation of the files does next.
#[derive(Clone, Copy, Debug, PartialEq, Eq, Structural)]
pub enum CreationNext {
    /// Run step `1` of entry `0` of the plan.
    Run(usize, usize),
    /// Every entry is created.
    Finished,
    /// Step `1` of entry `0`, whose failure stops the creation, failed:
    /// the entries before it stay created, the steps after it are not run.
    Stopped(usize, usize),
}

/// The first entry, from `e` on, that has a step.
pub open spec fn first_steps_from(plan: Seq<Vec<(FsStep, bool)>>, e: int) -> Option<int>
    decreases plan.len() - e,
{
    if e < 0 || e >= plan.len() {
        None
    } else if plan[e]@.len() > 0 {
        Some(e)
    } else {
        first_steps_from(plan, e + 1)
    }
}

/// Where the creation starts from entry `e` on.
pub open spec fn start_from(plan: Seq<Vec<(FsStep, bool)>>, e: int) -> CreationNext {
    match first_steps_from(plan, e) {
        Some(x) => CreationNext::Run(x as usize, 0),
        None => CreationNext::Finished,
    }
}

/// The step after step `s` of entry `e`.
pub open spec fn step_after(plan: Seq<Vec<(FsStep, bool)>>, e: int, s: int) -> CreationNext {
    if s + 1 < plan[e]@.len() {
        CreationNext::Run(e as usize, (s + 1) as usize)
    } else {
        start_from(plan, e + 1)
    }
}

proof fn lemma_first_steps_in(plan: Seq<Vec<(FsStep, bool)>>, e: int)
    ensures
        first_steps_from(plan, e) matches Some(x) ==> 0 <= x < plan.len() && plan[x]@.len() > 0 && e <= x,
    decreases plan.len() - e,
{
    if 0 <= e < plan.len() && plan[e]@.len() == 0 {
        lemma_first_steps_in(plan, e + 1);
    }
}

/// Where the creation of plan `plan` starts, see `start_from`.
fn start_at(plan: &Vec<Vec<(FsStep, bool)>>, e: usize) -> (r: CreationNext)
    requires
        e <= plan@.len(),
    ensures
        r == start_from(plan@, e as int),
        r matches CreationNext::Run(x, s) ==> x < plan@.len() && s < plan@[x as int]@.len(),
    decreases plan@.len() - e,
{
    proof {
        lemma_first_steps_in(plan@, e as int);
    }
    if e >= plan.len() {
        CreationNext::Finished
    } else if plan[e].len() > 0 {
        CreationNext::Run(e, 0)
    } else {
        start_at(plan, e + 1)
    }
}

impl Files {
    /// The first step of the creation, for the plan `creation_plan` gives.
    pub fn first_creation_step(plan: &Vec<Vec<(FsStep, bool)>>) -> (r: CreationNext)
        ensures
            r == start_from(plan@, 0),
            r matches CreationNext::Run(x, s) ==> x < plan@.len() && s < plan@[x as int]@.len(),
    {
        start_at(plan, 0)
    }

    /// Takes in how step `s` of entry `e` of the plan went and tells what
    /// comes next: the creation stops at the first failure of a step whose
    /// failure stops it, and otherwise goes on, step by step, entry by
    /// entry; the text a step read is kept as what the entry held before.
    pub fn creation_step(&mut self, plan: &Vec<Vec<(FsStep, bool)>>, e: usize, s: usize, outcome: StepOutcome) -> (r:
        CreationNext)
        requires
            e < plan@.len(),
            s < plan@[e as int]@.len(),
            e < old(self).files@.len(),
        ensures
            outcome is Failed && plan@[e as int]@[s as int].1 ==> r == CreationNext::Stopped(e, s) && final(self).files@
                == old(self).files@,
            !(outcome is Failed && plan@[e as int]@[s as int].1) ==> r == step_after(plan@, e as int, s as int),
            outcome matches StepOutcome::Read(c) ==> final(self).files@ == with_previous(old(self).files@, e as int, c),
            !(outcome is Read) ==> final(self).files@ == old(self).files@,
            r matches CreationNext::Run(x, y) ==> x < plan@.len() && y < plan@[x as int]@.len(),
    {
        let fatal = plan[e][s].1;
        let n = plan[e].len();
        let entries = plan.len();
        match outcome {
            StepOutcome::Failed => {
                if fatal {
                    return CreationNext::Stopped(e, s);
                }
            },
            StepOutcome::Read(c) => {
                self.keep_previous(e, c);
            },
            StepOutcome::Done => {},
        }
        if s + 1 < n {
            CreationNext::Run(e, s + 1)
        } else {
            assert(e < entries);
            start_at(plan, e + 1)
        }
    }
}
} // verus!
