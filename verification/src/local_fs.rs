//! The driver for files on disk: what it makes of what the disk says.
use crate::blocks;
use crate::blocks::ReadPlan;
use crate::path;
use crate::progress;
use crate::progress::Progress;
use crate::progress::Report;
use crate::text;
use crate::types::FilesDirs;
use crate::types::InternalError;
use vstd::prelude::*;

verus! {

/// Files below a place on disk.
#[derive(Debug)]
pub struct LocalFs {
    pub root: String,
}

/// What the disk says of a path.
#[derive(Debug)]
pub struct Metadata {
    pub is_dir: bool,
    pub len: u64,
}

/// What is to be done about a path on disk.
#[derive(Debug)]
pub enum LocalLoad {
    /// It is a directory.
    Directory,
    /// It is a file, to be read in this way.
    Read(ReadPlan),
}

/// One entry of a directory on disk.
#[derive(Debug)]
pub struct DirEntry {
    pub name: String,
    pub is_file: bool,
}

/// The names of those entries that are files, or of those that are not.
pub open spec fn entry_names(entries: Seq<DirEntry>, files: bool) -> Seq<Seq<char>>
    decreases entries.len(),
{
    if entries.len() == 0 {
        seq![]
    } else {
        let before = entry_names(entries.drop_last(), files);
        if entries.last().is_file == files {
            before.push(entries.last().name@)
        } else {
            before
        }
    }
}

impl LocalFs {
    pub fn new() -> (fs: LocalFs)
        ensures
            fs.root@ == Seq::<char>::empty(),
    {
        LocalFs { root: String::new() }
    }

    /// Files on disk have paths on this machine.
    pub fn is_remote(&self) -> (b: bool)
        ensures
            !b,
    {
        false
    }

    pub fn name(&self) -> (name: &'static str)
        ensures
            name@ == "local_fs"@,
    {
        "local_fs"
    }

    /// Urls in the style of ftp:// or http:// are not paths on disk.
    pub fn supports_url(&self, path: &str) -> (b: bool)
        ensures
            b == !text::has_pair(path@, ':', '/'),
    {
        !text::contains_pair(&text::chars_of(path), ':', '/')
    }

    pub fn create_instance(&self) -> (fs: LocalFs)
        ensures
            fs.root@ == Seq::<char>::empty(),
    {
        LocalFs::new()
    }

    /// The driver for what is below `path`, where the disk has that.
    pub fn create_from_url(&self, path: &str, exists_on_disk: bool) -> (fs: Option<LocalFs>)
        ensures
            fs is Some <==> exists_on_disk,
            fs matches Some(fs) ==> fs.root@ == path@,
    {
        if exists_on_disk {
            Some(LocalFs { root: path.to_owned() })
        } else {
            None
        }
    }

    /// Where on disk `path` is to be loaded from.
    pub fn load_path(&self, path: &str) -> (full: String)
        ensures
            full@ == if path@.len() == 0 {
                self.root@
            } else {
                path::join_path(self.root@, path@)
            },
    {
        if path.is_empty() {
            self.root.clone()
        } else {
            path::join(self.root.as_str(), path)
        }
    }

    /// Decides how what is at [`LocalFs::load_path`] is loaded, given what the disk
    /// says of it.
    pub fn load(&self, metadata: Option<Metadata>) -> (load: Result<LocalLoad, InternalError>)
        ensures
            match metadata {
                None => load == Err::<LocalLoad, InternalError>(InternalError::FileDirNotFound),
                Some(metadata) => if metadata.is_dir {
                    load == Ok::<LocalLoad, InternalError>(LocalLoad::Directory)
                } else {
                    load matches Ok(LocalLoad::Read(plan)) && blocks::is_plan(
                        plan,
                        metadata.len as usize as int,
                        blocks::SMALL_FILE as int,
                    )
                },
            },
    {
        match metadata {
            None => Err(InternalError::FileDirNotFound),
            Some(metadata) => {
                if metadata.is_dir {
                    Ok(LocalLoad::Directory)
                } else {
                    let len: usize = metadata.len as usize;
                    Ok(LocalLoad::Read(blocks::plan_read(len, blocks::SMALL_FILE)))
                }
            },
        }
    }

    /// The directory on disk that is to be listed for `path`.
    pub fn list_path(&self, path: &str) -> (full: String)
        ensures
            full@ == path::join_path(self.root@, path@),
    {
        path::join(self.root.as_str(), path)
    }

    /// Sorts the entries of a directory into files and everything else, each in
    /// the order of names.
    pub fn get_directory_list<R: Report>(&self, entries: &Vec<DirEntry>, progress: &mut Progress<R>) -> (result:
        Result<FilesDirs, InternalError>)
        ensures
            match result {
                Ok(files_dirs) => {
                    &&& text::in_order(files_dirs@.files)
                    &&& text::in_order(files_dirs@.dirs)
                    &&& files_dirs@.files.to_multiset() == entry_names(
                        entries@,
                        true,
                    ).to_multiset()
                    &&& files_dirs@.dirs.to_multiset() == entry_names(
                        entries@,
                        false,
                    ).to_multiset()
                    &&& files_dirs@.files.to_multiset() == entries@.filter(
                        |entry: DirEntry| entry.is_file,
                    ).map_values(|entry: DirEntry| entry.name@).to_multiset()
                    &&& files_dirs@.dirs.to_multiset() == entries@.filter(
                        |entry: DirEntry| !entry.is_file,
                    ).map_values(|entry: DirEntry| entry.name@).to_multiset()
                    &&& progress::told_all(*old(progress), *final(progress), 1, 1)
                },
                Err(e) => {
                    &&& e == InternalError::SendError
                    &&& progress::stopped(*old(progress), *final(progress), 1, 0)
                },
            },
    {
        progress.set_step(1);
        let mut dirs: Vec<String> = Vec::new();
        let mut files: Vec<String> = Vec::new();
        let mut i: usize = 0;
        assert(text::texts(files@) =~= entry_names(entries@.take(0), true));
        assert(text::texts(dirs@) =~= entry_names(entries@.take(0), false));
        while i < entries.len()
            invariant
                i <= entries@.len(),
                text::texts(files@) == entry_names(entries@.take(i as int), true),
                text::texts(dirs@) == entry_names(entries@.take(i as int), false),
                progress.step == 1,
                progress.to == old(progress).to,
            decreases entries@.len() - i,
        {
            assert(entries@.take(i + 1).drop_last() =~= entries@.take(i as int));
            assert(entries@.take(i + 1).last() == entries@[i as int]);
            let ghost old_files = text::texts(files@);
            let ghost old_dirs = text::texts(dirs@);
            let name: String = entries[i].name.clone();
            if entries[i].is_file {
                files.push(name);
                assert(text::texts(files@) =~= old_files.push(name@));
            } else {
                dirs.push(name);
                assert(text::texts(dirs@) =~= old_dirs.push(name@));
            }
            i = i + 1;
        }
        assert(entries@.take(i as int) =~= entries@);
        if let Err(e) = progress.step() {
            assert(progress.to.told() =~= old(progress).to.told() + progress::steps(1, 0));
            return Err(e);
        }
        assert(progress.to.told() =~= old(progress).to.told() + progress::steps(1, 1));
        proof {
            lemma_entry_names(entries@, true);
            lemma_entry_names(entries@, false);
            assert((|entry: DirEntry| entry.is_file) =~= (|entry: DirEntry| entry.is_file == true));
            assert((|entry: DirEntry| !entry.is_file) =~= (|entry: DirEntry|
                entry.is_file == false));
        }
        text::sort_names(&mut dirs);
        text::sort_names(&mut files);
        Ok(FilesDirs::new(files, dirs))
    }
}

proof fn lemma_entry_names(entries: Seq<DirEntry>, files: bool)
    ensures
        entry_names(entries, files) == entries.filter(
            |entry: DirEntry| entry.is_file == files,
        ).map_values(|entry: DirEntry| entry.name@),
    decreases entries.len(),
{
    let is_kind = |entry: DirEntry| entry.is_file == files;
    let name = |entry: DirEntry| entry.name@;
    reveal(Seq::filter);
    if entries.len() > 0 {
        lemma_entry_names(entries.drop_last(), files);
        let before = entries.drop_last().filter(is_kind);
        assert(entry_names(entries, files) =~= entries.filter(is_kind).map_values(name));
    } else {
        assert(entry_names(entries, files) =~= entries.filter(is_kind).map_values(name));
    }
}

proof fn lemma_entries_listed(entries: Seq<DirEntry>)
    ensures
        entry_names(entries, true).len() + entry_names(entries, false).len() == entries.len(),
        forall|i: int|
            0 <= i < entries.len() ==> entry_names(
                entries,
                (#[trigger] entries[i]).is_file,
            ).contains(entries[i].name@),
        forall|files: bool, name: Seq<char>| #[trigger]
            entry_names(entries, files).contains(name) ==> exists|i: int|
                0 <= i < entries.len() && (#[trigger] entries[i]).is_file == files
                    && entries[i].name@ == name,
    decreases entries.len(),
{
    if entries.len() > 0 {
        let fewer = entries.drop_last();
        let last = entries.last();
        lemma_entries_listed(fewer);
        assert forall|i: int| 0 <= i < entries.len() implies entry_names(
            entries,
            (#[trigger] entries[i]).is_file,
        ).contains(entries[i].name@) by {
            let kind = entries[i].is_file;
            let all = entry_names(entries, kind);
            let before = entry_names(fewer, kind);
            if i < fewer.len() {
                assert(fewer[i] == entries[i]);
                let k = choose|k: int| 0 <= k < before.len() && before[k] == entries[i].name@;
                assert(all[k] == entries[i].name@);
            } else {
                assert(all[before.len() as int] == entries[i].name@);
            }
        }
        assert forall|files: bool, name: Seq<char>| #[trigger]
            entry_names(entries, files).contains(name) implies exists|i: int|
            0 <= i < entries.len() && (#[trigger] entries[i]).is_file == files
                && entries[i].name@ == name by {
            let all = entry_names(entries, files);
            let before = entry_names(fewer, files);
            let k = choose|k: int| 0 <= k < all.len() && all[k] == name;
            if k < before.len() {
                assert(before[k] == name);
                assert(before.contains(name));
                let i = choose|i: int|
                    0 <= i < fewer.len() && (#[trigger] fewer[i]).is_file == files
                        && fewer[i].name@ == name;
                assert(entries[i].is_file == files && entries[i].name@ == name);
            } else {
                assert(entries[entries.len() - 1] == last);
            }
        }
    }
}

/// Every entry of a directory is listed and nothing else is: what is a file among the
/// files, everything else among the directories, and as many names as entries.
pub proof fn every_entry_is_listed(
    entries: Seq<DirEntry>,
    listed: crate::types::FilesDirsView,
)
    requires
        listed.files.to_multiset() == entry_names(entries, true).to_multiset(),
        listed.dirs.to_multiset() == entry_names(entries, false).to_multiset(),
    ensures
        listed.files.len() + listed.dirs.len() == entries.len(),
        forall|i: int|
            0 <= i < entries.len() ==> if (#[trigger] entries[i]).is_file {
                listed.files.contains(entries[i].name@)
            } else {
                listed.dirs.contains(entries[i].name@)
            },
        forall|name: Seq<char>| #[trigger]
            listed.files.contains(name) ==> exists|i: int|
                0 <= i < entries.len() && (#[trigger] entries[i]).is_file && entries[i].name@
                    == name,
        forall|name: Seq<char>| #[trigger]
            listed.dirs.contains(name) ==> exists|i: int|
                0 <= i < entries.len() && !(#[trigger] entries[i]).is_file && entries[i].name@
                    == name,
        listed.files.to_multiset() == entries.filter(
            |entry: DirEntry| entry.is_file,
        ).map_values(|entry: DirEntry| entry.name@).to_multiset(),
        listed.dirs.to_multiset() == entries.filter(
            |entry: DirEntry| !entry.is_file,
        ).map_values(|entry: DirEntry| entry.name@).to_multiset(),
{
    let files = entry_names(entries, true);
    let dirs = entry_names(entries, false);
    lemma_entries_listed(entries);
    text::lemma_same_names(listed.files, files);
    text::lemma_same_names(listed.dirs, dirs);
    assert forall|i: int| 0 <= i < entries.len() implies if (#[trigger] entries[i]).is_file {
        listed.files.contains(entries[i].name@)
    } else {
        listed.dirs.contains(entries[i].name@)
    } by {
        assert(entry_names(entries, entries[i].is_file).contains(entries[i].name@));
    }
    lemma_entry_names(entries, true);
    lemma_entry_names(entries, false);
    assert((|entry: DirEntry| entry.is_file) =~= (|entry: DirEntry| entry.is_file == true));
    assert((|entry: DirEntry| !entry.is_file) =~= (|entry: DirEntry| entry.is_file == false));
}

} // verus!
