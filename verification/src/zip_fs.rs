//! The driver for zip archives.
use crate::archive;
use crate::blocks;
use crate::blocks::Block;
use crate::blocks::ReadPlan;
use crate::progress;
use crate::progress::Progress;
use crate::progress::Report;
use crate::text;
use crate::types::FilesDirs;
use crate::types::InternalError;
use crate::types::LoadStatus;
use std::io::Cursor;
use vstd::prelude::*;
use zip::read::ZipFile;
use zip::ZipArchive;

verus! {

/// The entries of a zip archive in memory, once there is one.
#[derive(Debug)]
pub struct ZipFs {
    pub data: Option<ZipArchive<Cursor<Box<[u8]>>>>,
}

/// What an archive says of an entry.
#[derive(Debug)]
pub struct EntryInfo {
    pub is_dir: bool,
    pub size: u64,
}

/// What is to be done about an entry of an archive.
#[derive(Debug)]
pub enum EntryLoad {
    /// There is no such entry.
    NotFound,
    /// It is a directory.
    Directory,
    /// It is a file, to be read in this way.
    Read(ReadPlan),
}

/// What the names in a directory start with: the path of the directory and a
/// slash, but nothing for the directory at the top.
pub open spec fn dir_prefix(path: Seq<char>) -> Seq<char> {
    if path.len() == 0 || path.last() == '/' {
        path
    } else {
        path.push('/')
    }
}

/// The name lies in the directory.
pub open spec fn is_below(path: Seq<char>, name: Seq<char>) -> bool {
    dir_prefix(path).is_prefix_of(name)
}

/// What is left of a name behind the path of a directory.
pub open spec fn below(path: Seq<char>, name: Seq<char>) -> Seq<char> {
    name.skip(dir_prefix(path).len() as int)
}

/// The name is that of a file directly in the directory.
pub open spec fn is_file_in(path: Seq<char>, name: Seq<char>) -> bool {
    is_below(path, name) && !below(path, name).contains('/')
}

/// The name lies in the directory `dir` directly in the directory.
pub open spec fn is_in_dir(path: Seq<char>, name: Seq<char>, dir: Seq<char>) -> bool {
    &&& is_below(path, name)
    &&& below(path, name).contains('/')
    &&& below(path, name).take(text::first_at(below(path, name), '/')) == dir
}

/// The files directly in a directory, out of all names in the archive.
pub open spec fn files_in(path: Seq<char>, names: Seq<Seq<char>>) -> Seq<Seq<char>>
    decreases names.len(),
{
    if names.len() == 0 {
        seq![]
    } else {
        let before = files_in(path, names.drop_last());
        if is_file_in(path, names.last()) {
            before.push(below(path, names.last()))
        } else {
            before
        }
    }
}

/// `dir` is a directory directly in a directory, where these are all names in the
/// archive.
pub open spec fn has_dir(path: Seq<char>, names: Seq<Seq<char>>, dir: Seq<char>) -> bool {
    dir.len() > 0 && exists|i: int|
        0 <= i < names.len() && is_in_dir(path, #[trigger] names[i], dir)
}

/// This is the listing of a directory, where these are all names in the archive:
/// its files and its directories, each in the order of names, and each directory
/// once.
pub open spec fn is_listing(
    files_dirs: crate::types::FilesDirsView,
    path: Seq<char>,
    names: Seq<Seq<char>>,
) -> bool {
    &&& text::in_order(files_dirs.files)
    &&& files_dirs.files.to_multiset() == files_in(path, names).to_multiset()
    &&& text::in_order(files_dirs.dirs)
    &&& files_dirs.dirs.no_duplicates()
    &&& forall|dir: Seq<char>| #[trigger]
        files_dirs.dirs.contains(dir) <==> has_dir(path, names, dir)
}

/// This is the listing of a directory, where the archive has these names, whichever
/// way they are gone through.
pub open spec fn is_listing_of(
    files_dirs: crate::types::FilesDirsView,
    path: Seq<char>,
    names: Set<Seq<char>>,
) -> bool {
    exists|list: Seq<Seq<char>>|
        list.no_duplicates() && list.to_set() == names && #[trigger] is_listing(
            files_dirs,
            path,
            list,
        )
}

/// The directory that a name lies in counts as found as soon as one name shows it.
proof fn lemma_has_dir_push(path: Seq<char>, names: Seq<Seq<char>>, n: int, dir: Seq<char>)
    requires
        0 <= n < names.len(),
    ensures
        has_dir(path, names.take(n + 1), dir) <==> has_dir(path, names.take(n), dir) || (dir.len()
            > 0 && is_in_dir(path, names[n], dir)),
{
    let fewer = names.take(n);
    let more = names.take(n + 1);
    if has_dir(path, fewer, dir) {
        let i = choose|i: int| 0 <= i < fewer.len() && is_in_dir(path, #[trigger] fewer[i], dir);
        assert(more[i] == fewer[i]);
    }
    if dir.len() > 0 && is_in_dir(path, names[n], dir) {
        assert(more[n] == names[n]);
    }
    if has_dir(path, more, dir) {
        let i = choose|i: int| 0 <= i < more.len() && is_in_dir(path, #[trigger] more[i], dir);
        if i < n {
            assert(fewer[i] == more[i]);
        }
    }
}

/// The names in order, each once.
fn without_repeats(names: Vec<String>) -> (kept: Vec<String>)
    requires
        text::in_order(text::texts(names@)),
    ensures
        text::in_order(text::texts(kept@)),
        text::texts(kept@).no_duplicates(),
        forall|t: Seq<char>| #[trigger]
            text::texts(kept@).contains(t) <==> text::texts(names@).contains(t),
{
    let ghost all = text::texts(names@);
    let ghost leq = |a: Seq<char>, b: Seq<char>| text::name_le(a, b);
    let mut kept: Vec<String> = Vec::new();
    let mut i: usize = 0;
    while i < names.len()
        invariant
            all == text::texts(names@),
            leq == (|a: Seq<char>, b: Seq<char>| text::name_le(a, b)),
            text::in_order(all),
            i <= all.len(),
            text::in_order(text::texts(kept@)),
            text::texts(kept@).no_duplicates(),
            i > 0 ==> kept@.len() > 0 && text::texts(kept@).last() == all[i - 1],
            i == 0 ==> kept@.len() == 0,
            forall|k: int| 0 <= k < i ==> text::texts(kept@).contains(#[trigger] all[k]),
            forall|k: int|
                0 <= k < kept@.len() ==> exists|j: int| 0 <= j < i && all[j] == #[trigger] text::texts(kept@)[k],
        decreases all.len() - i,
    {
        let ghost before = text::texts(kept@);
        let name: String = names[i].clone();
        let repeated: bool = kept.len() > 0 && kept[kept.len() - 1] == name;
        if repeated {
            assert(before.last() == name@);
            assert(before.contains(name@));
        } else {
            kept.push(name);
            let ghost after = text::texts(kept@);
            proof {
                text::name_order_is_total();
                assert(after =~= before.push(all[i as int]));
                assert forall|k: int| 0 <= k < before.len() implies #[trigger] leq(before[k], all[i as int])
                    && before[k] != all[i as int] by {
                    let j = choose|j: int| 0 <= j < i && all[j] == before[k];
                    assert(leq(all[j], all[i as int]));
                    if before[k] == all[i as int] {
                        assert(leq(before[k], before.last()));
                        assert(leq(all[i - 1], all[i as int]));
                        assert(before.last() == all[i as int]);
                    }
                }
                assert forall|a: int, b: int| 0 <= a < b < after.len() implies #[trigger] leq(
                    after[a],
                    after[b],
                ) by {
                    if b == before.len() {
                        assert(leq(before[a], all[i as int]));
                    } else {
                        assert(leq(before[a], before[b]));
                    }
                }
                assert forall|a: int, b: int|
                    0 <= a < after.len() && 0 <= b < after.len() && a != b implies after[a]
                    != after[b] by {
                    if a == before.len() {
                        assert(leq(before[b], all[i as int]));
                    } else if b == before.len() {
                        assert(leq(before[a], all[i as int]));
                    }
                }
                assert forall|k: int| 0 <= k < i + 1 implies after.contains(#[trigger] all[k]) by {
                    if k < i {
                        let j = choose|j: int| 0 <= j < before.len() && before[j] == all[k];
                        assert(after[j] == all[k]);
                    } else {
                        assert(after[before.len() as int] == all[k]);
                    }
                }
                assert forall|k: int| 0 <= k < after.len() implies exists|j: int|
                    0 <= j < i + 1 && all[j] == #[trigger] after[k] by {
                    if k < before.len() {
                        let j = choose|j: int| 0 <= j < i && all[j] == before[k];
                        assert(all[j] == after[k]);
                    } else {
                        assert(all[i as int] == after[k]);
                    }
                }
            }
        }
        i = i + 1;
    }
    proof {
        let result = text::texts(kept@);
        assert forall|t: Seq<char>| #[trigger] result.contains(t) <==> all.contains(t) by {
            if result.contains(t) {
                let k = choose|k: int| 0 <= k < result.len() && result[k] == t;
                let j = choose|j: int| 0 <= j < i && all[j] == result[k];
                assert(all[j] == t);
            }
            if all.contains(t) {
                let k = choose|k: int| 0 <= k < all.len() && all[k] == t;
                assert(result.contains(all[k]));
            }
        }
    }
    kept
}

/// Sorting names keeps them.
proof fn lemma_same_names(a: Seq<Seq<char>>, b: Seq<Seq<char>>)
    requires
        a.to_multiset() == b.to_multiset(),
    ensures
        forall|t: Seq<char>| #[trigger] a.contains(t) <==> b.contains(t),
{
    text::lemma_same_names(a, b);
}

/// How many of the tenths that a file of `len` bytes is read in can be read where
/// there are only `available` bytes.
pub open spec fn readable_tenths(len: int, available: int) -> int {
    if available / (len / 10) < 10 {
        available / (len / 10)
    } else {
        10
    }
}

/// The lengths of the first `n` of the tenths that a file of `len` bytes is read in.
pub open spec fn tenths(len: int, n: int) -> Seq<int> {
    Seq::new(n as nat, |i: int| blocks::nth_block(len, len / 10, i).1)
}

/// What reading the `i`th tenth of an entry gives, after those before it.
pub open spec fn read_tenth(bytes: Seq<u8>, name: Seq<char>, len: int, i: int) -> Option<Seq<u8>> {
    archive::read_outcome(bytes, name, tenths(len, i + 1))
}

/// The first `n` tenths of an entry can be read.
pub open spec fn are_read(bytes: Seq<u8>, name: Seq<char>, len: int, n: int) -> bool {
    forall|i: int| 0 <= i < n ==> (#[trigger] read_tenth(bytes, name, len, i)) is Some
}

/// What the first `n` tenths of an entry give together.
pub open spec fn read_tenths(bytes: Seq<u8>, name: Seq<char>, len: int, n: int) -> Seq<u8>
    decreases n,
{
    if n <= 0 {
        seq![]
    } else {
        read_tenths(bytes, name, len, n - 1) + read_tenth(bytes, name, len, n - 1)->0
    }
}

/// Reading an entry in tenths fails at the `n`th.
pub open spec fn fails_at(bytes: Seq<u8>, name: Seq<char>, len: int, n: int) -> bool {
    are_read(bytes, name, len, n) && read_tenth(bytes, name, len, n) is None
}

/// The bytes that were read, if any.
pub open spec fn read_view(result: Result<Vec<u8>, InternalError>) -> Result<
    Seq<u8>,
    InternalError,
> {
    match result {
        Ok(output) => Ok(output@),
        Err(e) => Err(e),
    }
}

/// The outcome of reading an entry in tenths, where all its data is known if it can be
/// read to its end: as many bytes are read as the directory of the archive says that
/// it has.
pub open spec fn tenths_loaded<R: Report>(
    result: Result<Seq<u8>, InternalError>,
    before: Progress<R>,
    after: Progress<R>,
    bytes: Seq<u8>,
    name: Seq<char>,
    len: int,
    data: Option<Seq<u8>>,
) -> bool {
    match result {
        Ok(output) => {
            &&& are_read(bytes, name, len, 11)
            &&& output == read_tenths(bytes, name, len, 11)
            &&& data matches Some(data) ==> len <= data.len() && output == data.take(len)
            &&& progress::told_all(before, after, 10, 11)
        },
        Err(InternalError::FileError(_)) => exists|n: int|
            {
                &&& 0 <= n <= 10
                &&& #[trigger] fails_at(bytes, name, len, n)
                &&& data matches Some(data) ==> len > data.len() && n == readable_tenths(
                    len,
                    data.len() as int,
                )
                &&& after.step == 10
                &&& after.to.told() == before.to.told() + progress::steps(10, n)
            },
        Err(e) => {
            &&& e == InternalError::SendError
            &&& exists|n: int|
                0 <= n <= 10 && #[trigger] progress::stopped(before, after, 10, n) && are_read(
                    bytes,
                    name,
                    len,
                    n + 1,
                )
        },
    }
}

/// In how many parts the whole was divided before makes no difference.
proof fn lemma_tenths_loaded<R: Report>(
    result: Result<Seq<u8>, InternalError>,
    before: Progress<R>,
    divided: Progress<R>,
    after: Progress<R>,
    bytes: Seq<u8>,
    name: Seq<char>,
    len: int,
    data: Option<Seq<u8>>,
)
    requires
        tenths_loaded(result, divided, after, bytes, name, len, data),
        divided.to == before.to,
    ensures
        tenths_loaded(result, before, after, bytes, name, len, data),
{
    if let Err(e) = result {
        if e == InternalError::SendError {
            let n = choose|n: int|
                0 <= n <= 10 && #[trigger] progress::stopped(divided, after, 10, n) && are_read(
                    bytes,
                    name,
                    len,
                    n + 1,
                );
            assert(progress::stopped(before, after, 10, n));
        }
    }
}

/// The outcome of loading a file from an archive, of which the directory of the
/// archive says that it has `len` bytes. A small one is read to its end.
pub open spec fn file_loaded<R: Report>(
    result: Result<LoadStatus, InternalError>,
    before: Progress<R>,
    after: Progress<R>,
    bytes: Seq<u8>,
    name: Seq<char>,
    len: int,
    data: Option<Seq<u8>>,
) -> bool {
    if len < blocks::SMALL_ENTRY {
        match data {
            Some(data) => match result {
                Ok(LoadStatus::Data(output)) => {
                    &&& output@ == data
                    &&& progress::told_all(before, after, 1, 1)
                },
                Err(e) => {
                    &&& e == InternalError::SendError
                    &&& progress::stopped(before, after, 1, 0)
                },
                _ => false,
            },
            None => {
                &&& result matches Err(InternalError::FileError(_))
                &&& after.step == 1
                &&& after.to == before.to
            },
        }
    } else {
        match result {
            Ok(LoadStatus::Data(output)) => tenths_loaded(
                Ok(output@),
                before,
                after,
                bytes,
                name,
                len,
                data,
            ),
            Err(e) => tenths_loaded(Err(e), before, after, bytes, name, len, data),
            _ => false,
        }
    }
}

impl ZipFs {
    /// The bytes of the archive.
    pub open spec fn bytes(&self) -> Option<Seq<u8>> {
        match self.data {
            Some(data) => Some(archive::archive_bytes(data)),
            None => None,
        }
    }

    pub fn new() -> (fs: ZipFs)
        ensures
            fs.bytes() is None,
    {
        ZipFs { data: None }
    }

    /// Lists a directory of an archive, out of all the names in the archive.
    pub fn get_dirs<R: Report>(path: &str, progress: &mut Progress<R>, filenames: &Vec<String>) -> (result:
        Result<FilesDirs, InternalError>)
        ensures
            match result {
                Ok(files_dirs) => {
                    &&& is_listing(files_dirs@, path@, text::texts(filenames@))
                    &&& progress::told_all(*old(progress), *final(progress), 3, 3)
                },
                Err(e) => {
                    &&& e == InternalError::SendError
                    &&& exists|n: int|
                        0 <= n < 3 && #[trigger] progress::stopped(
                            *old(progress),
                            *final(progress),
                            3,
                            n,
                        )
                },
            },
    {
        let ghost names = text::texts(filenames@);
        let mut paths: Vec<String> = Vec::new();
        let mut files: Vec<String> = Vec::new();
        let mut match_dir: Vec<char> = text::chars_of(path);
        if match_dir.len() > 0 && match_dir[match_dir.len() - 1] != '/' {
            match_dir.push('/');
        }
        let dir_len: usize = match_dir.len();
        assert(match_dir@ == dir_prefix(path@));
        let mut i: usize = 0;
        assert(text::texts(files@) =~= files_in(path@, names.take(0)));
        while i < filenames.len()
            invariant
                names == text::texts(filenames@),
                match_dir@ == dir_prefix(path@),
                dir_len == match_dir@.len(),
                i <= names.len(),
                text::texts(files@) == files_in(path@, names.take(i as int)),
                forall|dir: Seq<char>| #[trigger]
                    text::texts(paths@).contains(dir) <==> has_dir(
                        path@,
                        names.take(i as int),
                        dir,
                    ),
            decreases names.len() - i,
        {
            let ghost name = names[i as int];
            let ghost old_files = text::texts(files@);
            let ghost old_paths = text::texts(paths@);
            assert(names.take(i + 1).drop_last() =~= names.take(i as int));
            assert(names.take(i + 1).last() == name);
            let p: Vec<char> = text::chars_of(filenames[i].as_str());
            if text::starts_with(&p, &match_dir) {
                let ghost t = below(path@, name);
                assert(is_below(path@, name));
                let pos: usize = text::find_char(&p, dir_len, '/');
                proof {
                    text::lemma_first_at(t, '/');
                }
                if pos < p.len() {
                    assert(t.contains('/'));
                    let dir: String = text::text_of(&p, dir_len, pos);
                    assert(dir@ =~= t.take(text::first_at(t, '/')));
                    assert(is_in_dir(path@, name, dir@));
                    if pos > dir_len {
                        paths.push(dir);
                        assert(text::texts(paths@) =~= old_paths.push(dir@));
                    }
                    assert forall|d: Seq<char>| #[trigger]
                        text::texts(paths@).contains(d) <==> has_dir(
                        path@,
                        names.take(i + 1),
                        d,
                    ) by {
                        lemma_has_dir_push(path@, names, i as int, d);
                        if dir@.len() > 0 {
                            lemma_push_contains(old_paths, dir@, d);
                        }
                    }
                } else {
                    let file: String = text::text_of(&p, dir_len, p.len());
                    assert(file@ =~= t);
                    files.push(file);
                    assert(text::texts(files@) =~= old_files.push(file@));
                    assert forall|d: Seq<char>| #[trigger]
                        text::texts(paths@).contains(d) <==> has_dir(
                        path@,
                        names.take(i + 1),
                        d,
                    ) by {
                        lemma_has_dir_push(path@, names, i as int, d);
                    }
                }
            } else {
                assert forall|d: Seq<char>| #[trigger] text::texts(paths@).contains(d) <==> has_dir(
                    path@,
                    names.take(i + 1),
                    d,
                ) by {
                    lemma_has_dir_push(path@, names, i as int, d);
                }
            }
            i = i + 1;
        }
        assert(names.take(i as int) =~= names);
        let ghost told = progress.to.told();
        progress.set_step(3);
        if let Err(e) = progress.step() {
            assert(progress.to.told() =~= told + progress::steps(3, 0));
            assert(progress::stopped(*old(progress), *progress, 3, 0));
            return Err(e);
        }
        let ghost unsorted = text::texts(paths@);
        text::sort_names(&mut paths);
        proof {
            lemma_same_names(text::texts(paths@), unsorted);
        }
        let dirs: Vec<String> = without_repeats(paths);
        if let Err(e) = progress.step() {
            assert(progress.to.told() =~= told + progress::steps(3, 1));
            assert(progress::stopped(*old(progress), *progress, 3, 1));
            return Err(e);
        }
        text::sort_names(&mut files);
        if let Err(e) = progress.step() {
            assert(progress.to.told() =~= told + progress::steps(3, 2));
            assert(progress::stopped(*old(progress), *progress, 3, 2));
            return Err(e);
        }
        assert(progress.to.told() =~= told + progress::steps(3, 3));
        Ok(FilesDirs::new(files, dirs))
    }

    /// Archives have no place on another machine.
    pub fn is_remote(&self) -> (b: bool)
        ensures
            !b,
    {
        false
    }

    /// Urls in the style of ftp:// or http:// are not supported.
    pub fn supports_url(&self, url: &str) -> (b: bool)
        ensures
            b == !text::has_pair(url@, ':', '/'),
    {
        !text::contains_pair(&text::chars_of(url), ':', '/')
    }

    pub fn create_instance(&self) -> (fs: ZipFs)
        ensures
            fs.bytes() is None,
    {
        ZipFs::new()
    }

    /// Tells whether data is an archive. One whose offsets could run past 64 bits is
    /// none.
    pub fn can_load_from_data(&self, data: &[u8]) -> (b: bool)
        ensures
            b == (archive::offsets_fit(data@) && archive::is_archive(data@)),
    {
        archive::check_offsets(data) && archive::opens(data)
    }

    /// The driver for the archive that data is, where it is one.
    pub fn create_from_data(&self, data: Box<[u8]>) -> (fs: Option<ZipFs>)
        ensures
            fs is Some <==> archive::offsets_fit(data@) && archive::is_archive(data@),
            fs matches Some(fs) ==> fs.bytes() == Some(data@),
    {
        if !archive::check_offsets(&data) {
            return None;
        }
        match archive::open_archive(data) {
            Ok(archive) => Some(ZipFs { data: Some(archive) }),
            Err(_) => None,
        }
    }

    /// Decides how a path in an archive is loaded, given what the archive says of
    /// the entry of that name. The archive itself is a directory.
    pub fn plan_load(path: &str, entry: Option<EntryInfo>) -> (load: EntryLoad)
        ensures
            if path@.len() == 0 {
                load == EntryLoad::Directory
            } else {
                match entry {
                    None => load == EntryLoad::NotFound,
                    Some(entry) => if entry.is_dir {
                        load == EntryLoad::Directory
                    } else {
                        load matches EntryLoad::Read(plan) && blocks::is_plan(
                            plan,
                            entry.size as usize as int,
                            blocks::SMALL_ENTRY as int,
                        )
                    },
                }
            },
    {
        if path.is_empty() {
            return EntryLoad::Directory;
        }
        match entry {
            None => EntryLoad::NotFound,
            Some(entry) => {
                if entry.is_dir {
                    EntryLoad::Directory
                } else {
                    let len: usize = entry.size as usize;
                    EntryLoad::Read(blocks::plan_read(len, blocks::SMALL_ENTRY))
                }
            },
        }
    }

    /// Loads a path from the archive.
    pub fn load_url<R: Report>(&mut self, path: &str, progress: &mut Progress<R>) -> (result: Result<
        LoadStatus,
        InternalError,
    >)
        ensures
            final(self).bytes() == old(self).bytes(),
            if path@.len() == 0 {
                &&& result == Ok::<LoadStatus, InternalError>(LoadStatus::Directory)
                &&& *final(progress) == *old(progress)
            } else {
                match old(self).bytes() {
                    None => {
                        &&& result == Ok::<LoadStatus, InternalError>(LoadStatus::NotFound)
                        &&& *final(progress) == *old(progress)
                    },
                    Some(bytes) => match archive::archive_entry(bytes, path@) {
                        None => {
                            &&& result == Ok::<LoadStatus, InternalError>(LoadStatus::NotFound)
                            &&& *final(progress) == *old(progress)
                        },
                        Some(size) => if archive::is_dir_name(path@) {
                            &&& result == Ok::<LoadStatus, InternalError>(LoadStatus::Directory)
                            &&& *final(progress) == *old(progress)
                        } else {
                            file_loaded(
                                result,
                                *old(progress),
                                *final(progress),
                                bytes,
                                path@,
                                size as usize as int,
                                archive::archive_data(bytes, path@),
                            )
                        },
                    },
                }
            },
    {
        if path.is_empty() {
            return Ok(LoadStatus::Directory);
        }
        let archive = match &mut self.data {
            Some(archive) => archive,
            None => {
                return Ok(LoadStatus::NotFound);
            },
        };
        let ghost bytes = archive::archive_bytes(*archive);
        let ghost data = archive::archive_data(bytes, path@);
        let mut file = match archive::by_name(archive, path) {
            Ok(file) => file,
            Err(_) => {
                return Ok(LoadStatus::NotFound);
            },
        };
        let size: u64 = file.size();
        let entry = EntryInfo { is_dir: file.is_dir(), size };
        let len: usize = size as usize;
        match ZipFs::plan_load(path, Some(entry)) {
            EntryLoad::NotFound => Ok(LoadStatus::NotFound),
            EntryLoad::Directory => Ok(LoadStatus::Directory),
            EntryLoad::Read(ReadPlan::Whole) => {
                progress.set_step(1);
                let mut output: Vec<u8> = Vec::new();
                match archive::read_to_end(&mut file, &mut output) {
                    Ok(_) => {},
                    Err(e) => {
                        return Err(InternalError::FileError(e));
                    },
                }
                assert(output@ =~= data->0);
                if let Err(e) = progress.step() {
                    assert(progress.to.told() =~= old(progress).to.told() + progress::steps(1, 0));
                    return Err(e);
                }
                assert(progress.to.told() =~= old(progress).to.told() + progress::steps(1, 1));
                Ok(LoadStatus::Data(crate::types::into_boxed_slice(output)))
            },
            EntryLoad::Read(ReadPlan::Blocks { steps, blocks }) => {
                progress.set_step(steps);
                let ghost divided = *progress;
                let result = read_in_blocks(&mut file, &blocks, len, progress);
                proof {
                    lemma_tenths_loaded(
                        read_view(result),
                        *old(progress),
                        divided,
                        *progress,
                        bytes,
                        path@,
                        len as int,
                        data,
                    );
                }
                match result {
                    Ok(output) => Ok(LoadStatus::Data(crate::types::into_boxed_slice(output))),
                    Err(e) => Err(e),
                }
            },
        }
    }

    /// Lists a directory of the archive.
    pub fn get_directory_list<R: Report>(&self, path: &str, progress: &mut Progress<R>) -> (result: Result<
        FilesDirs,
        InternalError,
    >)
        ensures
            match self.bytes() {
                None => {
                    &&& result matches Ok(files_dirs)
                    &&& files_dirs@ == (crate::types::FilesDirsView { files: seq![], dirs: seq![] })
                    &&& *final(progress) == *old(progress)
                },
                Some(bytes) => match result {
                    Ok(files_dirs) => {
                        &&& is_listing_of(files_dirs@, path@, archive::archive_names(bytes))
                        &&& progress::told_all(*old(progress), *final(progress), 3, 3)
                    },
                    Err(e) => {
                        &&& e == InternalError::SendError
                        &&& exists|n: int|
                            0 <= n < 3 && #[trigger] progress::stopped(
                                *old(progress),
                                *final(progress),
                                3,
                                n,
                            )
                    },
                },
            },
    {
        match &self.data {
            Some(archive) => {
                let names: Vec<String> = archive::file_names(archive);
                ZipFs::get_dirs(path, progress, &names)
            },
            None => Ok(FilesDirs::default()),
        }
    }
}

/// Reads the first `len` bytes of an entry in tenths and what is left, with a step
/// after each.
fn read_in_blocks<R: Report>(
    file: &mut ZipFile,
    blocks: &Vec<Block>,
    len: usize,
    progress: &mut Progress<R>,
) -> (result: Result<Vec<u8>, InternalError>)
    requires
        len >= blocks::SMALL_ENTRY,
        blocks@.len() == 11,
        blocks::are_blocks(blocks@, len as int, len as int / 10),
        old(progress).step == 10,
        archive::entry_reading(*old(file)).lens.len() == 0,
    ensures
        tenths_loaded(
            read_view(result),
            *old(progress),
            *final(progress),
            archive::entry_reading(*old(file)).bytes,
            archive::entry_reading(*old(file)).name,
            len as int,
            archive::entry_rest(*old(file)),
        ),
{
    let ghost data = archive::entry_rest(*file);
    let ghost bytes = archive::entry_reading(*file).bytes;
    let ghost name = archive::entry_reading(*file).name;
    let ghost total = len as int;
    let ghost block_len = len as int / 10;
    let ghost told = progress.to.told();
    let mut output: Vec<u8> = vec![0u8; len];
    let ghost mut pos: int = 0;
    let mut i: usize = 0;
    proof {
        blocks::lemma_tenths(total);
        assert(0 * block_len == 0);
        if let Some(d) = data {
            assert(d.skip(0) =~= d);
            assert(output@.take(0) =~= d.take(0));
        }
        assert(archive::entry_reading(*file).lens =~= tenths(total, 0));
        assert(output@.take(0) =~= read_tenths(bytes, name, total, 0));
        assert(told + progress::steps(10, 0) =~= told);
    }
    while i < blocks.len()
        invariant
            blocks@.len() == 11,
            i <= 11,
            len >= blocks::SMALL_ENTRY,
            total == len,
            block_len == total / 10,
            blocks::is_enough(total, block_len, 11),
            blocks::are_blocks(blocks@, total, block_len),
            output@.len() == len,
            i < 11 ==> pos == i * block_len,
            i == 11 ==> pos == total,
            0 <= pos <= total,
            data == archive::entry_rest(*old(file)),
            bytes == archive::entry_reading(*old(file)).bytes,
            name == archive::entry_reading(*old(file)).name,
            told == old(progress).to.told(),
            data matches Some(d) ==> {
                &&& pos <= d.len()
                &&& archive::entry_rest(*file) == Some(d.skip(pos))
                &&& output@.take(pos) == d.take(pos)
            },
            archive::entry_reading(*file) == (archive::Reading {
                bytes,
                name,
                lens: tenths(total, i as int),
            }),
            are_read(bytes, name, total, i as int),
            output@.take(pos) == read_tenths(bytes, name, total, i as int),
            progress.step == 10,
            progress.to.told() == told + progress::steps(10, i as int),
            i > 0 ==> !progress.to.is_gone(),
        decreases 11 - i,
    {
        proof {
            blocks::blocks_lie_side_by_side(total, block_len, 11, i as int);
        }
        let block = blocks[i];
        let ghost before = output@;
        let ghost end = pos + block.len;
        assert(tenths(total, i as int).push(block.len as int) =~= tenths(total, i + 1));
        match archive::read_exact(file, &mut output, block.offset, block.offset + block.len) {
            Ok(_) => {},
            Err(e) => {
                proof {
                    if let Some(d) = data {
                        lemma_readable_tenths(
                            total,
                            d.len() as int,
                            i as int,
                            block.len as int,
                        );
                    }
                    assert(fails_at(bytes, name, total, i as int));
                }
                return Err(InternalError::FileError(e));
            },
        }
        proof {
            if let Some(d) = data {
                let rest = d.skip(pos);
                assert(rest.skip(block.len as int) =~= d.skip(end));
                assert(output@.take(end) =~= before.take(pos) + rest.take(block.len as int));
                assert(d.take(end) =~= d.take(pos) + rest.take(block.len as int));
            }
            let read = read_tenth(bytes, name, total, i as int)->0;
            assert(output@.take(end) =~= before.take(pos) + read);
            assert(are_read(bytes, name, total, i + 1));
            pos = end;
        }
        if let Err(e) = progress.step() {
            assert(progress::stopped(*old(progress), *progress, 10, i as int));
            return Err(e);
        }
        assert(progress.to.told() =~= told + progress::steps(10, i + 1));
        i = i + 1;
    }
    assert(output@.take(total) =~= output@);
    Ok(output)
}

/// The block that could not be read any more comes behind those that could.
proof fn lemma_readable_tenths(len: int, available: int, i: int, block_len: int)
    requires
        len >= 90,
        0 <= i < 11,
        block_len == blocks::nth_block(len, len / 10, i).1,
        i * (len / 10) <= available < i * (len / 10) + block_len,
    ensures
        available < len,
        i == readable_tenths(len, available),
{
    let b = len / 10;
    blocks::lemma_tenths(len);
    blocks::blocks_lie_side_by_side(len, b, 11, i);
    assert(b > 0);
    if i < 10 {
        assert(available / b == i) by (nonlinear_arith)
            requires
                b > 0,
                i * b <= available,
                available < i * b + b,
        ;
    } else {
        assert(available / b >= 10) by (nonlinear_arith)
            requires
                b > 0,
                10 * b <= available,
        ;
    }
}

proof fn lemma_push_contains(names: Seq<Seq<char>>, last: Seq<char>, t: Seq<char>)
    ensures
        names.push(last).contains(t) <==> names.contains(t) || t == last,
{
    let all = names.push(last);
    if names.contains(t) {
        let k = choose|k: int| 0 <= k < names.len() && names[k] == t;
        assert(all[k] == t);
    }
    if t == last {
        assert(all[names.len() as int] == t);
    }
    if all.contains(t) {
        let k = choose|k: int| 0 <= k < all.len() && all[k] == t;
        if k < names.len() {
            assert(names[k] == t);
        }
    }
}

/// The files in a directory, out of two lists of names one after the other.
proof fn lemma_files_in_concat(path: Seq<char>, a: Seq<Seq<char>>, b: Seq<Seq<char>>)
    ensures
        files_in(path, a + b) == files_in(path, a) + files_in(path, b),
    decreases b.len(),
{
    if b.len() == 0 {
        assert(a + b =~= a);
        assert(files_in(path, a) + files_in(path, b) =~= files_in(path, a));
    } else {
        lemma_files_in_concat(path, a, b.drop_last());
        assert((a + b).drop_last() =~= a + b.drop_last());
        assert((a + b).last() == b.last());
        assert(files_in(path, a + b) =~= files_in(path, a) + files_in(path, b));
    }
}

/// The files in a directory do not depend on the order of the names.
proof fn lemma_files_in_any_order(path: Seq<char>, a: Seq<Seq<char>>, b: Seq<Seq<char>>)
    requires
        a.to_multiset() == b.to_multiset(),
    ensures
        files_in(path, a).to_multiset() == files_in(path, b).to_multiset(),
    decreases a.len(),
{
    broadcast use vstd::seq_lib::group_to_multiset_ensures;
    broadcast use vstd::multiset::group_multiset_axioms;

    assert(a.len() == a.to_multiset().len());
    assert(b.len() == b.to_multiset().len());
    if a.len() > 0 {
        let x = a.last();
        let fewer = a.drop_last();
        lemma_same_names(a, b);
        assert(a[a.len() - 1] == x);
        assert(a.contains(x));
        let j = choose|j: int| 0 <= j < b.len() && b[j] == x;
        let left = b.take(j);
        let right = b.skip(j + 1);
        let others = b.remove(j);
        assert(others =~= left + right);
        assert(fewer =~= a.remove(a.len() - 1));
        assert(fewer.to_multiset() =~= others.to_multiset());
        lemma_files_in_any_order(path, fewer, others);
        assert(b =~= left + (seq![x] + right));
        lemma_files_in_concat(path, left, seq![x] + right);
        lemma_files_in_concat(path, seq![x], right);
        lemma_files_in_concat(path, left, right);
        let l = files_in(path, left);
        let r = files_in(path, right);
        let one = files_in(path, seq![x]);
        assert(seq![x].drop_last() =~= seq![]);
        assert(seq![x].last() == x);
        assert(files_in(path, seq![]) == Seq::<Seq<char>>::empty());
        if is_file_in(path, x) {
            let t = below(path, x);
            assert(one =~= seq![t]);
            let whole = l + (one + r);
            assert(whole[l.len() as int] == t);
            assert(whole.remove(l.len() as int) =~= l + r);
            assert((l + r).to_multiset() =~= whole.to_multiset().remove(t));
            assert(whole.contains(t));
            assert(files_in(path, a) =~= files_in(path, fewer).push(t));
            assert(files_in(path, a).to_multiset() =~= files_in(path, fewer).to_multiset().insert(
                t,
            ));
            assert(whole.to_multiset() =~= (l + r).to_multiset().insert(t));
        } else {
            assert(one =~= seq![]);
            assert(l + (one + r) =~= l + r);
        }
    } else {
        assert(a =~= b);
    }
}

/// A directory has one listing: in whatever order the names of an archive come,
/// two listings of the same directory are equal.
pub proof fn listing_does_not_depend_on_order(
    one: crate::types::FilesDirsView,
    other: crate::types::FilesDirsView,
    path: Seq<char>,
    a: Seq<Seq<char>>,
    b: Seq<Seq<char>>,
)
    requires
        a.to_multiset() == b.to_multiset(),
        is_listing(one, path, a),
        is_listing(other, path, b),
    ensures
        one == other,
{
    broadcast use vstd::seq_lib::group_to_multiset_ensures;
    broadcast use vstd::multiset::group_multiset_axioms;

    let leq = |x: Seq<char>, y: Seq<char>| text::name_le(x, y);
    text::name_order_is_total();
    lemma_files_in_any_order(path, a, b);
    vstd::seq_lib::lemma_sorted_unique(one.files, other.files, leq);
    lemma_same_names(a, b);
    assert forall|dir: Seq<char>| one.dirs.contains(dir) <==> other.dirs.contains(dir) by {
        assert(has_dir(path, a, dir) <==> has_dir(path, b, dir)) by {
            if has_dir(path, a, dir) {
                let i = choose|i: int| 0 <= i < a.len() && is_in_dir(path, #[trigger] a[i], dir);
                assert(a.contains(a[i]));
                assert(b.contains(a[i]));
                let k = choose|k: int| 0 <= k < b.len() && b[k] == a[i];
                assert(is_in_dir(path, b[k], dir));
            }
            if has_dir(path, b, dir) {
                let i = choose|i: int| 0 <= i < b.len() && is_in_dir(path, #[trigger] b[i], dir);
                assert(b.contains(b[i]));
                assert(a.contains(b[i]));
                let k = choose|k: int| 0 <= k < a.len() && a[k] == b[i];
                assert(is_in_dir(path, a[k], dir));
            }
        }
        assert(one.dirs.contains(dir) <==> has_dir(path, a, dir));
        assert(other.dirs.contains(dir) <==> has_dir(path, b, dir));
    }
    one.dirs.lemma_multiset_has_no_duplicates();
    other.dirs.lemma_multiset_has_no_duplicates();
    assert(one.dirs.to_multiset() =~= other.dirs.to_multiset()) by {
        assert forall|dir: Seq<char>| one.dirs.to_multiset().count(dir)
            == other.dirs.to_multiset().count(dir) by {
            assert(one.dirs.contains(dir) <==> other.dirs.contains(dir));
            assert(one.dirs.contains(dir) <==> one.dirs.to_multiset().count(dir) > 0);
            assert(other.dirs.contains(dir) <==> other.dirs.to_multiset().count(dir) > 0);
        }
    }
    vstd::seq_lib::lemma_sorted_unique(one.dirs, other.dirs, leq);
}

/// A directory of an archive has one listing.
pub proof fn archive_has_one_listing(
    one: crate::types::FilesDirsView,
    other: crate::types::FilesDirsView,
    path: Seq<char>,
    names: Set<Seq<char>>,
)
    requires
        is_listing_of(one, path, names),
        is_listing_of(other, path, names),
    ensures
        one == other,
{
    broadcast use vstd::seq_lib::group_to_multiset_ensures;

    let a = choose|list: Seq<Seq<char>>|
        list.no_duplicates() && list.to_set() == names && #[trigger] is_listing(one, path, list);
    let b = choose|list: Seq<Seq<char>>|
        list.no_duplicates() && list.to_set() == names && #[trigger] is_listing(other, path, list);
    a.lemma_multiset_has_no_duplicates();
    b.lemma_multiset_has_no_duplicates();
    assert(a.to_multiset() =~= b.to_multiset()) by {
        assert forall|name: Seq<char>| a.to_multiset().count(name) == b.to_multiset().count(name) by {
            assert(a.to_set().contains(name) <==> b.to_set().contains(name));
            assert(a.contains(name) <==> a.to_multiset().count(name) > 0);
            assert(b.contains(name) <==> b.to_multiset().count(name) > 0);
        }
    }
    listing_does_not_depend_on_order(one, other, path, a, b);
}

/// What the names in a directory start with, as a path and a slash.
proof fn lemma_is_below(path: Seq<char>, name: Seq<char>, start: Seq<char>)
    requires
        start == if path.len() == 0 || path.last() == '/' {
            path
        } else {
            path + seq!['/']
        },
    ensures
        dir_prefix(path) == start,
        is_below(path, name) ==> name == start + below(path, name),
        forall|t: Seq<char>|
            name == #[trigger] (start + t) ==> is_below(path, name) && below(path, name) == t,
{
    assert(path.push('/') =~= path + seq!['/']);
    if is_below(path, name) {
        assert(name =~= name.take(start.len() as int) + name.skip(start.len() as int));
    }
    assert forall|t: Seq<char>| name == #[trigger] (start + t) implies is_below(path, name)
        && below(path, name) == t by {
        assert(name.take(start.len() as int) =~= start);
        assert(name.skip(start.len() as int) =~= t);
    }
}

proof fn lemma_files_counted(
    path: Seq<char>,
    names: Seq<Seq<char>>,
    start: Seq<char>,
    file: Seq<char>,
)
    requires
        start == if path.len() == 0 || path.last() == '/' {
            path
        } else {
            path + seq!['/']
        },
    ensures
        files_in(path, names).to_multiset().count(file) == if file.contains('/') {
            0
        } else {
            names.to_multiset().count(start + file)
        },
    decreases names.len(),
{
    broadcast use vstd::seq_lib::group_to_multiset_ensures;
    broadcast use vstd::multiset::group_multiset_axioms;

    if names.len() > 0 {
        let fewer = names.drop_last();
        let name = names.last();
        lemma_files_counted(path, fewer, start, file);
        lemma_is_below(path, name, start);
        assert(names =~= fewer.push(name));
        assert(names.to_multiset() =~= fewer.to_multiset().insert(name));
        let before = files_in(path, fewer);
        if is_file_in(path, name) {
            let found = below(path, name);
            assert(files_in(path, names).to_multiset() =~= before.to_multiset().insert(found));
            assert(name == start + found);
            if found != file {
                assert(name != start + file);
            }
        } else {
            if name == start + file {
                assert(below(path, name) == file);
            }
        }
    } else {
        assert(names =~= seq![]);
    }
}

proof fn lemma_is_in_dir(path: Seq<char>, name: Seq<char>, start: Seq<char>, dir: Seq<char>)
    requires
        start == if path.len() == 0 || path.last() == '/' {
            path
        } else {
            path + seq!['/']
        },
    ensures
        is_in_dir(path, name, dir) <==> !dir.contains('/') && (start + dir + seq!['/']).is_prefix_of(
            name,
        ),
{
    let whole = start + dir + seq!['/'];
    let t = below(path, name);
    lemma_is_below(path, name, start);
    text::lemma_first_at(t, '/');
    if is_in_dir(path, name, dir) {
        let at = text::first_at(t, '/');
        assert(name == start + t);
        assert(t.take(at) == dir);
        if dir.contains('/') {
            let k = choose|k: int| 0 <= k < dir.len() && dir[k] == '/';
            assert(t[k] == dir[k]);
        }
        assert(t[at] == '/');
        assert(name.take(whole.len() as int) =~= whole) by {
            assert(t.take(at + 1) =~= dir + seq!['/']);
            assert(name.take(whole.len() as int) =~= start + t.take(at + 1));
        }
    }
    if !dir.contains('/') && whole.is_prefix_of(name) {
        let rest = name.skip(whole.len() as int);
        let tail = dir + seq!['/'] + rest;
        assert(name =~= whole + rest);
        assert(name =~= start + tail);
        assert(t == tail);
        let at = dir.len() as int;
        assert(t[at] == '/');
        assert forall|i: int| 0 <= i < at implies t[i] != '/' by {
            assert(t[i] == dir[i]);
            assert(dir.contains(dir[i]));
        }
        text::lemma_first_at_is(t, '/', at);
        assert(t.contains('/'));
        assert(t.take(at) =~= dir);
    }
}

/// What a listing of a directory in an archive holds. Behind the path of the directory
/// and a slash, a name in the archive is that of a file where no slash follows, and it is
/// listed as often as the archive has it. A directory is listed where some name in the
/// archive goes on with it and a slash. Nothing else is listed.
pub proof fn a_listing_leads_back_to_the_names(
    listed: crate::types::FilesDirsView,
    path: Seq<char>,
    names: Seq<Seq<char>>,
)
    requires
        is_listing(listed, path, names),
    ensures
        ({
            let start = if path.len() == 0 || path.last() == '/' {
                path
            } else {
                path + seq!['/']
            };
            &&& forall|file: Seq<char>| #[trigger]
                listed.files.to_multiset().count(file) == if file.contains('/') {
                    0
                } else {
                    names.to_multiset().count(start + file)
                }
            &&& forall|dir: Seq<char>| #[trigger]
                listed.dirs.contains(dir) <==> dir.len() > 0 && !dir.contains('/') && exists|i: int|
                    0 <= i < names.len() && (start + dir + seq!['/']).is_prefix_of(
                        #[trigger] names[i],
                    )
            &&& listed.dirs.no_duplicates()
            &&& forall|i: int, j: int|
                0 <= i < j < listed.files.len() ==> #[trigger] text::name_le(
                    listed.files[i],
                    #[trigger] listed.files[j],
                )
            &&& forall|i: int, j: int|
                0 <= i < j < listed.dirs.len() ==> #[trigger] text::name_le(
                    listed.dirs[i],
                    #[trigger] listed.dirs[j],
                )
        }),
{
    let start = if path.len() == 0 || path.last() == '/' {
        path
    } else {
        path + seq!['/']
    };
    text::names_in_order_follow_each_other(listed.files);
    text::names_in_order_follow_each_other(listed.dirs);
    assert forall|file: Seq<char>| #[trigger]
        listed.files.to_multiset().count(file) == if file.contains('/') {
        0
    } else {
        names.to_multiset().count(start + file)
    } by {
        lemma_files_counted(path, names, start, file);
    }
    assert forall|dir: Seq<char>| #[trigger]
        listed.dirs.contains(dir) <==> dir.len() > 0 && !dir.contains('/') && exists|i: int|
            0 <= i < names.len() && (start + dir + seq!['/']).is_prefix_of(#[trigger] names[i]) by {
        assert(listed.dirs.contains(dir) <==> has_dir(path, names, dir));
        if has_dir(path, names, dir) {
            let i = choose|i: int|
                0 <= i < names.len() && is_in_dir(path, #[trigger] names[i], dir);
            lemma_is_in_dir(path, names[i], start, dir);
        }
        if dir.len() > 0 && !dir.contains('/') && exists|i: int|
            0 <= i < names.len() && (start + dir + seq!['/']).is_prefix_of(#[trigger] names[i]) {
            let i = choose|i: int|
                0 <= i < names.len() && (start + dir + seq!['/']).is_prefix_of(
                    #[trigger] names[i],
                );
            lemma_is_in_dir(path, names[i], start, dir);
        }
    }
}

/// What the listing of a directory holds, where an archive has each of its names once.
pub proof fn a_listing_leads_back_to_the_archive(
    listed: crate::types::FilesDirsView,
    path: Seq<char>,
    names: Set<Seq<char>>,
)
    requires
        is_listing_of(listed, path, names),
    ensures
        ({
            let start = if path.len() == 0 || path.last() == '/' {
                path
            } else {
                path + seq!['/']
            };
            &&& listed.files.no_duplicates()
            &&& forall|file: Seq<char>| #[trigger]
                listed.files.contains(file) <==> !file.contains('/') && names.contains(start + file)
            &&& listed.dirs.no_duplicates()
            &&& forall|dir: Seq<char>| #[trigger]
                listed.dirs.contains(dir) <==> dir.len() > 0 && !dir.contains('/')
                    && exists|name: Seq<char>| #[trigger]
                    names.contains(name) && (start + dir + seq!['/']).is_prefix_of(name)
        }),
{
    broadcast use vstd::seq_lib::group_to_multiset_ensures;

    let start = if path.len() == 0 || path.last() == '/' {
        path
    } else {
        path + seq!['/']
    };
    let list = choose|list: Seq<Seq<char>>|
        list.no_duplicates() && list.to_set() == names && #[trigger] is_listing(
            listed,
            path,
            list,
        );
    a_listing_leads_back_to_the_names(listed, path, list);
    list.lemma_multiset_has_no_duplicates();
    assert forall|file: Seq<char>| #[trigger]
        listed.files.contains(file) <==> !file.contains('/') && names.contains(start + file) by {
        assert(listed.files.contains(file) <==> listed.files.to_multiset().count(file) > 0);
        assert(list.contains(start + file) <==> list.to_multiset().count(start + file) > 0);
        assert(list.to_set().contains(start + file) <==> list.contains(start + file));
    }
    assert(listed.files.no_duplicates()) by {
        assert forall|file: Seq<char>| listed.files.to_multiset().contains(file) implies
            #[trigger] listed.files.to_multiset().count(file) == 1 by {
            assert(list.to_multiset().contains(start + file));
        }
        listed.files.lemma_multiset_has_no_duplicates_conv();
    }
    assert forall|dir: Seq<char>| #[trigger]
        listed.dirs.contains(dir) <==> dir.len() > 0 && !dir.contains('/') && exists|name: Seq<char>|
            #[trigger] names.contains(name) && (start + dir + seq!['/']).is_prefix_of(name) by {
        if listed.dirs.contains(dir) {
            let i = choose|i: int|
                0 <= i < list.len() && (start + dir + seq!['/']).is_prefix_of(#[trigger] list[i]);
            assert(list.contains(list[i]));
            assert(names.contains(list[i]));
        }
        if exists|name: Seq<char>| #[trigger]
            names.contains(name) && (start + dir + seq!['/']).is_prefix_of(name) {
            let name = choose|name: Seq<char>| #[trigger]
                names.contains(name) && (start + dir + seq!['/']).is_prefix_of(name);
            assert(list.contains(name));
            let i = choose|i: int| 0 <= i < list.len() && list[i] == name;
            assert((start + dir + seq!['/']).is_prefix_of(list[i]));
        }
    }
}

/// A file that is in order is loaded as it was stored, with one step where it is small,
/// and with eleven that count for a tenth each where it is not. It is not loaded only
/// where nobody takes note of the steps, or where it is shorter than the directory of the
/// archive says.
pub proof fn a_file_is_loaded_as_it_was_stored<R: Report>(
    result: Result<LoadStatus, InternalError>,
    before: Progress<R>,
    after: Progress<R>,
    bytes: Seq<u8>,
    name: Seq<char>,
    len: int,
    data: Seq<u8>,
)
    requires
        file_loaded(result, before, after, bytes, name, len, Some(data)),
        len >= 0,
    ensures
        result matches Ok(status) ==> {
            &&& status matches LoadStatus::Data(output)
            &&& len < 10240 ==> output@ == data
            &&& len >= 10240 ==> len <= data.len() && output@ == data.take(len)
            &&& len < 10240 ==> after.to.told() == before.to.told() + seq![1usize]
            &&& len >= 10240 ==> after.to.told() == before.to.told() + Seq::new(
                11,
                |i: int| 10usize,
            )
        },
        result matches Err(e) ==> {
            ||| e is SendError && after.to.is_gone()
            ||| e is FileError && len >= 10240 && len > data.len()
        },
        len == data.len() && !after.to.is_gone() ==> {
            &&& result matches Ok(LoadStatus::Data(output))
            &&& output@ == data
        },
        result matches Err(InternalError::FileError(_)) ==> exists|n: int|
            #![trigger progress::steps(10, n)]
            {
                &&& 0 <= n <= 10
                &&& n * (len / 10) <= data.len() < len
                &&& n < 10 ==> data.len() < (n + 1) * (len / 10)
                &&& after.to.told() == before.to.told() + Seq::new(n as nat, |i: int| 10usize)
            },
{
    assert(progress::steps(1, 1) =~= seq![1usize]);
    assert(data.take(data.len() as int) =~= data);
    if let Err(InternalError::FileError(e)) = result {
        let n = readable_tenths(len, data.len() as int);
        let b = len / 10;
        let a = data.len() as int;
        assert(after.to.told() == before.to.told() + progress::steps(10, n));
        assert(progress::steps(10, n) =~= Seq::new(n as nat, |i: int| 10usize));
        vstd::arithmetic::div_mod::lemma_fundamental_div_mod(a, b);
        vstd::arithmetic::div_mod::lemma_mod_bound(a, b);
        assert(0 <= a / b) by (nonlinear_arith)
            requires
                a >= 0,
                b > 0,
        ;
        assert((a / b) * b <= a < (a / b + 1) * b) by (nonlinear_arith)
            requires
                a == b * (a / b) + a % b,
                0 <= a % b < b,
        ;
        if a / b >= 10 {
            assert(10 * b <= (a / b) * b) by (nonlinear_arith)
                requires
                    a / b >= 10,
                    b > 0,
            ;
        }
    }
}

/// A small file that is damaged is not loaded, and no step is told.
pub proof fn a_damaged_file_is_not_loaded<R: Report>(
    result: Result<LoadStatus, InternalError>,
    before: Progress<R>,
    after: Progress<R>,
    bytes: Seq<u8>,
    name: Seq<char>,
    len: int,
)
    requires
        file_loaded(result, before, after, bytes, name, len, None),
        len < 10240,
    ensures
        result matches Err(InternalError::FileError(_)),
        after.to == before.to,
{
}

/// The lengths that a file is read in: ten tenths and what is left.
proof fn lemma_tenths_are(len: int, n: int)
    requires
        len >= 90,
        0 <= n <= 11,
    ensures
        tenths(len, n) == Seq::new(
            n as nat,
            |j: int|
                if j < 10 {
                    len / 10
                } else {
                    len - 10 * (len / 10)
                },
        ),
{
    let b = len / 10;
    let lens = Seq::new(
        n as nat,
        |j: int|
            if j < 10 {
                len / 10
            } else {
                len - 10 * (len / 10)
            },
    );
    assert forall|j: int| 0 <= j < n implies tenths(len, n)[j] == lens[j] by {
        if j < 10 {
            assert(j * b <= 9 * b) by (nonlinear_arith)
                requires
                    j <= 9,
                    b >= 0,
            ;
        }
    }
    assert(tenths(len, n) =~= lens);
}

proof fn lemma_read_tenths(bytes: Seq<u8>, name: Seq<char>, len: int, n: int)
    requires
        0 <= n,
    ensures
        read_tenths(bytes, name, len, n) == Seq::new(
            n as nat,
            |i: int| read_tenth(bytes, name, len, i)->0,
        ).fold_left(Seq::<u8>::empty(), |all: Seq<u8>, part: Seq<u8>| all + part),
    decreases n,
{
    let parts = Seq::new(n as nat, |i: int| read_tenth(bytes, name, len, i)->0);
    reveal_with_fuel(Seq::fold_left, 2);
    if n > 0 {
        let fewer = Seq::new((n - 1) as nat, |i: int| read_tenth(bytes, name, len, i)->0);
        lemma_read_tenths(bytes, name, len, n - 1);
        assert(parts.drop_last() =~= fewer);
    }
}

/// A large file is loaded in ten tenths and what is left, which are read one after the
/// other and put together in that order, whether or not it is in order.
pub proof fn a_large_file_is_read_from_its_start_to_its_end<R: Report>(
    output: Box<[u8]>,
    before: Progress<R>,
    after: Progress<R>,
    bytes: Seq<u8>,
    name: Seq<char>,
    len: int,
    data: Option<Seq<u8>>,
)
    requires
        file_loaded(Ok(LoadStatus::Data(output)), before, after, bytes, name, len, data),
        len >= 10240,
    ensures
        ({
            let lens = |n: int|
                Seq::new(
                    n as nat,
                    |j: int|
                        if j < 10 {
                            len / 10
                        } else {
                            len - 10 * (len / 10)
                        },
                );
            let part = |i: int| archive::read_outcome(bytes, name, lens(i + 1));
            &&& forall|i: int| 0 <= i < 11 ==> (#[trigger] part(i)) is Some
            &&& output@ == Seq::new(11, |i: int| part(i)->0).fold_left(
                Seq::<u8>::empty(),
                |all: Seq<u8>, one: Seq<u8>| all + one,
            )
        }),
{
    let lens = |n: int|
        Seq::new(
            n as nat,
            |j: int|
                if j < 10 {
                    len / 10
                } else {
                    len - 10 * (len / 10)
                },
        );
    let part = |i: int| archive::read_outcome(bytes, name, lens(i + 1));
    assert forall|i: int| 0 <= i < 11 implies (#[trigger] part(i)) == read_tenth(
        bytes,
        name,
        len,
        i,
    ) by {
        lemma_tenths_are(len, i + 1);
    }
    assert forall|i: int| 0 <= i < 11 implies (#[trigger] part(i)) is Some by {
        assert(read_tenth(bytes, name, len, i) is Some);
    }
    lemma_read_tenths(bytes, name, len, 11);
    assert(Seq::new(11, |i: int| part(i)->0) =~= Seq::new(
        11,
        |i: int| read_tenth(bytes, name, len, i)->0,
    ));
}

} // verus!
