use evfs::blocks::ReadPlan;
use evfs::ftp_fs::FtpLoad;
use evfs::driver::Question;
use evfs::found_or_not;
use evfs::handle_error;
use evfs::known_drivers;
use evfs::local_fs::DirEntry;
use evfs::local_fs::LocalLoad;
use evfs::local_fs::Metadata;
use evfs::zip_fs::EntryInfo;
use evfs::zip_fs::EntryLoad;
use evfs::progress::Report;
use evfs::Driver;
use evfs::FtpFs;
use evfs::InternalError;
use evfs::LoadStatus;
use evfs::LocalFs;
use evfs::Progress;
use evfs::RecvMsg;
use evfs::VfsError;
use evfs::ZipFs;
use std::io::Cursor;
use std::io::Write;
use zip::write::FileOptions;
use zip::CompressionMethod;
use zip::ZipWriter;

fn names(list: &[&str]) -> Vec<String> {
    list.iter().map(|s| s.to_string()).collect()
}

/// An archive of these entries. Names that end in a slash are directories.
fn archive_of(method: CompressionMethod, entries: &[(&str, &[u8])]) -> Box<[u8]> {
    let mut writer = ZipWriter::new(Cursor::new(Vec::new()));
    let options = FileOptions::default().compression_method(method);
    for (name, data) in entries {
        if name.ends_with('/') {
            writer.add_directory(*name, options).unwrap();
        } else {
            writer.start_file(*name, options).unwrap();
            writer.write_all(data).unwrap();
        }
    }
    writer.finish().unwrap().into_inner().into_boxed_slice()
}

fn noise(len: usize) -> Vec<u8> {
    let mut x: u32 = 12345;
    let mut data = Vec::new();
    for _ in 0..len {
        x = x.wrapping_mul(1103515245).wrapping_add(12345);
        data.push((x >> 16) as u8);
    }
    data
}

fn opened(bytes: Box<[u8]>) -> ZipFs {
    ZipFs::new().create_from_data(bytes).unwrap()
}

fn data_of(result: Result<LoadStatus, InternalError>) -> Vec<u8> {
    match result {
        Ok(LoadStatus::Data(data)) => data.into_vec(),
        other => panic!("{:?}", other),
    }
}

#[test]
fn data_is_an_archive_or_not() {
    let bytes = archive_of(CompressionMethod::Stored, &[("a", b"x".as_slice())]);
    let fs = ZipFs::new();
    assert!(fs.can_load_from_data(&bytes));
    assert!(fs.create_from_data(bytes).is_some());
    assert!(!fs.can_load_from_data(b"no archive"));
    assert!(fs.create_from_data(Box::new(*b"no archive")).is_none());
    assert!(!fs.can_load_from_data(&[]));
}

/// A directory of one entry, whose offset stands in a field of 64 bit numbers, with the
/// record that ends an archive, and this much in front.
fn far_archive(in_front: &[u8], offset: u64, field: u8) -> Vec<u8> {
    let mut entry = vec![0u8; 46];
    entry[0..4].copy_from_slice(b"PK\x01\x02");
    entry[28] = 1; // the name
    entry[30] = 12; // the extra data
    entry[42..46].copy_from_slice(&[0xff; 4]);
    entry.push(b'n');
    entry.extend_from_slice(&[field, 0, 8, 0]);
    entry.extend_from_slice(&offset.to_le_bytes());
    let mut bytes = in_front.to_vec();
    bytes.extend_from_slice(&entry);
    bytes.extend_from_slice(b"PK\x05\x06");
    bytes.extend_from_slice(&[0, 0, 0, 0, 1, 0, 1, 0]);
    bytes.extend_from_slice(&(entry.len() as u32).to_le_bytes());
    bytes.extend_from_slice(&[0, 0, 0, 0, 0, 0]);
    bytes
}

#[test]
fn offsets_that_run_past_64_bits_are_no_archive() {
    let fs = ZipFs::new();
    // With ten bytes in front, ten are added to every offset
    let most = u64::MAX - 10;
    for (in_front, offset, field, fits) in [
        (&[0u8; 10][..], most, 1, true),
        (&[0u8; 10][..], most + 1, 1, false),
        (&[0u8; 10][..], u64::MAX, 1, false),
        (&[0u8; 10][..], u64::MAX, 2, true),
        (&[][..], u64::MAX, 1, true),
    ] {
        let bytes = far_archive(in_front, offset, field);
        assert_eq!(evfs::archive::check_offsets(&bytes), fits);
        assert_eq!(fs.can_load_from_data(&bytes), fits);
        assert_eq!(fs.create_from_data(bytes.into_boxed_slice()).is_some(), fits);
    }
    assert!(evfs::archive::check_offsets(&[]));
    assert!(evfs::archive::check_offsets(&[0xff; 100]));
}

#[test]
fn only_the_directory_of_an_archive_is_looked_at() {
    // What would not fit in the directory of an archive may stand in a file of one
    let odd = far_archive(&[0u8; 10], u64::MAX, 1);
    assert!(!evfs::archive::check_offsets(&odd));
    let bytes = archive_of(CompressionMethod::Stored, &[("odd", &odd), ("b", b"x".as_slice())]);
    assert!(evfs::archive::check_offsets(&bytes));
    let mut fs = opened(bytes.clone());
    assert_eq!(data_of(fs.load_url("odd", &mut Progress::new())), odd);
    // Nor do bytes in front of an archive matter
    let mut behind = odd.clone();
    behind.extend_from_slice(&bytes);
    assert!(ZipFs::new().can_load_from_data(&behind));
    let mut fs = opened(behind.into_boxed_slice());
    assert_eq!(data_of(fs.load_url("b", &mut Progress::new())), b"x".to_vec());
}

#[test]
fn an_entry_is_given_back_as_it_was_written() {
    for method in [CompressionMethod::Stored, CompressionMethod::Deflated, CompressionMethod::Bzip2] {
        for len in [0, 1, 10239, 10240, 10249, 100000] {
            let data = noise(len);
            let mut fs = opened(archive_of(method, &[("foo/6beat.mod", &data), ("b", b"other".as_slice())]));
            let mut progress = Progress::new();
            assert_eq!(data_of(fs.load_url("foo/6beat.mod", &mut progress)), data);
            if len < 10240 {
                assert_eq!(progress.to, vec![1]);
            } else {
                assert_eq!(progress.to, vec![10; 11]);
            }
            // An archive can be read again
            assert_eq!(data_of(fs.load_url("b", &mut progress)), b"other".to_vec());
            assert_eq!(data_of(fs.load_url("foo/6beat.mod", &mut progress)), data);
        }
    }
}

#[test]
fn what_is_no_file_in_an_archive() {
    let mut fs = opened(archive_of(CompressionMethod::Stored, &[("foo/", &[]), ("foo/a", b"x".as_slice())]));
    let mut progress = Progress::new();
    assert!(matches!(fs.load_url("", &mut progress), Ok(LoadStatus::Directory)));
    assert!(matches!(fs.load_url("foo/", &mut progress), Ok(LoadStatus::Directory)));
    assert!(matches!(fs.load_url("foo", &mut progress), Ok(LoadStatus::NotFound)));
    assert!(matches!(fs.load_url("foo/b", &mut progress), Ok(LoadStatus::NotFound)));
    let mut none = ZipFs::new();
    assert!(matches!(none.load_url("", &mut progress), Ok(LoadStatus::Directory)));
    assert!(matches!(none.load_url("foo/a", &mut progress), Ok(LoadStatus::NotFound)));
    assert!(progress.to.is_empty());
}

/// The place of `wanted` in `bytes`.
fn place_of(bytes: &[u8], wanted: &[u8]) -> usize {
    bytes.windows(wanted.len()).position(|w| w == wanted).unwrap()
}

#[test]
fn a_wrong_checksum_is_an_error_of_reading() {
    let mut bytes = archive_of(CompressionMethod::Stored, &[("a", b"some content".as_slice())]);
    let at = place_of(&bytes, b"some content");
    bytes[at] = b'S';
    let mut fs = opened(bytes);
    let mut progress = Progress::new();
    match fs.load_url("a", &mut progress) {
        Err(InternalError::FileError(_)) => {}
        other => panic!("{:?}", other),
    }
    assert!(progress.to.is_empty());
    assert_eq!(progress.step, 1);
}

#[test]
fn an_entry_that_ends_early_is_an_error_of_reading() {
    // The directory says 20000 bytes where there are 15000
    let data = noise(15000);
    let mut bytes = archive_of(CompressionMethod::Stored, &[("a", &data)]);
    let directory = place_of(&bytes, b"PK\x01\x02");
    bytes[directory + 24..directory + 28].copy_from_slice(&20000_u32.to_le_bytes());
    let mut fs = opened(bytes);
    let mut progress = Progress::new();
    assert!(matches!(fs.load_url("a", &mut progress), Err(InternalError::FileError(_))));
    assert_eq!(progress.to, vec![10; 7]);
}

#[test]
fn directories_of_an_archive() {
    let fs = opened(archive_of(
        CompressionMethod::Stored,
        &[
            ("foo/b/two", &[]),
            ("z", &[]),
            ("foo/b/one", &[]),
            ("beat.zip", &[]),
            ("foo/y", &[]),
            ("foo/x", &[]),
            ("bar/", &[]),
            ("foobar/q", &[]),
            ("/abs", &[]),
        ],
    ));
    let mut progress = Progress::new();
    let top = fs.get_directory_list("", &mut progress).unwrap();
    assert_eq!(top.files, names(&["beat.zip", "z"]));
    assert_eq!(top.dirs, names(&["bar", "foo", "foobar"]));
    assert_eq!(progress.to, vec![3, 3, 3]);
    let foo = fs.get_directory_list("foo", &mut progress).unwrap();
    assert_eq!(foo.files, names(&["x", "y"]));
    assert_eq!(foo.dirs, names(&["b"]));
    let same = fs.get_directory_list("foo/", &mut progress).unwrap();
    assert_eq!((same.files, same.dirs), (foo.files, foo.dirs));
    // The directory's own entry has nothing behind its path
    let bar = fs.get_directory_list("bar", &mut progress).unwrap();
    assert_eq!((bar.files, bar.dirs), (names(&[""]), names(&[])));
    let none = ZipFs::new().get_directory_list("", &mut progress).unwrap();
    assert!(none.files.is_empty() && none.dirs.is_empty());
}

#[test]
fn a_listing_does_not_depend_on_the_order_of_names() {
    let forward = names(&["a/b/c", "a/d", "a/b/e", "f", "a/"]);
    let mut backward = forward.clone();
    backward.reverse();
    let mut progress = Progress::new();
    let one = ZipFs::get_dirs("a", &mut progress, &forward).unwrap();
    let other = ZipFs::get_dirs("a", &mut progress, &backward).unwrap();
    assert_eq!(one.files, names(&["", "d"]));
    assert_eq!(one.dirs, names(&["b"]));
    assert_eq!((one.files, one.dirs), (other.files, other.dirs));
}

#[test]
fn names_are_sorted_by_code_points() {
    let unsorted = names(&["b", "B", "a10", "a2", "\u{1f600}", "\u{ffff}", "", "ab"]);
    let mut sorted = unsorted.clone();
    sorted.sort();
    let mut progress = Progress::new();
    assert_eq!(ZipFs::get_dirs("", &mut progress, &unsorted).unwrap().files, sorted);
    assert_eq!(sorted[0], "");
    assert_eq!(sorted[7], "\u{1f600}");
}

#[test]
fn plans_for_entries() {
    assert!(matches!(ZipFs::plan_load("", None), EntryLoad::Directory));
    assert!(matches!(ZipFs::plan_load("a", None), EntryLoad::NotFound));
    let dir = EntryInfo { is_dir: true, size: 99999 };
    assert!(matches!(ZipFs::plan_load("a/", Some(dir)), EntryLoad::Directory));
    let small = EntryInfo { is_dir: false, size: 10239 };
    assert!(matches!(ZipFs::plan_load("a", Some(small)), EntryLoad::Read(ReadPlan::Whole)));
    let large = EntryInfo { is_dir: false, size: 10240 };
    assert!(matches!(ZipFs::plan_load("a", Some(large)), EntryLoad::Read(ReadPlan::Blocks { steps: 10, .. })));
}

#[test]
fn urls_of_archives_and_disks() {
    for url in ["/data/a.zip", "a:b/c", "", "c:"] {
        assert!(ZipFs::new().supports_url(url), "{:?}", url);
        assert!(LocalFs::new().supports_url(url), "{:?}", url);
    }
    for url in ["ftp:/x", "http://y", "a/b:/"] {
        assert!(!ZipFs::new().supports_url(url), "{:?}", url);
        assert!(!LocalFs::new().supports_url(url), "{:?}", url);
    }
    assert!(!ZipFs::new().is_remote());
    assert!(!LocalFs::new().is_remote());
    assert!(FtpFs::new().is_remote());
    assert!(ZipFs::new().create_instance().data.is_none());
}

#[test]
fn places_on_disk() {
    let fs = LocalFs::new().create_from_url("/data", true).unwrap();
    assert_eq!(fs.root, "/data");
    assert!(LocalFs::new().create_from_url("/data", false).is_none());
    assert_eq!(fs.load_path(""), "/data");
    assert_eq!(fs.load_path("a/b"), "/data/a/b");
    assert_eq!(fs.list_path(""), "/data/");
    assert_eq!(fs.list_path("a"), "/data/a");
    assert_eq!(fs.create_instance().root, "");
    assert_eq!(fs.name(), "local_fs");
}

#[test]
fn plans_for_the_disk() {
    let fs = LocalFs::new();
    assert!(matches!(fs.load(None), Err(InternalError::FileDirNotFound)));
    assert!(matches!(fs.load(Some(Metadata { is_dir: true, len: 4096 })), Ok(LocalLoad::Directory)));
    let small = Metadata { is_dir: false, len: 5 * 1024 * 1024 - 1 };
    assert!(matches!(fs.load(Some(small)), Ok(LocalLoad::Read(ReadPlan::Whole))));
    let large = Metadata { is_dir: false, len: 5 * 1024 * 1024 };
    match fs.load(Some(large)) {
        Ok(LocalLoad::Read(ReadPlan::Blocks { steps, blocks })) => {
            assert_eq!((steps, blocks.len()), (10, 11));
            assert_eq!((blocks[1].offset, blocks[1].len), (524288, 524288));
        }
        other => panic!("{:?}", other),
    }
}

#[test]
fn entries_of_a_directory_on_disk() {
    let entries = vec![
        DirEntry { name: "test_dir".to_string(), is_file: false },
        DirEntry { name: "beat.zip".to_string(), is_file: true },
        DirEntry { name: "link".to_string(), is_file: false },
        DirEntry { name: "a.zip".to_string(), is_file: true },
    ];
    let mut progress = Progress::new();
    let listed = LocalFs::new().get_directory_list(&entries, &mut progress).unwrap();
    assert_eq!(listed.files, names(&["a.zip", "beat.zip"]));
    assert_eq!(listed.dirs, names(&["link", "test_dir"]));
    assert_eq!(progress.to, vec![1]);
}

#[test]
fn urls_of_servers() {
    let fs = FtpFs::new();
    for url in ["ftp:/ftp.modland.com", "ftp.modland.com", "ftp:/x/y", "ftp."] {
        assert!(fs.supports_url(url), "{:?}", url);
    }
    for url in ["", "ftp", "ftp:", "sftp:/x", "/ftp.x", "http:/x"] {
        assert!(!fs.supports_url(url), "{:?}", url);
        assert!(!fs.can_load_from_url(url), "{:?}", url);
    }
    assert!(fs.can_load_from_url("ftp:/ftp.modland.com"));
    assert!(fs.can_load_from_url("ftp.modland.com:2121"));
    assert!(!fs.can_load_from_url("ftp:/ftp.modland.com/pub"));
    assert!(!fs.can_load_from_url("ftp.modland.com/pub"));
    assert!(!fs.can_load_from_url("ftp://x"));
    assert!(!fs.can_load_from_data(b"PK"));
    assert!(fs.create_from_data(Box::new([])).is_none());
    assert_eq!(fs.create_instance().name(), "ftp_fs");
}

#[test]
fn addresses_of_servers() {
    let fs = FtpFs::new();
    assert_eq!(FtpFs::find_server_name("ftp:/ftp.modland.com/pub/a").as_deref(), Some("ftp.modland.com"));
    assert_eq!(FtpFs::find_server_name("ftp.modland.com").as_deref(), Some("ftp.modland.com"));
    assert_eq!(FtpFs::find_server_name("a/b").as_deref(), Some("a"));
    assert_eq!(FtpFs::find_server_name("").as_deref(), Some(""));
    assert_eq!(fs.create_from_url("ftp:/ftp.modland.com").as_deref(), Some("ftp.modland.com:21"));
    assert_eq!(fs.create_from_url("ftp.modland.com:2121/x").as_deref(), Some("ftp.modland.com:2121"));
}

#[test]
fn listings_of_servers() {
    let lines = names(&[
        "-rw-rw-r--    1 1001       1001          5046034 May 25 16:00 allmods.zip",
        "drwxrwxr-x    7 1001       1001             4096 Jan 20  2018 incoming",
        "-rw-rw-r--    1 1001       1001               10 May 25 16:00 a b",
        "drwxrwxr-x    7 1001       1001             4096 Jan 20  2018 dir",
    ]);
    let mut progress = Progress::new();
    let listed = FtpFs::new().get_directory_list(&lines, &mut progress).unwrap();
    assert_eq!(listed.files, names(&["a", "allmods.zip"]));
    assert_eq!(listed.dirs, names(&["dir", "incoming"]));
    assert_eq!(progress.to, vec![2, 2]);
}

#[test]
fn what_a_server_has_at_a_path() {
    let fs = FtpFs::new();
    let file = "-rw-rw-r--    1 1001       1001          5046034 May 25 16:00 allmods.zip";
    let dir = "drwxrwxr-x    7 1001       1001             4096 Jan 20  2018 incoming";
    match fs.load_url(&names(&[file])) {
        Ok(FtpLoad::Fetch { size, plan: ReadPlan::Blocks { steps, blocks } }) => {
            assert_eq!((size, steps, blocks.len()), (5046034, 76, 77));
        }
        other => panic!("{:?}", other),
    }
    assert!(matches!(fs.load_url(&names(&[dir])), Ok(FtpLoad::Directory)));
    assert!(matches!(fs.load_url(&names(&[])), Ok(FtpLoad::Directory)));
    assert!(matches!(fs.load_url(&names(&[file, file])), Ok(FtpLoad::Directory)));
    let odd = "-rw-rw-r-- 1 1001 1001 many May 25 16:00 allmods.zip";
    assert!(matches!(fs.load_url(&names(&[odd])), Err(InternalError::ParseError)));
}

/// Somebody who takes note of some steps and then is gone.
struct Leaving {
    noted: Vec<usize>,
    stays_for: usize,
}

impl Report for Leaving {
    fn report(&mut self, parts: usize) -> bool {
        if self.noted.len() < self.stays_for {
            self.noted.push(parts);
            true
        } else {
            false
        }
    }
}

fn leaving(stays_for: usize) -> Progress<Leaving> {
    Progress::telling(Leaving { noted: vec![], stays_for })
}

#[test]
fn work_stops_where_nobody_takes_note() {
    let lines = names(&["-rw-rw-r-- 1 1 1 10 May 25 16:00 a"]);
    for n in 0..2 {
        let mut progress = leaving(n);
        let result = FtpFs::new().get_directory_list(&lines, &mut progress);
        assert!(matches!(result, Err(InternalError::SendError)));
        assert_eq!(progress.to.noted, vec![2; n]);
    }
    assert!(FtpFs::new().get_directory_list(&lines, &mut leaving(2)).is_ok());
    let entries = vec![DirEntry { name: "a".to_string(), is_file: true }];
    let result = LocalFs::new().get_directory_list(&entries, &mut leaving(0));
    assert!(matches!(result, Err(InternalError::SendError)));
    for n in 0..3 {
        let mut progress = leaving(n);
        let result = ZipFs::get_dirs("", &mut progress, &names(&["a"]));
        assert!(matches!(result, Err(InternalError::SendError)));
        assert_eq!(progress.to.noted, vec![3; n]);
    }
    assert!(ZipFs::get_dirs("", &mut leaving(3), &names(&["a"])).is_ok());
    let large = noise(20000);
    let mut fs = opened(archive_of(CompressionMethod::Deflated, &[("s", b"x".as_slice()), ("l", &large)]));
    assert!(matches!(fs.load_url("s", &mut leaving(0)), Err(InternalError::SendError)));
    for n in 0..11 {
        let mut progress = leaving(n);
        assert!(matches!(fs.load_url("l", &mut progress), Err(InternalError::SendError)));
        assert_eq!(progress.to.noted, vec![10; n]);
    }
    assert_eq!(data_of(fs.load_url("l", &mut leaving(11))), large);
    assert!(matches!(fs.get_directory_list("", &mut leaving(1)), Err(InternalError::SendError)));
    // Where no step is taken, nobody is needed
    assert!(matches!(fs.load_url("", &mut leaving(0)), Ok(LoadStatus::Directory)));
}

#[test]
fn names_out_of_which_a_listing_is_made() {
    let mut progress = Progress::new();
    let listed = ZipFs::get_dirs("", &mut progress, &names(&["/x", "b", "a", "d/", "d/e", "a"])).unwrap();
    assert_eq!(listed.files, names(&["a", "a", "b"]));
    assert_eq!(listed.dirs, names(&["d"]));
    assert_eq!(progress.to, vec![3, 3, 3]);
}

#[test]
fn archives_are_tried_before_plain_files() {
    let drivers = known_drivers();
    assert_eq!(drivers.len(), 2);
    assert!(matches!(&drivers[0], Driver::Zip(fs) if fs.data.is_none()));
    assert!(matches!(&drivers[1], Driver::Local(fs) if fs.root.is_empty()));
}

#[test]
fn questions_to_a_driver() {
    assert_eq!(Question::of_url(), Question::Supports);
    assert_eq!(Question::of_data(), Question::CanLoad);
    assert_eq!(Question::Supports.answered(true), Question::CanLoad);
    assert_eq!(Question::CanLoad.answered(true), Question::Create);
    assert_eq!(Question::Supports.answered(false), Question::Skip);
    assert_eq!(Question::CanLoad.answered(false), Question::Skip);
    assert_eq!(Question::Create.answered(false), Question::Create);
    assert_eq!(Question::Skip.answered(true), Question::Skip);
}

#[test]
fn a_large_entry_with_a_wrong_checksum_is_read_in_tenths() {
    // Its checksum is looked at only behind its end, which is not read
    let data = noise(20000);
    let mut bytes = archive_of(CompressionMethod::Stored, &[("a", &data)]);
    let at = place_of(&bytes, &data[..16]);
    bytes[at] = bytes[at].wrapping_add(1);
    let mut progress = Progress::new();
    let read = data_of(opened(bytes).load_url("a", &mut progress));
    assert_eq!(read[0], data[0].wrapping_add(1));
    assert_eq!(read[1..], data[1..]);
    assert_eq!(progress.to, vec![10; 11]);
}

#[test]
fn what_is_not_found_is_an_answer() {
    let missing = found_or_not(Err(InternalError::FileDirNotFound));
    assert!(matches!(missing, Ok(LoadStatus::NotFound)));
    assert!(matches!(found_or_not(Ok(LoadStatus::Directory)), Ok(LoadStatus::Directory)));
    assert!(matches!(found_or_not(Err(InternalError::ParseError)), Err(InternalError::ParseError)));
}

#[test]
fn errors_that_are_reported() {
    let error = std::io::Error::new(std::io::ErrorKind::Other, "disk");
    match handle_error(InternalError::FileError(error)) {
        Some(RecvMsg::Error(VfsError::FileError(e))) => assert_eq!(e.to_string(), "disk"),
        other => panic!("{:?}", other),
    }
    assert!(handle_error(InternalError::FileDirNotFound).is_none());
    assert!(handle_error(InternalError::SendError).is_none());
    assert!(handle_error(InternalError::WalkdirError).is_none());
    assert!(handle_error(InternalError::ParseError).is_none());
}
