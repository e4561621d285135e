use evfs::found_or_not;
use evfs::handle_error;
use evfs::known_drivers;
use evfs::loader::Action;
use evfs::local_fs::DirEntry;
use evfs::local_fs::LocalLoad;
use evfs::local_fs::Metadata;
use evfs::FilesDirs;
use evfs::InternalError;
use evfs::LoadState;
use evfs::LoadStatus;
use evfs::Loader;
use evfs::LocalFs;
use evfs::Progress;
use evfs::RecvMsg;
use evfs::VfsState;
use evfs::ZipFs;
use std::io::Cursor;
use std::io::Write;
use zip::write::FileOptions;
use zip::ZipWriter;

/// Files, and directories, which have no data, by their full paths.
struct Disk {
    entries: Vec<(String, Option<Vec<u8>>)>,
}

impl Disk {
    fn at(&self, path: &str) -> Option<&Option<Vec<u8>>> {
        let path = if path.len() > 1 { path.trim_end_matches('/') } else { path };
        self.entries.iter().find(|e| e.0 == path).map(|e| &e.1)
    }

    fn metadata(&self, path: &str) -> Option<Metadata> {
        self.at(path).map(|data| match data {
            Some(data) => Metadata { is_dir: false, len: data.len() as u64 },
            None => Metadata { is_dir: true, len: 0 },
        })
    }

    fn entries_in(&self, path: &str) -> Vec<DirEntry> {
        let start = format!("{}/", path.trim_end_matches('/'));
        let mut found = Vec::new();
        for (name, data) in &self.entries {
            if let Some(name) = name.strip_prefix(start.as_str()) {
                if !name.is_empty() && !name.contains('/') {
                    found.push(DirEntry { name: name.to_string(), is_file: data.is_some() });
                }
            }
        }
        found
    }
}

enum Driver {
    Zip(ZipFs),
    Local(LocalFs),
}

impl Driver {
    fn open_url(&self, disk: &Disk, url: &str) -> Option<Driver> {
        match self {
            Driver::Zip(fs) => match disk.at(url) {
                Some(Some(data)) if fs.supports_url(url) => {
                    fs.create_from_data(data.clone().into_boxed_slice()).map(Driver::Zip)
                }
                _ => None,
            },
            Driver::Local(fs) => {
                if fs.supports_url(url) {
                    fs.create_from_url(url, disk.at(url).is_some()).map(Driver::Local)
                } else {
                    None
                }
            }
        }
    }

    fn open_data(&self, data: Box<[u8]>) -> Option<Driver> {
        match self {
            Driver::Zip(fs) => fs.create_from_data(data).map(Driver::Zip),
            Driver::Local(_) => None,
        }
    }

    fn load(&mut self, disk: &Disk, path: &str, progress: &mut Progress<Vec<usize>>) -> Result<LoadStatus, InternalError> {
        match self {
            Driver::Zip(fs) => fs.load_url(path, progress),
            Driver::Local(fs) => {
                let full = fs.load_path(path);
                match fs.load(disk.metadata(&full))? {
                    LocalLoad::Directory => Ok(LoadStatus::Directory),
                    LocalLoad::Read(_) => {
                        Ok(LoadStatus::Data(disk.at(&full).unwrap().clone().unwrap().into_boxed_slice()))
                    }
                }
            }
        }
    }

    fn list(&self, disk: &Disk, path: &str, progress: &mut Progress<Vec<usize>>) -> Result<FilesDirs, InternalError> {
        match self {
            Driver::Zip(fs) => fs.get_directory_list(path, progress),
            Driver::Local(fs) => fs.get_directory_list(&disk.entries_in(&fs.list_path(path)), progress),
        }
    }
}

fn new_vfs() -> VfsState<Driver> {
    let drivers = known_drivers().into_iter();
    VfsState::new(
        drivers
            .map(|driver| match driver {
                evfs::Driver::Zip(fs) => Driver::Zip(fs),
                evfs::Driver::Local(fs) => Driver::Local(fs),
            })
            .collect(),
    )
}

/// Loads a path, and gives what the load ends in and every question it asks.
fn load_with(vfs: &mut VfsState<Driver>, disk: &Disk, path: &str) -> (Option<RecvMsg>, Vec<String>) {
    let mut asked = Vec::new();
    match load_steps(vfs, disk, path, &mut asked) {
        Ok(msg) => (msg, asked),
        Err(e) => (handle_error(e), asked),
    }
}

fn load_steps(
    vfs: &mut VfsState<Driver>,
    disk: &Disk,
    path: &str,
    asked: &mut Vec<String>,
) -> Result<Option<RecvMsg>, InternalError> {
    let mut loader = Loader::new(path);
    let mut msg = None;
    loop {
        match loader.next_action(vfs) {
            Action::FindNode => {
                assert!(loader.can_find_node(vfs));
                loader.find_node(vfs);
            }
            Action::FindNodeDriver => loader.find_node_driver(vfs),
            Action::OpenUrl { driver, url } => {
                let created = match driver {
                    Some(driver) => {
                        asked.push(format!("url {} {}", driver, url));
                        vfs.drivers[driver].open_url(disk, &url)
                    }
                    None => None,
                };
                assert!(loader.can_add_candidate(vfs));
                loader.find_driver_url(vfs, created);
            }
            Action::OpenData { driver } => {
                let created = match driver {
                    Some(driver) => {
                        asked.push(format!("data {}", driver));
                        vfs.drivers[driver].open_data(loader.data.clone().unwrap())
                    }
                    None => None,
                };
                msg = loader.find_driver_data(vfs, created);
            }
            Action::Load { mounted, path, list } => {
                asked.push(format!("load {}", path));
                let (status, listed) = ask(&mut vfs.node_drivers[mounted], disk, &path, list, asked)?;
                msg = loader.load_from_driver(vfs, status, listed);
            }
            Action::LoadNode { nearest, path, list } => {
                let (status, listed) = match nearest {
                    Some(mounted) => {
                        asked.push(format!("node {} {}", mounted, path));
                        let (status, listed) = ask(&mut vfs.node_drivers[mounted], disk, &path, list, asked)?;
                        (Some(status), listed)
                    }
                    None => (None, None),
                };
                msg = Some(loader.load_from_node(vfs, status, listed));
            }
            Action::End => return Ok(msg),
        }
    }
}

fn ask(
    driver: &mut Driver,
    disk: &Disk,
    path: &str,
    list: bool,
    asked: &mut Vec<String>,
) -> Result<(LoadStatus, Option<FilesDirs>), InternalError> {
    let mut progress = Progress::new();
    let status = found_or_not(driver.load(disk, path, &mut progress))?;
    let listed = match status {
        LoadStatus::Directory if list => {
            asked.push(format!("list {}", path));
            Some(driver.list(disk, path, &mut progress)?)
        }
        _ => None,
    };
    Ok((status, listed))
}

fn archive_of(entries: &[(&str, &[u8])]) -> Vec<u8> {
    let mut writer = ZipWriter::new(Cursor::new(Vec::new()));
    for (name, data) in entries {
        writer.start_file(*name, FileOptions::default()).unwrap();
        writer.write_all(data).unwrap();
    }
    writer.finish().unwrap().into_inner()
}

const MODULE: &[u8] = b"6beat module";

fn data_dir() -> Disk {
    let beat = archive_of(&[("foo/6beat.mod", MODULE)]);
    let a = archive_of(&[("beat.zip", &beat), ("foo/6beat.mod", b"outer".as_slice())]);
    Disk {
        entries: vec![
            ("/".to_string(), None),
            ("/data".to_string(), None),
            ("/data/test_dir".to_string(), None),
            ("/data/beat.zip".to_string(), Some(beat)),
            ("/data/a.zip".to_string(), Some(a)),
            ("/data/test_dir/plain".to_string(), Some(b"plain".to_vec())),
        ],
    }
}

fn read_done(msg: Option<RecvMsg>) -> Vec<u8> {
    match msg {
        Some(RecvMsg::ReadDone(data)) => data.into_vec(),
        other => panic!("{:?}", other),
    }
}

fn directory(msg: Option<RecvMsg>) -> FilesDirs {
    match msg {
        Some(RecvMsg::Directory(files_dirs)) => files_dirs,
        other => panic!("{:?}", other),
    }
}

#[test]
fn vfs_load_zip() {
    let mut vfs = new_vfs();
    let (msg, asked) = load_with(&mut vfs, &data_dir(), "/data/a.zip/beat.zip/foo/6beat.mod");
    assert_eq!(read_done(msg), MODULE);
    assert_eq!(
        asked,
        vec![
            "url 0 /data/a.zip/beat.zip/foo/6beat.mod",
            "url 1 /data/a.zip/beat.zip/foo/6beat.mod",
            "url 0 /data/a.zip/beat.zip/foo",
            "url 1 /data/a.zip/beat.zip/foo",
            "url 0 /data/a.zip/beat.zip",
            "url 1 /data/a.zip/beat.zip",
            "url 0 /data/a.zip",
            "load beat.zip/foo/6beat.mod",
            "load beat.zip/foo",
            "load beat.zip",
            "data 0",
            "load foo/6beat.mod",
        ]
    );
    assert_eq!(vfs.node_drivers.len(), 2);
    let chain: Vec<&str> = vfs.nodes.iter().map(|n| n.name.as_str()).collect();
    assert_eq!(chain, vec!["root", "/", "data", "a.zip", "beat.zip"]);
    assert_eq!(vfs.nodes[4].driver_index, 1);
}

#[test]
fn vfs_local_directory() {
    let (msg, _) = load_with(&mut new_vfs(), &data_dir(), "/data");
    let data = directory(msg);
    assert_eq!(data.files.len(), 2);
    assert_eq!(data.dirs.len(), 1);
    assert!(data.files.iter().any(|v| *v == "a.zip"));
    assert!(data.files.iter().any(|v| *v == "beat.zip"));
    assert!(data.dirs.iter().any(|v| *v == "test_dir"));
}

#[test]
fn vfs_zip_dir() {
    let mut vfs = new_vfs();
    let (msg, asked) = load_with(&mut vfs, &data_dir(), "/data/a.zip");
    let data = directory(msg);
    assert!(data.files.iter().any(|v| *v == "beat.zip"));
    assert!(data.dirs.iter().any(|v| *v == "foo"));
    assert_eq!(asked, vec!["url 0 /data/a.zip", "load ", "list "]);
    assert_eq!(vfs.nodes[3].node_type, evfs::NodeType::Directory);
}

#[test]
fn a_file_on_disk_is_loaded() {
    let (msg, asked) = load_with(&mut new_vfs(), &data_dir(), "/data/test_dir/plain");
    assert_eq!(read_done(msg), b"plain");
    assert_eq!(asked, vec!["url 0 /data/test_dir/plain", "url 1 /data/test_dir/plain", "load "]);
}

#[test]
fn what_no_driver_opens_is_the_data_itself() {
    // Below a file in an archive there is nothing, so the file is what is found
    let disk = data_dir();
    let (msg, asked) = load_with(&mut new_vfs(), &disk, "/data/a.zip/foo/6beat.mod/x/y");
    assert_eq!(read_done(msg), b"outer");
    assert_eq!(asked[asked.len() - 3..], ["load foo/6beat.mod", "data 0", "data 1"]);
}

#[test]
fn the_longest_part_is_mounted() {
    // What is missing on disk is looked for in the directory above, which does not have it
    let mut vfs = new_vfs();
    let (msg, asked) = load_with(&mut vfs, &data_dir(), "/data/none/x");
    assert!(msg.is_none());
    assert_eq!(
        asked,
        vec![
            "url 0 /data/none/x", "url 1 /data/none/x", "url 0 /data/none", "url 1 /data/none", "url 0 /data",
            "url 1 /data", "load none/x", "load none",
        ]
    );
    assert_eq!(vfs.nodes.len(), 3);
}

#[test]
fn an_archive_without_the_path_ends_without_a_message() {
    let (msg, asked) = load_with(&mut new_vfs(), &data_dir(), "/data/a.zip/no/file");
    assert!(msg.is_none());
    assert_eq!(asked[asked.len() - 2..], ["load no/file", "load no"]);
}

#[test]
fn an_unsupported_path_ends_without_a_message() {
    let mut vfs = new_vfs();
    let (msg, asked) = load_with(&mut vfs, &data_dir(), "http://host/x");
    assert!(msg.is_none());
    assert_eq!(asked.len(), 6);
    assert_eq!(asked[0], "url 0 http:/host/x");
    assert_eq!(asked[5], "url 1 http:");
    assert_eq!(vfs.nodes.len(), 1);
    let nothing = Disk { entries: vec![] };
    let (msg, asked) = load_with(&mut vfs, &nothing, "/");
    assert!(msg.is_none());
    assert_eq!(asked, vec!["url 0 /", "url 1 /"]);
}

#[test]
fn a_mounted_url_is_found_again() {
    let disk = data_dir();
    let mut vfs = new_vfs();
    load_with(&mut vfs, &disk, "/data/a.zip");
    assert_eq!(vfs.nodes[3].driver_index, 0);
    let mut loader = Loader::new("/data/a.zip");
    loader.find_node(&vfs);
    assert_eq!(loader.state, LoadState::LoadFromNode);
    assert_eq!((loader.node_index, loader.driver_index), (3, -1));
    loader.find_node_driver(&vfs);
    assert_eq!(loader.state, LoadState::LoadFromNode);
    assert_eq!((loader.base, loader.driver_index), (3, 0));
}

/// Loads a path twice, and gives what both loads ask.
fn load_twice(vfs: &mut VfsState<Driver>, disk: &Disk, path: &str) -> (Vec<String>, Vec<String>) {
    let (first, asked) = load_with(vfs, disk, path);
    let count = (vfs.nodes.len(), vfs.node_drivers.len());
    let (second, asked_again) = load_with(vfs, disk, path);
    assert_eq!(format!("{:?}", first), format!("{:?}", second), "{}", path);
    assert_eq!((vfs.nodes.len(), vfs.node_drivers.len()), count, "{}", path);
    (asked, asked_again)
}

#[test]
fn a_second_load_gives_what_the_first_gave() {
    let disk = data_dir();
    for path in [
        "/data",
        "/data/a.zip",
        "/data/a.zip/beat.zip",
        "/data/a.zip/beat.zip/foo/6beat.mod",
        "/data/a.zip/foo/6beat.mod",
        "/data/a.zip/foo/6beat.mod/x",
        "/data/a.zip/no/file",
        "/data/test_dir/plain",
        "/data/none",
        "http://host/x",
        "",
    ] {
        load_twice(&mut new_vfs(), &disk, path);
    }
    let mut vfs = new_vfs();
    let (asked, again) = load_twice(&mut vfs, &disk, "/data");
    assert_eq!(asked, vec!["url 0 /data", "url 1 /data", "load ", "list "]);
    assert_eq!(again, vec!["node 0 "]);
    let (_, again) = load_twice(&mut vfs, &disk, "/data/a.zip/beat.zip/foo/6beat.mod");
    assert_eq!(again, vec!["load foo/6beat.mod"]);
}

#[test]
fn earlier_loads_do_not_matter_but_for_archives_themselves() {
    let disk = data_dir();
    let paths = [
        "/data/a.zip/foo/6beat.mod",
        "/data/test_dir/plain",
        "/data/test_dir",
        "/data/a.zip/beat.zip/foo/6beat.mod",
        "/data/beat.zip/foo/6beat.mod",
        "/data/a.zip/foo/6beat.mod/x",
        "/data/none/x",
        "/data",
    ];
    for earlier in paths {
        for path in paths {
            let (fresh, _) = load_with(&mut new_vfs(), &disk, path);
            let mut vfs = new_vfs();
            load_with(&mut vfs, &disk, earlier);
            let (after, _) = load_with(&mut vfs, &disk, path);
            match (fresh, after) {
                // What was known before is listed first
                (Some(RecvMsg::Directory(mut a)), Some(RecvMsg::Directory(mut b))) => {
                    a.files.sort();
                    a.dirs.sort();
                    b.files.sort();
                    b.dirs.sort();
                    assert_eq!((a.files, a.dirs), (b.files, b.dirs), "{} {}", earlier, path);
                }
                (a, b) => assert_eq!(format!("{:?}", a), format!("{:?}", b), "{} {}", earlier, path),
            }
        }
    }
}

#[test]
fn a_file_that_is_known_is_loaded_as_it_is() {
    // An archive on disk is opened where its url is the first to be loaded. Once the
    // directory that it is in has been listed, it is a file of that directory.
    let disk = data_dir();
    let mut vfs = new_vfs();
    let fresh = directory(load_with(&mut new_vfs(), &disk, "/data/beat.zip").0);
    assert_eq!(fresh.dirs, vec!["foo"]);
    load_with(&mut vfs, &disk, "/data");
    let (msg, asked) = load_with(&mut vfs, &disk, "/data/beat.zip");
    assert_eq!(&read_done(msg)[..2], b"PK");
    assert_eq!(asked, vec!["node 0 beat.zip"]);
    // What is below it is found all the same
    let (msg, _) = load_with(&mut vfs, &disk, "/data/beat.zip/foo/6beat.mod");
    assert_eq!(read_done(msg), MODULE);
}

#[test]
fn without_a_driver_on_the_way_one_is_looked_for() {
    let disk = data_dir();
    let mut vfs = new_vfs();
    load_with(&mut vfs, &disk, "/data/a.zip");
    let (msg, asked) = load_with(&mut vfs, &disk, "/data/test_dir/plain");
    assert_eq!(read_done(msg), b"plain");
    assert_eq!(asked, vec!["url 0 /data/test_dir/plain", "url 1 /data/test_dir/plain", "load "]);
    // The nodes that were there are used again
    let names: Vec<&str> = vfs.nodes.iter().map(|n| n.name.as_str()).filter(|n| *n == "data").collect();
    assert_eq!(names, vec!["data"]);
}

#[test]
fn the_nearest_driver_is_asked_for_the_rest() {
    let disk = data_dir();
    let mut vfs = new_vfs();
    load_with(&mut vfs, &disk, "/data/a.zip");
    let (msg, asked) = load_with(&mut vfs, &disk, "/data/a.zip/foo/6beat.mod");
    assert_eq!(read_done(msg), b"outer");
    assert_eq!(asked, vec!["load foo/6beat.mod"]);
    let (msg, asked) = load_with(&mut vfs, &disk, "/data/a.zip/foo");
    assert!(matches!(msg, Some(RecvMsg::NotFound)));
    assert_eq!(asked, vec!["node 0 foo"]);
}

#[test]
fn listings_are_fetched_once_and_kept() {
    let disk = data_dir();
    let mut vfs = new_vfs();
    load_with(&mut vfs, &disk, "/data/a.zip/beat.zip/foo/6beat.mod");
    let (msg, asked) = load_with(&mut vfs, &disk, "/data/a.zip/beat.zip");
    assert_eq!(directory(msg).dirs, vec!["foo"]);
    assert_eq!(asked, vec!["node 1 ", "list "]);
    let (msg, asked) = load_with(&mut vfs, &disk, "/data/a.zip/beat.zip");
    assert_eq!(directory(msg).dirs, vec!["foo"]);
    assert_eq!(asked, vec!["node 1 "]);
    // A directory that is known from the listing of the one above
    load_with(&mut vfs, &disk, "/data");
    let (msg, asked) = load_with(&mut vfs, &disk, "/data/test_dir");
    assert_eq!(directory(msg).files, vec!["plain"]);
    assert_eq!(asked, vec!["node 2 test_dir", "list test_dir"]);
    // What was there before the listing is told as the listing has it
    let listed = directory(load_with(&mut vfs, &disk, "/data").0);
    assert_eq!(listed.files, vec!["a.zip", "beat.zip"]);
    assert_eq!(listed.dirs, vec!["test_dir"]);
}

#[test]
fn no_driver_to_try() {
    let disk = data_dir();
    let mut vfs: VfsState<Driver> = VfsState::new(vec![]);
    let (msg, asked) = load_with(&mut vfs, &disk, "/data/a.zip");
    assert!(msg.is_none());
    assert!(asked.is_empty());
    assert_eq!(vfs.nodes.len(), 1);
    let mut loader = Loader::new("/a");
    loader.find_node(&vfs);
    assert_eq!(loader.state, LoadState::FindDriverUrl);
    loader.find_driver_url(&mut vfs, None);
    assert_eq!((loader.state, loader.driver_index), (LoadState::UnsupportedPath, -1));
    let mut loader = Loader::new("a");
    loader.data = Some(Box::new([1, 2, 3]));
    loader.end = 0;
    loader.state = LoadState::FindDriverData;
    let msg = loader.find_driver_data(&mut vfs, None);
    assert_eq!(read_done(msg), vec![1, 2, 3]);
    assert_eq!((loader.state, loader.driver_index), (LoadState::Done, -1));
    assert_eq!((vfs.nodes.len(), vfs.node_drivers.len(), vfs.nodes[0].driver_index), (1, 0, -1));
}

#[test]
fn a_load_only_adds_to_the_tree() {
    let disk = data_dir();
    let mut vfs = new_vfs();
    for path in ["/data/a.zip/beat.zip/foo/6beat.mod", "/data", "/data/a.zip", "/data/test_dir", "/data/none/x"] {
        let before: Vec<(String, u32, Vec<u32>)> =
            vfs.nodes.iter().map(|n| (n.name.clone(), n.parent, n.nodes.clone())).collect();
        load_with(&mut vfs, &disk, path);
        assert!(before.len() <= vfs.nodes.len());
        for (old, new) in before.iter().zip(vfs.nodes.iter()) {
            assert_eq!((&old.0, old.1), (&new.name, new.parent));
            assert!(new.nodes.starts_with(&old.2));
        }
    }
}

#[test]
fn the_empty_path_is_the_root() {
    let (msg, asked) = load_with(&mut new_vfs(), &data_dir(), "");
    assert!(matches!(msg, Some(RecvMsg::NotFound)));
    assert!(asked.is_empty());
}

#[test]
fn an_added_path_is_found() {
    for path in ["/data/a.zip/x", "x", "", "/"] {
        let mut vfs = new_vfs();
        let components = evfs::path::components(path);
        let (at, count) = evfs::tree::add_path_to_vfs(&mut vfs, 0, -1, &components, 0, components.len());
        let mut loader = Loader::new(path);
        loader.find_node(&vfs);
        assert_eq!(loader.state, LoadState::LoadFromNode);
        assert_eq!((loader.node_index, loader.component_index), (at, count));
        assert_eq!(count, components.len());
    }
}

#[test]
fn dots_have_no_names() {
    let vfs = new_vfs();
    assert!(!Loader::new("../x").can_find_node(&vfs));
    assert!(!Loader::new("./x").can_find_node(&vfs));
    assert!(Loader::new("/x/../y").can_find_node(&vfs));
    let mut loader = Loader::new("/x/../y");
    loader.find_node(&vfs);
    assert_eq!(loader.state, LoadState::FindDriverUrl);
    assert!(!loader.can_add_candidate(&vfs));
    loader.end = 2;
    assert!(loader.can_add_candidate(&vfs));
    assert_eq!(loader.candidate(), "/x");
}

#[test]
fn errors_of_reading_are_reported() {
    let stored = FileOptions::default().compression_method(zip::CompressionMethod::Stored);
    let mut writer = ZipWriter::new(Cursor::new(Vec::new()));
    writer.start_file("a", stored).unwrap();
    writer.write_all(b"some content").unwrap();
    let mut bytes = writer.finish().unwrap().into_inner();
    let at = bytes.windows(4).position(|w| w == b"some").unwrap();
    bytes[at] = b'S';
    let disk = Disk { entries: vec![("/b.zip".to_string(), Some(bytes))] };
    let (msg, _) = load_with(&mut new_vfs(), &disk, "/b.zip/a");
    assert!(matches!(msg, Some(RecvMsg::Error(_))));
}
