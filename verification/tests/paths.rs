use evfs::path;
use evfs::Component;
use std::path::Path;
use std::path::PathBuf;

/// A component as text that shows its kind.
fn shown(component: &Component) -> String {
    match component {
        Component::Prefix(t) => format!("prefix {}", t),
        Component::RootDir => "root".to_string(),
        Component::CurDir => "cur".to_string(),
        Component::ParentDir => "parent".to_string(),
        Component::Normal(t) => format!("normal {}", t),
    }
}

fn shown_std(component: &std::path::Component) -> String {
    match component {
        std::path::Component::Prefix(_) => "prefix".to_string(),
        std::path::Component::RootDir => "root".to_string(),
        std::path::Component::CurDir => "cur".to_string(),
        std::path::Component::ParentDir => "parent".to_string(),
        std::path::Component::Normal(t) => format!("normal {}", t.to_string_lossy()),
    }
}

const PATHS: [&str; 22] = [
    "", "/", "//", ".", "..", "./", "./a", "a/.", "a/./b", "a//b", "/a/b/", "/a/../b", "../a", "/.", "/..",
    "/./a", "...", "a/...", "ftp://dir/foo.zip/test/bar.mod", "c:/x", "a b/ c", "ß/\u{1f600}",
];

#[test]
fn components_are_those_of_unix_paths() {
    for p in PATHS {
        let ours: Vec<String> = path::components(p).iter().map(shown).collect();
        let theirs: Vec<String> = Path::new(p).components().map(|c| shown_std(&c)).collect();
        assert_eq!(ours, theirs, "{:?}", p);
    }
    let ours: Vec<String> = path::components("/data/./a.zip//foo").iter().map(shown).collect();
    assert_eq!(ours, vec!["root", "normal data", "normal a.zip", "normal foo"]);
}

#[test]
fn components_make_up_paths() {
    for p in PATHS {
        let components = path::components(p);
        for to in 0..components.len() + 1 {
            for from in 0..to + 1 {
                let theirs: PathBuf = Path::new(p).components().skip(from).take(to - from).collect();
                assert_eq!(
                    path::path_of(&components, from, to),
                    theirs.to_string_lossy(),
                    "{:?} {} {}", p, from, to
                );
            }
        }
    }
    let components = path::components("ftp://dir/foo.zip/test/bar.mod");
    assert_eq!(path::path_of(&components, 0, components.len()), "ftp:/dir/foo.zip/test/bar.mod");
    assert_eq!(path::path_of(&components, 0, 3), "ftp:/dir/foo.zip");
    assert_eq!(path::path_of(&components, 3, 5), "test/bar.mod");
}

#[test]
fn components_of_a_written_path_are_the_same() {
    for p in PATHS {
        let components = path::components(p);
        let written = path::path_of(&components, 0, components.len());
        let ours: Vec<String> = components.iter().map(shown).collect();
        let again: Vec<String> = path::components(&written).iter().map(shown).collect();
        assert_eq!(ours, again, "{:?}", p);
    }
}

#[test]
fn joining_is_that_of_path_buf() {
    let parts = ["", "/", "a", "a/", "/a", "a/b", "..", "ß"];
    for base in parts {
        for tail in parts {
            assert_eq!(
                path::join(base, tail),
                Path::new(base).join(tail).to_string_lossy(),
                "{:?} {:?}", base, tail
            );
        }
    }
    assert_eq!(path::join("/data", "foo"), "/data/foo");
    assert_eq!(path::join("/data", ""), "/data/");
    assert_eq!(path::join("/data", "/x"), "/x");
}

#[test]
fn names_of_components() {
    let mut had_prefix = false;
    assert_eq!(path::get_component_name(&Component::RootDir, &mut had_prefix), "/");
    assert!(!had_prefix);
    assert_eq!(path::get_component_name(&Component::Normal("a".to_string()), &mut had_prefix), "a");
    assert!(!had_prefix);
    assert_eq!(path::get_component_name(&Component::Prefix("c:".to_string()), &mut had_prefix), "c:");
    assert!(had_prefix);
    assert_eq!(path::get_component_name(&Component::RootDir, &mut had_prefix), "");
    assert!(had_prefix);
}
