use kernel_core::path::{Path, rsplit_file_at_dot, split_file_at_dot, str_eq};
use kernel_core::pathbuf::PathBuf;
use kernel_core::components::Component;

fn comps_of(s: &str) -> Vec<String> {
    let p = Path::new(s);
    let mut c = p.components();
    let mut out = Vec::new();
    while let Some(x) = c.next() {
        out.push(match x {
            Component::RootDir => "/".to_string(),
            Component::CurDir => ".".to_string(),
            Component::ParentDir => "..".to_string(),
            Component::Normal(n) => n.to_string(),
        });
    }
    out
}

#[test]
fn components_forward() {
    assert_eq!(comps_of("/a//b/./c/../d/"), vec!["/", "a", "b", "c", "..", "d"]);
    assert_eq!(comps_of("."), vec!["."]);
    assert_eq!(comps_of("./x"), vec![".", "x"]);
    assert_eq!(comps_of(""), Vec::<String>::new());
    assert_eq!(comps_of("/"), vec!["/"]);
    assert_eq!(comps_of(".."), vec![".."]);
}

#[test]
fn components_backward() {
    let p = Path::new("/a/b");
    let mut c = p.components();
    assert!(matches!(c.next_back(), Some(Component::Normal("b"))));
    assert!(matches!(c.next_back(), Some(Component::Normal("a"))));
    assert!(matches!(c.next_back(), Some(Component::RootDir)));
    assert!(c.next_back().is_none());
}

#[test]
fn parent_and_file_name() {
    let p = Path::new("/a//b/./c/../d/");
    assert_eq!(p.parent().unwrap().as_str(), "/a//b/./c/..");
    assert_eq!(p.file_name(), Some("d"));
    assert_eq!(Path::new("/").parent().map(|q| q.as_str().to_string()), None);
    assert_eq!(Path::new("a").parent().unwrap().as_str(), "");
    assert_eq!(Path::new("/a").file_name(), Some("a"));
    assert_eq!(Path::new("/a/..").file_name(), None);
}

#[test]
fn as_path_round_trip() {
    // the normalized form of an absolute path is stable
    for s in ["/", "/a", "/a/b", "/a//b/c"] {
        let p = Path::new(s);
        assert_eq!(p.components().as_path().as_str(), s);
    }
    // a trailing separator is the kind of input the identity excludes
    assert_eq!(Path::new("/a/").components().as_path().as_str(), "/a");
}

#[test]
fn pathbuf_round_trip() {
    for s in ["", "/", "/a/b", "a/b/c"] {
        assert_eq!(PathBuf::from(s).as_path().as_str(), s);
    }
}

#[test]
fn join_and_strip_prefix() {
    let a = Path::new("/usr");
    let joined = a.join(Path::new("lib"));
    assert_eq!(joined.as_str(), "/usr/lib");
    let j = joined.as_path();
    let rest = j.strip_prefix(Path::new("/usr")).unwrap();
    assert_eq!(rest.as_str(), "lib");
    // an absolute path replaces
    assert_eq!(Path::new("a").join(Path::new("/b")).as_str(), "/b");
    assert!(Path::new("/x/y").strip_prefix(Path::new("/z")).is_err());
}

#[test]
fn starts_and_ends_with() {
    assert!(Path::new("/a/b/c").starts_with(Path::new("/a/b")));
    assert!(!Path::new("/a/b/c").starts_with(Path::new("/b")));
    assert!(Path::new("/a/b/c").ends_with(Path::new("b/c")));
    assert!(!Path::new("/a/b/c").ends_with(Path::new("a")));
}

#[test]
fn stem_and_extension() {
    let p = Path::new("/tmp/archive.tar.gz");
    assert_eq!(p.file_stem(), Some("archive.tar"));
    assert_eq!(p.extension(), Some("gz"));
    assert_eq!(p.file_prefix(), Some("archive"));
    assert_eq!(Path::new(".bashrc").file_stem(), Some(".bashrc"));
    assert_eq!(Path::new(".bashrc").extension(), None);
    assert_eq!(rsplit_file_at_dot("a.b"), (Some("a"), Some("b")));
    assert_eq!(rsplit_file_at_dot(".."), (Some(".."), None));
    assert_eq!(rsplit_file_at_dot("plain"), (None, Some("plain")));
    assert_eq!(split_file_at_dot("a.b.c"), ("a", Some("b.c")));
}

#[test]
fn with_extension_law() {
    // with_extension(stem, e).extension() == Some(e) for nonempty plain e
    for (p, e) in [("a", "txt"), ("/x/y.bin", "gz"), ("dir/file.a", "b")] {
        let out = Path::new(p).with_extension(e);
        assert_eq!(out.as_path().extension(), Some(e));
    }
    assert_eq!(Path::new("a.b").with_extension("").as_str(), "a");
}

#[test]
fn set_file_name_and_pop() {
    let mut pb = PathBuf::from("/a/b");
    pb.set_file_name("c.txt");
    assert_eq!(pb.as_str(), "/a/c.txt");
    assert!(pb.pop());
    assert_eq!(pb.as_str(), "/a");
    let mut root = PathBuf::from("/");
    assert!(!root.pop());
    assert_eq!(root.as_str(), "/");
}

#[test]
fn push_rules() {
    let mut pb = PathBuf::from("a");
    pb.push(Path::new("b"));
    assert_eq!(pb.as_str(), "a/b");
    let mut pb2 = PathBuf::from("a/");
    pb2.push(Path::new("b"));
    assert_eq!(pb2.as_str(), "a/b");
    let mut pb3 = PathBuf::new();
    pb3.push(Path::new("b"));
    assert_eq!(pb3.as_str(), "b");
}

#[test]
fn ancestors_walk() {
    let p = Path::new("/a/b");
    let mut anc = p.ancestors();
    assert_eq!(anc.next().unwrap().as_str(), "/a/b");
    assert_eq!(anc.next().unwrap().as_str(), "/a");
    assert_eq!(anc.next().unwrap().as_str(), "/");
    assert!(anc.next().is_none());
}

#[test]
fn str_eq_behaves() {
    assert!(str_eq("abc", "abc"));
    assert!(!str_eq("abc", "abd"));
    assert!(!str_eq("abc", "ab"));
}
