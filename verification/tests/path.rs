use erofs_rs::path::{path_parts, PathPart};

/// The parts, with `/` for the root directory.
fn parts(path: &str) -> Vec<String> {
    path_parts(path.as_bytes())
        .iter()
        .map(|p| match p {
            PathPart::RootDir => "/".to_string(),
            PathPart::CurDir => ".".to_string(),
            PathPart::ParentDir => "..".to_string(),
            PathPart::Normal(name) => String::from_utf8(name.clone()).unwrap(),
        })
        .collect()
}

#[test]
fn paths_are_taken_apart() {
    let cases: [(&str, &[&str]); 20] = [
        ("", &[]),
        ("/", &["/"]),
        ("//", &["/"]),
        (".", &[]),
        ("./", &[]),
        ("..", &[]),
        ("/..", &["/"]),
        ("a", &["a"]),
        ("/a", &["/", "a"]),
        ("a/", &["a"]),
        ("/a/b", &["/", "a", "b"]),
        ("/a//b/", &["/", "a", "b"]),
        ("/a/./b", &["/", "a", "b"]),
        ("./a", &["a"]),
        ("/a/../b", &["/", "b"]),
        ("/a/b/../../c", &["/", "c"]),
        ("a/../../b", &["b"]),
        ("/.hidden/..x/...", &["/", ".hidden", "..x", "..."]),
        ("/a/..", &["/"]),
        ("a/..", &[]),
    ];
    for (path, expected) in cases {
        assert_eq!(parts(path), expected, "{:?}", path);
    }
}

/// The parts as they are defined: what stands between two `/`, one after the other.
fn expected(path: &str) -> Vec<String> {
    let mut all: Vec<String> = Vec::new();
    if path.starts_with('/') {
        all.push("/".to_string());
    }
    for segment in path.split('/') {
        match segment {
            "" | "." => {}
            ".." => {
                if all.last().is_some_and(|p| p != "/") {
                    all.pop();
                }
            }
            name => all.push(name.to_string()),
        }
    }
    all
}

#[test]
fn all_short_paths_are_taken_apart() {
    let letters = ['/', '.', 'a'];
    for length in 0..8u32 {
        for number in 0..3usize.pow(length) {
            let mut n = number;
            let mut path = String::new();
            for _ in 0..length {
                path.push(letters[n % 3]);
                n /= 3;
            }
            assert_eq!(parts(&path), expected(&path), "{:?}", path);
        }
    }
}

#[test]
fn a_name_adds_one_part() {
    for dir in ["", "/", ".", "..", "/a", "/a/", "a/..", "./a", "//a//b/./"] {
        let path = if dir.is_empty() || dir.ends_with('/') {
            format!("{}name", dir)
        } else {
            format!("{}/name", dir)
        };
        let mut longer = parts(dir);
        longer.push("name".to_string());
        assert_eq!(parts(&path), longer);
    }
}

#[test]
fn parts_have_their_bytes() {
    assert_eq!(PathPart::RootDir.to_bytes(), b"/");
    assert_eq!(PathPart::CurDir.to_bytes(), b".");
    assert_eq!(PathPart::ParentDir.to_bytes(), b"..");
    assert_eq!(PathPart::Normal(b"n\xff".to_vec()).to_bytes(), b"n\xff");
    assert!(PathPart::RootDir.is_root() && !PathPart::CurDir.is_root());
}
