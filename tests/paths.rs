use h2kv::path_stem;
use h2kv::paths::{add_extension_to, extension_of, file_name_of, file_stem_of};

#[test]
fn test_path_stem() {
    let path = "/foo/bar/baz.foy.txt";
    assert_eq!(path_stem(path), "/foo/bar/baz");
}

#[test]
fn path_parts() {
    assert_eq!(extension_of("/a/b.tar.gz"), Some("gz"));
    assert_eq!(extension_of("/a/.hidden"), None);
    assert_eq!(extension_of("/a.b/c"), None);
    assert_eq!(file_name_of("/a/b.txt"), "b.txt");
    assert_eq!(file_stem_of("/a/b.tar.gz"), "b.tar");
    assert_eq!(path_stem("/a/.hidden.txt"), "/a/.hidden");
    assert_eq!(path_stem("/"), "/");
    assert_eq!(add_extension_to("/x", "txt"), "/x.txt");
    assert_eq!(add_extension_to("/", "txt"), "/");
    assert_eq!(path_stem("/a.b/"), "/a");
    assert_eq!(path_stem("/a/"), "/a");
    assert_eq!(file_name_of("/a/b/"), "b");
    assert_eq!(extension_of("/a/b.txt//"), Some("txt"));
    assert_eq!(add_extension_to("/a/", "txt"), "/a.txt");
    assert_eq!(path_stem(&path_stem("/x/y.tar.gz")), path_stem("/x/y.tar.gz"));
    assert_eq!(path_stem(&add_extension_to("/x/y", "json")), path_stem("/x/y"));
}
