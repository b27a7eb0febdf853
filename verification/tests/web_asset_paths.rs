use remote_inspector::web_asset::WebAssetReader;

#[test]
fn make_http_uri() {
    assert_eq!(
        WebAssetReader::Http
            .make_uri("s3.johanhelsing.studio/dump/favicon.png")
            .as_str(),
        "http://s3.johanhelsing.studio/dump/favicon.png"
    );
}

#[test]
fn make_https_uri() {
    assert_eq!(
        WebAssetReader::Https
            .make_uri("s3.johanhelsing.studio/dump/favicon.png")
            .as_str(),
        "https://s3.johanhelsing.studio/dump/favicon.png"
    );
}

#[test]
fn make_http_meta_uri() {
    assert_eq!(
        WebAssetReader::Http
            .make_meta_uri("s3.johanhelsing.studio/dump/favicon.png")
            .expect("cannot create meta uri")
            .as_str(),
        "http://s3.johanhelsing.studio/dump/favicon.png.meta"
    );
}

#[test]
fn make_https_meta_uri() {
    assert_eq!(
        WebAssetReader::Https
            .make_meta_uri("s3.johanhelsing.studio/dump/favicon.png")
            .expect("cannot create meta uri")
            .as_str(),
        "https://s3.johanhelsing.studio/dump/favicon.png.meta"
    );
}

#[test]
fn make_https_without_extension_meta_uri() {
    assert_eq!(
        WebAssetReader::Https.make_meta_uri("s3.johanhelsing.studio/dump/favicon"),
        None
    );
}

#[test]
fn meta_uri_ignores_dots_in_directories() {
    assert_eq!(WebAssetReader::Http.make_meta_uri("a.b/c"), None);
    assert_eq!(
        WebAssetReader::Http
            .make_meta_uri("a.b/c.txt")
            .expect("cannot create meta uri")
            .as_str(),
        "http://a.b/c.txt.meta"
    );
}

#[test]
fn meta_uri_needs_a_real_extension_dot() {
    assert_eq!(WebAssetReader::Http.make_meta_uri("dir/.hidden"), None);
    assert_eq!(WebAssetReader::Http.make_meta_uri(""), None);
}

#[test]
fn meta_uri_skips_parent_dir_components() {
    // a path ending in `..` names a directory, not a file
    assert_eq!(WebAssetReader::Http.make_meta_uri(".."), None);
    assert_eq!(WebAssetReader::Http.make_meta_uri("a/.."), None);
    // but a file name that merely ends in dots still has an extension slot
    assert_eq!(
        WebAssetReader::Http
            .make_meta_uri("a/b..")
            .expect("cannot create meta uri")
            .as_str(),
        "http://a/b...meta"
    );
}
