//! Asset paths as URLs.
//!
//! Asset paths are fetched over the web: a relative path turns into an
//! `http://` or `https://` URL, and its metadata sits next to it under the
//! same name with `.meta` appended.

use vstd::prelude::*;
use vstd::string::StrSliceExecFns;
use vstd::string::StringExecFns;

verus! {

/// Treats asset paths as URLs to load them from.
pub enum WebAssetReader {
    /// Unencrypted connections.
    Http,
    /// Use TLS for setting up connections.
    Https,
}

/// Whether the path's final component is exactly `..`, which names a parent
/// directory and therefore no file at all.
pub open spec fn ends_in_parent_dir(path: Seq<char>) -> bool {
    &&& path.len() >= 2
    &&& path[path.len() - 1] == '.'
    &&& path[path.len() - 2] == '.'
    &&& (path.len() == 2 || path[path.len() - 3] == '/')
}

/// Whether the final component of `path` carries an extension: a `.` that
/// neither starts the path nor immediately follows a `/`, with no `/` after
/// it — unless the component is `..`, which names no file.
pub open spec fn has_extension(path: Seq<char>) -> bool {
    &&& !ends_in_parent_dir(path)
    &&& exists|d: int|
        #![trigger path[d]]
        1 <= d < path.len() && path[d] == '.' && path[d - 1] != '/' && (forall|k: int|
            d < k < path.len() ==> #[trigger] path[k] != '/')
}

impl WebAssetReader {
    /// The scheme prefix this reader puts in front of every path.
    pub open spec fn spec_prefix(self) -> Seq<char> {
        match self {
            WebAssetReader::Http => "http://"@,
            WebAssetReader::Https => "https://"@,
        }
    }

    /// The URL an asset path is fetched from.
    pub fn make_uri(&self, path: &str) -> (uri: String)
        ensures
            uri@ == self.spec_prefix() + path@,
    {
        let prefix = match self {
            WebAssetReader::Http => "http://",
            WebAssetReader::Https => "https://",
        };
        String::from_str(prefix).concat(path)
    }

    /// The URL of an asset's metadata: the asset URL with `.meta` appended,
    /// or nothing when the path has no extension to attach it to.
    pub fn make_meta_uri(&self, path: &str) -> (r: Option<String>)
        ensures
            match r {
                Some(uri) => has_extension(path@) && uri@ == self.spec_prefix() + path@
                    + ".meta"@,
                None => !has_extension(path@),
            },
    {
        let n = path.unicode_len();
        let mut candidate = false;
        let mut i: usize = 0;
        let mut previous: char = '/';
        while i < n
            invariant
                n == path@.len(),
                i <= n,
                i >= 1 ==> previous == path@[i - 1],
                candidate == exists|d: int|
                    #![trigger path@[d]]
                    1 <= d < i && path@[d] == '.' && path@[d - 1] != '/' && (forall|k: int|
                        d < k < i ==> #[trigger] path@[k] != '/'),
            decreases n - i,
        {
            let c = path.get_char(i);
            let ghost pre_candidate = candidate;
            if c == '.' {
                if i >= 1 && previous != '/' {
                    candidate = true;
                    proof {
                        let ghost d0 = i as int;
                        assert(1 <= d0 && d0 < i + 1 && path@[d0] == '.' && path@[d0 - 1] != '/'
                            && (forall|k: int| d0 < k < i + 1 ==> path@[k] != '/'));
                    }
                }
            } else if c == '/' {
                candidate = false;
                proof {
                    assert forall|d: int|
                        !(1 <= d < i + 1 && #[trigger] path@[d] == '.' && path@[d - 1] != '/' && (
                        forall|k: int| d < k < i + 1 ==> #[trigger] path@[k] != '/')) by {
                        if 1 <= d < i + 1 && path@[d] == '.' {
                            assert(path@[i as int] == '/');
                        }
                    }
                }
            }
            proof {
                if candidate && c != '.' && c != '/' {
                    let d = choose|d: int|
                        #![trigger path@[d]]
                        1 <= d < i && path@[d] == '.' && path@[d - 1] != '/' && (forall|k: int|
                            d < k < i ==> #[trigger] path@[k] != '/');
                    assert(forall|k: int| d < k < i + 1 ==> #[trigger] path@[k] != '/');
                }
                if !candidate && c != '/' {
                    assert forall|d: int|
                        !(1 <= d < i + 1 && #[trigger] path@[d] == '.' && path@[d - 1] != '/' && (
                        forall|k: int| d < k < i + 1 ==> #[trigger] path@[k] != '/')) by {
                        if 1 <= d < i && path@[d] == '.' && path@[d - 1] != '/' {
                            if forall|k: int| d < k < i + 1 ==> #[trigger] path@[k] != '/' {
                                assert(!pre_candidate);
                                assert(1 <= d < i && path@[d] == '.' && path@[d - 1] != '/' && (
                                forall|k: int| d < k < i ==> #[trigger] path@[k] != '/'));
                            }
                        }
                        if d == i as int {
                            assert(path@[d] == c);
                            if c == '.' {
                                assert(i == 0 || path@[d - 1] == '/');
                            }
                        }
                    }
                }
            }
            previous = c;
            i = i + 1;
        }
        let parent_dir = n >= 2 && path.get_char(n - 1) == '.' && path.get_char(n - 2) == '.'
            && (n == 2 || path.get_char(n - 3) == '/');
        proof {
            assert(parent_dir == ends_in_parent_dir(path@));
        }
        if candidate && !parent_dir {
            let uri = self.make_uri(path);
            Some(uri.concat(".meta"))
        } else {
            None
        }
    }
}

} // verus!
