//! Content-type classification for served files.  A file's type decides
//! whether its body may contain directive script blocks and what
//! `Content-Type` header it is served with.
use vstd::prelude::*;
use vstd::string::StringSliceAdditionalSpecFns;

verus! {

/// The media types the server distinguishes when serving files.
#[derive(Debug)]
pub enum ContentType {
    Plain,
    Html,
    Css,
    Markdown,
    Pdf,
    Binary,
    Unknown,
    Svg,
}

/// The byte value of `.`, which separates a filename from its extension.
pub const DOT: u8 = 46;

/// The bytes of a filename after its last `.`, or the whole name when it
/// holds no `.` at all.
pub open spec fn extension_of(name: Seq<u8>) -> Seq<u8> {
    if exists|i: int| 0 <= i < name.len() && name[i] == DOT {
        let last = choose|i: int|
            0 <= i < name.len() && name[i] == DOT && (forall|j: int|
                i < j < name.len() ==> name[j] != DOT);
        name.subrange(last + 1, name.len() as int)
    } else {
        name
    }
}

/// Which content type a filename extension selects.
pub open spec fn content_type_of(ext: Seq<u8>) -> ContentType {
    if ext == seq![104u8, 116u8, 109u8, 108u8] {  // `html`
        ContentType::Html
    } else if ext == seq![112u8, 100u8, 102u8] {  // `pdf`
        ContentType::Pdf
    } else if ext == seq![116u8, 120u8, 116u8] {  // `txt`
        ContentType::Plain
    } else if ext == seq![115u8, 118u8, 103u8] {  // `svg`
        ContentType::Svg
    } else if ext == seq![99u8, 115u8, 115u8] {  // `css`
        ContentType::Css
    } else {
        ContentType::Unknown
    }
}

impl ContentType {
    /// Whether a file of this type may hold directive script blocks and must
    /// therefore be assembled before it is served.
    pub fn may_contain_scripts(&self) -> (r: bool)
        ensures
            r == (self is Html || self is Markdown),
    {
        match self {
            Self::Html | Self::Markdown => true,
            _ => false,
        }
    }

    /// The value served in the `Content-Type` header for this type.
    pub fn as_str(&self) -> (r: &'static str)
        ensures
            self is Plain ==> r@ == "text/plain"@,
            self is Html ==> r@ == "text/html"@,
            self is Css ==> r@ == "text/css"@,
            self is Markdown ==> r@ == "text/markdown"@,
            self is Pdf ==> r@ == "application/pdf"@,
            self is Svg ==> r@ == "image/svg+xml"@,
            self is Binary || self is Unknown ==> r@ == "application/octet-stream"@,
    {
        match self {
            Self::Plain => "text/plain",
            Self::Html => "text/html",
            Self::Css => "text/css",
            Self::Markdown => "text/markdown",
            Self::Pdf => "application/pdf",
            Self::Svg => "image/svg+xml",
            Self::Binary => "application/octet-stream",
            Self::Unknown => "application/octet-stream",
        }
    }
}

impl ContentType {
    /// Classifies a filename by the bytes after its last `.`, or by the
    /// whole name when it holds none.
    pub fn from_filename(filename: &str) -> (r: ContentType)
        ensures
            r == content_type_of(extension_of(filename.spec_bytes())),
    {
        let bytes = filename.as_bytes();
        let n = bytes.len();
        let mut dot: usize = n;
        let mut p: usize = 0;
        while p < n
            invariant
                p <= n,
                n == bytes@.len(),
                dot == n || (dot < p && bytes@[dot as int] == DOT),
                forall|q: int| dot < q < p && q < n ==> bytes@[q] != DOT,
                dot == n ==> forall|q: int| 0 <= q < p ==> bytes@[q] != DOT,
            decreases n - p,
        {
            if bytes[p] == DOT {
                dot = p;
            }
            p = p + 1;
        }
        let start: usize = if dot == n {
            0
        } else {
            dot + 1
        };
        proof {
            let s = bytes@;
            if dot == n {
                assert(!(exists|i: int| 0 <= i < s.len() && s[i] == DOT));
                assert(extension_of(s) == s);
            } else {
                assert(s[dot as int] == DOT);
                let last = choose|i: int|
                    0 <= i < s.len() && s[i] == DOT && (forall|j: int|
                        i < j < s.len() ==> s[j] != DOT);
                assert(0 <= last < s.len() && s[last] == DOT && (forall|j: int|
                    last < j < s.len() ==> s[j] != DOT)) by {
                    assert(s[dot as int] == DOT && (forall|j: int|
                        dot < j < s.len() ==> s[j] != DOT));
                }
                assert(last == dot as int);
                assert(extension_of(s) == s.subrange(dot + 1, s.len() as int));
            }
        }
        let m = n - start;
        let ghost ext = extension_of(bytes@);
        proof {
            assert(ext =~= bytes@.subrange(start as int, n as int));
        }
        if m == 4 && bytes[start] == 104 && bytes[start + 1] == 116 && bytes[start + 2] == 109
            && bytes[start + 3] == 108 {
            proof {
                assert(ext =~= seq![104u8, 116u8, 109u8, 108u8]);
            }
            ContentType::Html
        } else if m == 3 && bytes[start] == 112 && bytes[start + 1] == 100 && bytes[start + 2]
            == 102 {
            proof {
                assert(ext =~= seq![112u8, 100u8, 102u8]);
            }
            ContentType::Pdf
        } else if m == 3 && bytes[start] == 116 && bytes[start + 1] == 120 && bytes[start + 2]
            == 116 {
            proof {
                assert(ext =~= seq![116u8, 120u8, 116u8]);
            }
            ContentType::Plain
        } else if m == 3 && bytes[start] == 115 && bytes[start + 1] == 118 && bytes[start + 2]
            == 103 {
            proof {
                assert(ext =~= seq![115u8, 118u8, 103u8]);
            }
            ContentType::Svg
        } else if m == 3 && bytes[start] == 99 && bytes[start + 1] == 115 && bytes[start + 2]
            == 115 {
            proof {
                assert(ext =~= seq![99u8, 115u8, 115u8]);
            }
            ContentType::Css
        } else {
            proof {
                assert(ext != seq![104u8, 116u8, 109u8, 108u8] && ext != seq![
                    112u8,
                    100u8,
                    102u8,
                ] && ext != seq![116u8, 120u8, 116u8] && ext != seq![115u8, 118u8, 103u8] && ext
                    != seq![99u8, 115u8, 115u8]) by {
                    assert(ext.len() == m);
                    if m == 4 {
                        assert(ext[0] == bytes@[start as int]);
                        assert(ext[1] == bytes@[start + 1]);
                        assert(ext[2] == bytes@[start + 2]);
                        assert(ext[3] == bytes@[start + 3]);
                    }
                    if m == 3 {
                        assert(ext[0] == bytes@[start as int]);
                        assert(ext[1] == bytes@[start + 1]);
                        assert(ext[2] == bytes@[start + 2]);
                    }
                }
            }
            ContentType::Unknown
        }
    }
}

/// One file as read from the web root: its bytes and the content type its
/// name selects.
pub struct File {
    pub contents: Vec<u8>,
    pub content_type: ContentType,
}

impl File {
    /// A file with the type that its filename's extension selects.
    pub fn new(contents: Vec<u8>, filename: &str) -> (r: File)
        ensures
            r.contents@ == contents@,
            r.content_type == content_type_of(extension_of(filename.spec_bytes())),
    {
        File { contents, content_type: ContentType::from_filename(filename) }
    }

    /// Whether this file's type admits directive script blocks, so that the
    /// file must be assembled before it is served.
    pub fn may_contain_scripts(&self) -> (r: bool)
        ensures
            r == (self.content_type is Html || self.content_type is Markdown),
    {
        self.content_type.may_contain_scripts()
    }
}

} // verus!
