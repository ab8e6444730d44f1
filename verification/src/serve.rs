use vstd::prelude::*;
use vstd::string::StrSliceExecFns;
use crate::image_hash::{text_contains, contains_text};

verus! {

/// What `percent_encoding` makes of a text: every `%` and two hexadecimal
/// digits decoded to a byte, the bytes read as UTF-8 with invalid sequences
/// replaced.
pub uninterp spec fn percent_decoded(s: Seq<char>) -> Seq<char>;

/// `percent_encoding::percent_decode_str(s).decode_utf8_lossy()`: the
/// decoded text, which is the text itself when it holds no `%`.
#[verifier::external_body]
fn percent_decode_lossy(s: &str) -> (r: String)
    ensures
        r@ == percent_decoded(s@),
        (forall|i: int| 0 <= i < s@.len() ==> s@[i] != '%') ==> r@ == s@,
{
    percent_encoding::percent_decode_str(s).decode_utf8_lossy().into_owned()
}

/// The MIME type `mime_guess` gives a path by its extension.
pub uninterp spec fn mime_type_of(path: Seq<char>) -> Seq<char>;

/// `mime_guess::from_path(path).first_or_octet_stream()`, as text: the first
/// MIME type known for the path's extension, or `application/octet-stream`.
#[verifier::external_body]
fn guess_mime(path: &str) -> (r: String)
    ensures
        r@ == mime_type_of(path@),
{
    mime_guess::from_path(path).first_or_octet_stream().to_string()
}

/// A request path that may not be served.
#[derive(Debug, Clone, Copy, PartialEq, Eq, Structural)]
pub enum ServeError {
    /// The path names a parent directory (`..`).
    InvalidPath,
}

/// The part of a URL before its query.
pub open spec fn before_query(url: Seq<char>) -> Seq<char> {
    if exists|i: int| 0 <= i < url.len() && url[i] == '?' {
        url.take(choose|i: int| 0 <= i < url.len() && url[i] == '?' && forall|j: int| 0 <= j < i ==> url[j] != '?')
    } else {
        url
    }
}

/// The file path a request URL asks for, relative to the served folder: the
/// path part of the URL, percent-decoded, without one leading `/`; refused
/// when it holds `..`.
pub open spec fn request_target_of(url: Seq<char>) -> Result<Seq<char>, ServeError> {
    let d = percent_decoded(before_query(url));
    let t = if d.len() > 0 && d[0] == '/' {
        d.skip(1)
    } else {
        d
    };
    if text_contains(t, ".."@) {
        Err(ServeError::InvalidPath)
    } else {
        Ok(t)
    }
}

fn query_start(url: &str) -> (r: usize)
    ensures
        r <= url@.len(),
        url@.take(r as int) == before_query(url@),
{
    let n = url.unicode_len();
    let mut i: usize = 0;
    while i < n
        invariant
            i <= n,
            n == url@.len(),
            forall|j: int| 0 <= j < i ==> url@[j] != '?',
        decreases n - i,
    {
        if url.get_char(i) == '?' {
            proof {
                let k = choose|k: int| 0 <= k < url@.len() && url@[k] == '?' && forall|j: int| 0 <= j < k ==> url@[j] != '?';
                if k < i {
                } else if k > i {
                    assert(url@[i as int] == '?');
                }
                assert(k == i);
            }
            return i;
        }
        i = i + 1;
    }
    assert(url@.take(n as int) =~= url@);
    n
}

/// The file path a request URL asks for (see `request_target_of`).
pub fn request_target(url: &str) -> (r: Result<String, ServeError>)
    ensures
        match request_target_of(url@) {
            Ok(t) => (r matches Ok(s) && s@ == t),
            Err(e) => r == Err::<String, ServeError>(e),
        },
{
    let q = query_start(url);
    let path = url.substring_char(0, q);
    let d = percent_decode_lossy(path);
    let n = d.as_str().unicode_len();
    let t = if n > 0 && d.as_str().get_char(0) == '/' {
        d.as_str().substring_char(1, n)
    } else {
        d.as_str()
    };
    proof {
        reveal_strlit("..");
    }
    if contains_text(t, "..") {
        Err(ServeError::InvalidPath)
    } else {
        Ok(t.to_string())
    }
}

/// How a request for an existing or missing file is answered.
#[derive(Debug)]
pub enum Reply {
    /// A status code and its plain-text body.
    Status(u16, String),
    /// The file at the path, with its content type.
    File(String, String),
}

/// How a request is answered, given what the path names: a folder is
/// answered by its `index.html` when there is one and refused otherwise; a
/// path that is not a file is not found.
pub open spec fn reply_of(
    path: Seq<char>,
    is_dir: bool,
    index_path: Seq<char>,
    index_exists: bool,
    index_is_file: bool,
    is_file: bool,
) -> (u16, Seq<char>, Option<Seq<char>>) {
    if is_dir && !index_exists {
        (403, "403 Forbidden\n"@, None)
    } else {
        let (p, f) = if is_dir {
            (index_path, index_is_file)
        } else {
            (path, is_file)
        };
        if !f {
            (404, "404 Not Found\n"@, None)
        } else {
            (200, p, Some(mime_type_of(p)))
        }
    }
}

/// How a request for `path` is answered (see `reply_of`): `index_path` is
/// the `index.html` inside it.
pub fn reply_for(
    path: &str,
    is_dir: bool,
    index_path: &str,
    index_exists: bool,
    index_is_file: bool,
    is_file: bool,
) -> (r: Reply)
    ensures
        ({
            let (code, text, mime) = reply_of(path@, is_dir, index_path@, index_exists, index_is_file, is_file);
            match r {
                Reply::Status(c, body) => c == code && body@ == text && mime is None,
                Reply::File(p, m) => code == 200 && p@ == text && mime == Some(m@),
            }
        }),
{
    if is_dir && !index_exists {
        return Reply::Status(403, String::from_str("403 Forbidden\n"));
    }
    let (p, f) = if is_dir {
        (index_path, index_is_file)
    } else {
        (path, is_file)
    };
    if !f {
        Reply::Status(404, String::from_str("404 Not Found\n"))
    } else {
        Reply::File(p.to_string(), guess_mime(p))
    }
}

} // verus!
