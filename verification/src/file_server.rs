//! Static files: where a request path leads under the document root, and
//! the response for a file that was read or not found.

use vstd::prelude::*;

use std::sync::Arc;

use crate::config::Config;
use crate::http::{new_response, text_response, with_body_file, with_header, FileData, HttpResponse};
use crate::headers::lookup;
use crate::text::{chars_of, decimal, push_all, push_text, slice_of, string_from};

verus! {

/// `s` without its leading slashes.
pub open spec fn trim_leading_slashes(s: Seq<char>) -> Seq<char>
    decreases s.len(),
{
    if s.len() > 0 && s[0] == '/' {
        trim_leading_slashes(s.drop_first())
    } else {
        s
    }
}

/// The relative file that a request path names: the path without leading
/// slashes, or `index.html` when nothing is left.
pub open spec fn requested_file(path: Seq<char>) -> Seq<char> {
    let clean = trim_leading_slashes(path);
    if clean.len() == 0 {
        "index.html"@
    } else {
        clean
    }
}

/// `base` extended by the relative path `rel`, with a slash between them
/// unless `base` is empty or already ends with one (as `PathBuf::push` does
/// for a relative path on Unix).
pub open spec fn joined_path(base: Seq<char>, rel: Seq<char>) -> Seq<char> {
    if base.len() > 0 && base.last() != '/' {
        base + seq!['/'] + rel
    } else {
        base + rel
    }
}

/// The file path served for a request path under `root`, given whether the
/// joined path starts with `root` component by component.
pub open spec fn served_path(root: Seq<char>, request_path: Seq<char>, within_root: bool) -> Seq<
    char,
> {
    if within_root {
        joined_path(root, requested_file(request_path))
    } else {
        joined_path(root, "index.html"@)
    }
}

/// Whether `path` starts with `base` by whole components, as
/// `std::path::Path::starts_with` decides.
pub uninterp spec fn path_starts_with(path: Seq<char>, base: Seq<char>) -> bool;

/// The MIME type that `mime_guess::from_path(path).first_or_octet_stream()`
/// guesses from the path's extension, as text.
pub uninterp spec fn guessed_mime(path: Seq<char>) -> Seq<char>;

/// `std::path::Path::starts_with`: the answer is named `path_starts_with`;
/// the component rules are not stated here.
#[verifier::external_body]
fn path_has_prefix(path: &str, base: &str) -> (r: bool)
    ensures
        r == path_starts_with(path@, base@),
{
    std::path::Path::new(path).starts_with(base)
}

/// `mime_guess::from_path(path).first_or_octet_stream()` as text: the result
/// is named `guessed_mime`; the extension table is not stated here.
#[verifier::external_body]
fn mime_for_path(path: &str) -> (r: String)
    ensures
        r@ == guessed_mime(path@),
{
    mime_guess::from_path(path).first_or_octet_stream().to_string()
}

/// The response for a file: `404` when it could not be read; otherwise
/// `200` with the file as body, or for a `HEAD` request only its `Content-Type`.
pub open spec fn file_response_view(
    head: bool,
    contents: Option<Seq<u8>>,
    mime: Seq<char>,
) -> crate::http::ResponseView {
    match contents {
        None => text_response(404, "404 not found"@),
        Some(data) => if head {
            with_header(new_response(200), "Content-Type"@, mime)
        } else {
            with_body_file(new_response(200), data, mime)
        },
    }
}

/// Serves files from the configured document root.
pub struct FileServer {
    config: Arc<Config>,
}

impl FileServer {
    /// The configuration the server reads its root from.
    pub closed spec fn config(&self) -> Config {
        *self.config
    }

    /// A file server for this configuration.
    pub fn new(config: Arc<Config>) -> (s: Self)
        ensures
            s.config() == *config,
    {
        FileServer { config }
    }

    /// `root` joined with `rel`.
    fn join(root: &Vec<char>, rel: &Vec<char>) -> (p: String)
        ensures
            p@ == joined_path(root@, rel@),
    {
        let mut p = string_from(root);
        let n = root.len();
        if n > 0 && root[n - 1] != '/' {
            push_text(&mut p, "/");
            proof {
                reveal_strlit("/");
            }
        }
        push_all(&mut p, rel);
        p
    }

    /// The path to serve: the joined path when it lies within the root,
    /// else the root's `index.html`.
    pub fn confine_path(&self, request_path: &str, within_root: bool) -> (p: String)
        ensures
            p@ == served_path(self.config().root@, request_path@, within_root),
    {
        let root = chars_of(self.config.root.as_str());
        if within_root {
            let path = chars_of(request_path);
            let mut i: usize = 0;
            assert(path@.skip(0) =~= path@);
            while i < path.len() && path[i] == '/'
                invariant
                    i <= path.len(),
                    trim_leading_slashes(path@) == trim_leading_slashes(path@.skip(i as int)),
                decreases path.len() - i,
            {
                assert(path@.skip(i as int).drop_first() =~= path@.skip(i + 1));
                i = i + 1;
            }
            let clean = slice_of(&path, i, path.len());
            assert(clean@ =~= path@.skip(i as int));
            if clean.len() == 0 {
                let index = chars_of("index.html");
                Self::join(&root, &index)
            } else {
                Self::join(&root, &clean)
            }
        } else {
            let index = chars_of("index.html");
            Self::join(&root, &index)
        }
    }

    /// The file path under the root that a request path leads to.
    pub fn resolve_path(&self, request_path: &str) -> (p: String)
        ensures
            p@ == served_path(
                self.config().root@,
                request_path@,
                path_starts_with(
                    joined_path(self.config().root@, requested_file(request_path@)),
                    self.config().root@,
                ),
            ),
    {
        let joined = self.confine_path(request_path, true);
        let within = path_has_prefix(joined.as_str(), self.config.root.as_str());
        if within {
            joined
        } else {
            self.confine_path(request_path, false)
        }
    }

    /// The response for a file whose MIME type is `mime`, given its contents
    /// (`None` when it could not be read).
    pub fn response_for(head: bool, contents: Option<Vec<u8>>, mime: String) -> (r: HttpResponse)
        ensures
            r@ == file_response_view(
                head,
                match contents {
                    Some(d) => Some(d@),
                    None => None,
                },
                mime@,
            ),
    {
        match contents {
            None => HttpResponse::not_found(),
            Some(data) => {
                let mut response = HttpResponse::ok();
                if !head {
                    response.set_body_file(FileData { data, mime_type: mime });
                } else {
                    response.insert_header("Content-Type".to_owned(), mime);
                }
                response
            },
        }
    }

    /// The response for the file at `file_path`, given its contents (`None`
    /// when it could not be read); the MIME type is guessed from the path.
    pub fn file_response(file_path: &str, head: bool, contents: Option<Vec<u8>>) -> (r: HttpResponse)
        ensures
            r@ == file_response_view(
                head,
                match contents {
                    Some(d) => Some(d@),
                    None => None,
                },
                guessed_mime(file_path@),
            ),
    {
        let mime = mime_for_path(file_path);
        Self::response_for(head, contents, mime)
    }
}


/// The served path always begins with the document root.
pub proof fn lemma_served_under_root(root: Seq<char>, request_path: Seq<char>, within_root: bool)
    ensures
        crate::text::has_prefix(served_path(root, request_path, within_root), root),
{
    let p = served_path(root, request_path, within_root);
    assert(p.subrange(0, root.len() as int) =~= root);
}

/// A file that was read is served whole: for `GET` the response is `200`
/// with exactly the file's bytes as its body, `Content-Length` their number
/// in decimal and `Content-Type` the MIME type; for `HEAD` it is `200` with
/// the `Content-Type` and no body; a file that could not be read gets `404`.
pub proof fn lemma_file_served_whole(data: Seq<u8>, mime: Seq<char>)
    ensures
        file_response_view(false, Some(data), mime).status_code == 200,
        file_response_view(false, Some(data), mime).body == Some(
            crate::http::BodyView::File(data, mime),
        ),
        lookup(file_response_view(false, Some(data), mime).headers, "Content-Length"@) == Some(
            decimal(data.len()),
        ),
        lookup(file_response_view(false, Some(data), mime).headers, "Content-Type"@) == Some(mime),
        file_response_view(true, Some(data), mime).status_code == 200,
        file_response_view(true, Some(data), mime).body is None,
        lookup(file_response_view(true, Some(data), mime).headers, "Content-Type"@) == Some(mime),
        file_response_view(false, None, mime).status_code == 404,
        file_response_view(true, None, mime).status_code == 404,
{
    crate::http::lemma_body_file_headers(new_response(200), data, mime);
    crate::headers::lemma_lookup_after_insert(
        crate::http::base_headers(),
        "Content-Type"@,
        mime,
    );
}

} // verus!
