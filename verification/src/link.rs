//! Terminal hyperlinks (OSC 8) from file names to `file://` URLs.

use vstd::prelude::*;
use crate::text::push_str;

verus! {

/// The text of `url::Url::from_file_path` on a path, when it gives a URL.
pub uninterp spec fn file_url_text(path: Seq<char>) -> Option<Seq<char>>;

/// The `file://` URL of an absolute path.
///
/// Trusted: wraps `url::Url::from_file_path`, whose result depends on the
/// path alone. Stated: the result is the named one, and a URL it returns
/// starts with `file://`. The percent-encoding of the path's components,
/// and the rules on which paths it accepts (on Unix: exactly the absolute
/// ones), are not restated.
#[verifier::external_body]
fn file_url(path: &str) -> (r: Option<String>)
    ensures
        match r {
            Some(u) => file_url_text(path@) == Some(u@) && u@.len() >= 7 && u@.take(7) == "file://"@,
            None => file_url_text(path@) is None,
        },
{
    url::Url::from_file_path(path).ok().map(|u| u.to_string())
}

/// `text` as an OSC 8 hyperlink to `url`.
pub open spec fn link_text(url: Seq<char>, text: Seq<char>) -> Seq<char> {
    "\x1B]8;;"@ + url + "\x07"@ + text + "\x1B]8;;\x07"@
}

/// Wraps `text` in the OSC 8 escape sequences that make it a hyperlink
/// to `url` in terminals that support them.
pub fn hyperlink(url: &str, text: &str) -> (r: String)
    ensures r@ == link_text(url@, text@),
{
    let mut out = String::new();
    push_str(&mut out, "\x1B]8;;");
    push_str(&mut out, url);
    push_str(&mut out, "\x07");
    push_str(&mut out, text);
    push_str(&mut out, "\x1B]8;;\x07");
    assert(out@ =~= link_text(url@, text@));
    out
}

/// A displayed name linked to the file at `abs_path` (an absolute,
/// canonical path): the name wrapped in a hyperlink to the path's
/// `file://` URL, or the name unchanged when the path has no URL.
pub fn linked_name(abs_path: &str, text: &str) -> (r: String)
    ensures
        r@ == match file_url_text(abs_path@) {
            Some(u) => link_text(u, text@),
            None => text@,
        },
{
    match file_url(abs_path) {
        Some(u) => {
            let r = hyperlink(u.as_str(), text);
            assert(r@ == link_text(u@, text@));
            r
        }
        None => {
            let mut out = String::new();
            push_str(&mut out, text);
            out
        }
    }
}

} // verus!
