//! Asking the wallpaper service: the address of a search, and the name
//! under which a fetched picture is saved.

use crate::config::Config;
use crate::text::{texts, trim_text, trimmed};
use vstd::prelude::*;
use vstd::string::{StrSliceExecFns, StringExecFns};
use vstd::utf8::encode_utf8;

verus! {

/// How the program names itself to the service.
pub const USER_AGENT: &'static str =
    "Mozilla/5.0 (Macintosh; Intel Mac OS X 10_15_7) AppleWebKit/537.36 (KHTML, like Gecko) Chrome/144.0.0.0 Safari/537.36";

/// The name under which a picture is saved when its address gives none.
pub const FALLBACK_NAME: &'static str = "wallhaven_random.jpg";

/// A byte that stands for itself in an address: a letter, a digit, or one of
/// `-`, `.`, `_`, `~`.
pub open spec fn is_unreserved(b: u8) -> bool {
    ||| 0x30 <= b <= 0x39
    ||| 0x41 <= b <= 0x5a
    ||| 0x61 <= b <= 0x7a
    ||| b == 0x2d
    ||| b == 0x2e
    ||| b == 0x5f
    ||| b == 0x7e
}

/// The upper-case hexadecimal digit for `v`, for `v` below sixteen.
pub open spec fn upper_hex_digit(v: nat) -> char
    recommends
        v < 16,
{
    if v < 10 {
        (v + '0' as nat) as char
    } else {
        (v - 10 + 'A' as nat) as char
    }
}

/// Percent-encoding: an unreserved byte stands for itself, every other byte
/// becomes `%` and its two upper-case hexadecimal digits.
pub open spec fn percent_encoded(bytes: Seq<u8>) -> Seq<char>
    decreases bytes.len(),
{
    if bytes.len() == 0 {
        Seq::empty()
    } else {
        let b = bytes.last();
        percent_encoded(bytes.drop_last()) + if is_unreserved(b) {
            seq![b as char]
        } else {
            seq!['%', upper_hex_digit((b / 16) as nat), upper_hex_digit((b % 16) as nat)]
        }
    }
}

/// Calls `urlencoding::encode` on `text`. Believed: the result is the
/// percent-encoding of the text's UTF-8 bytes, in which letters, digits and
/// `-`, `.`, `_`, `~` stand for themselves and every other byte is written as
/// `%` and two upper-case hexadecimal digits.
#[verifier::external_body]
fn percent_encode(text: &str) -> (r: String)
    ensures
        r@ == percent_encoded(encode_utf8(text@)),
{
    urlencoding::encode(text).into_owned()
}

/// The address of a search for one random picture.
pub open spec fn search_url_of(api_key: Seq<char>, categories: Seq<char>, purity: Seq<char>) -> Seq<
    char,
> {
    "https://wallhaven.cc/api/v1/search?apikey="@ + percent_encoded(encode_utf8(trimmed(api_key)))
        + "&categories="@ + percent_encoded(encode_utf8(trimmed(categories))) + "&purity="@
        + percent_encoded(encode_utf8(trimmed(purity)))
        + "&atleast=3840x2160&ratios=landscape&sorting=random"@
}

/// The address that is asked for one random picture: the key, the categories
/// and the purity of the settings, each without the white space around it
/// and percent-encoded.
pub fn search_url(cfg: &Config) -> (url: String)
    ensures
        url@ == search_url_of(
            cfg.wallhaven_api_key@,
            cfg.wallhaven_categories@,
            cfg.wallhaven_purity@,
        ),
{
    let api_key = trim_text(cfg.wallhaven_api_key.as_str());
    let categories = trim_text(cfg.wallhaven_categories.as_str());
    let purity = trim_text(cfg.wallhaven_purity.as_str());
    let mut url = String::from_str("https://wallhaven.cc/api/v1/search?apikey=");
    url.append(percent_encode(api_key.as_str()).as_str());
    url.append("&categories=");
    url.append(percent_encode(categories.as_str()).as_str());
    url.append("&purity=");
    url.append(percent_encode(purity.as_str()).as_str());
    url.append("&atleast=3840x2160&ratios=landscape&sorting=random");
    url
}

/// The segments of the path of an address, as the address parser gives
/// them; none where the text is no address or the address has no path of
/// segments.
pub uninterp spec fn url_path_segments(url: Seq<char>) -> Option<Seq<Seq<char>>>;

/// The texts of an optional list of strings.
pub open spec fn texts_of(list: Option<Vec<String>>) -> Option<Seq<Seq<char>>> {
    match list {
        Some(v) => Some(texts(v@)),
        None => None,
    }
}

/// The text of an optional string.
pub open spec fn text_of(s: Option<String>) -> Option<Seq<char>> {
    match s {
        Some(t) => Some(t@),
        None => None,
    }
}

/// Calls `url::Url::parse` on `url` and `Url::path_segments` on the address
/// that it gives, and copies the segments out. Believed: the segments are a
/// function of the text alone, named `url_path_segments`.
#[verifier::external_body]
fn path_segments(url: &str) -> (r: Option<Vec<String>>)
    ensures
        texts_of(r) == url_path_segments(url@),
{
    let parsed = url::Url::parse(url).ok()?;
    let segments = parsed.path_segments()?;
    Some(segments.map(|s| s.to_string()).collect())
}

/// The file name that the segments of a path give: the last segment, unless
/// it is empty or there is none.
pub open spec fn file_name_of(segments: Option<Seq<Seq<char>>>) -> Option<Seq<char>> {
    match segments {
        Some(list) => if list.len() > 0 && list.last().len() > 0 {
            Some(list.last())
        } else {
            None
        },
        None => None,
    }
}

/// The file name that the segments of a path give.
pub fn usable_name(segments: Option<Vec<String>>) -> (name: Option<String>)
    ensures
        text_of(name) == file_name_of(texts_of(segments)),
{
    match segments {
        Some(mut list) => match list.pop() {
            Some(last) => {
                if last.as_str().unicode_len() > 0 {
                    Some(last)
                } else {
                    None
                }
            },
            None => None,
        },
        None => None,
    }
}

/// The file name in an address: the last segment of its path, if it has one
/// that is not empty.
pub fn file_name_from_url(url: &str) -> (name: Option<String>)
    ensures
        text_of(name) == file_name_of(url_path_segments(url@)),
{
    usable_name(path_segments(url))
}

/// The name under which the picture at `url` is saved: the file name in the
/// address, or a fixed name where the address gives none.
pub fn download_name(url: &str) -> (name: String)
    ensures
        name@ == match file_name_of(url_path_segments(url@)) {
            Some(s) => s,
            None => "wallhaven_random.jpg"@,
        },
{
    match file_name_from_url(url) {
        Some(name) => name,
        None => String::from_str(FALLBACK_NAME),
    }
}

} // verus!
