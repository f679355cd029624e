//! Settings and the places on disk that follow from the home directory.

use crate::text::{decimal, push_decimal};
use vstd::prelude::*;
use vstd::string::{StrSliceExecFns, StringExecFns};

verus! {

/// The user's settings.
#[derive(Debug, Clone)]
pub struct Config {
    pub folders: Vec<String>,
    pub wallhaven_api_key: String,
    pub wallhaven_categories: String,
    pub wallhaven_purity: String,
    pub wallhaven_resolution: String,
    pub copy_to_tmp: bool,
}

/// `base` extended by `part`: a part that starts at the root replaces the
/// base; otherwise one separator stands between the two unless the base is
/// empty or already ends in one.
pub open spec fn joined(base: Seq<char>, part: Seq<char>) -> Seq<char> {
    if part.len() > 0 && part[0] == '/' {
        part
    } else if base.len() == 0 || base.last() == '/' {
        base + part
    } else {
        base + seq!['/'] + part
    }
}

/// Extends the path `base` by `part`.
pub fn join_path(base: &str, part: &str) -> (p: String)
    ensures
        p@ == joined(base@, part@),
{
    proof {
        reveal_strlit("/");
    }
    let part_len = part.unicode_len();
    if part_len > 0 && part.get_char(0) == '/' {
        return String::from_str(part);
    }
    let base_len = base.unicode_len();
    let mut p = String::from_str(base);
    if base_len > 0 && base.get_char(base_len - 1) != '/' {
        p.append("/");
    }
    p.append(part);
    assert(p@ =~= joined(base@, part@));
    p
}

/// The home directory, or the working directory where none is known.
pub fn home_or_here(home: Option<String>) -> (h: String)
    ensures
        h@ == match home {
            Some(dir) => dir@,
            None => "."@,
        },
{
    match home {
        Some(dir) => dir,
        None => String::from_str("."),
    }
}

pub open spec fn config_dir_of(home: Seq<char>) -> Seq<char> {
    joined(joined(home, ".config"@), "wallpicker"@)
}

/// Where the settings live, below the home directory.
pub fn config_dir(home: &str) -> (p: String)
    ensures
        p@ == config_dir_of(home@),
{
    let dot = join_path(home, ".config");
    join_path(dot.as_str(), "wallpicker")
}

/// The settings file.
pub fn config_file_path(home: &str) -> (p: String)
    ensures
        p@ == joined(config_dir_of(home@), "config.json"@),
{
    let dir = config_dir(home);
    join_path(dir.as_str(), "config.json")
}

/// The directory that holds the cached thumbnails.
pub fn cache_dir(home: &str) -> (p: String)
    ensures
        p@ == joined(config_dir_of(home@), "cache"@),
{
    let dir = config_dir(home);
    join_path(dir.as_str(), "cache")
}

/// The folder that is scanned when the settings name none.
pub fn default_wallpapers(home: &str) -> (p: String)
    ensures
        p@ == joined(home@, "Pictures"@),
{
    join_path(home, "Pictures")
}

/// Where a fetched wallpaper is saved: the first configured folder, or the
/// default folder when none is configured.
pub fn save_wallpaper_path(cfg: &Config, home: &str) -> (p: String)
    ensures
        p@ == if cfg.folders@.len() > 0 {
            cfg.folders@[0]@
        } else {
            joined(home@, "Pictures"@)
        },
{
    if cfg.folders.len() > 0 {
        cfg.folders[0].clone()
    } else {
        default_wallpapers(home)
    }
}

/// The resolution asked of the wallpaper service: that of the primary
/// screen, width `x` height, or 1920x1080 when the screen is unknown.
pub fn default_wallhaven_resolution(screen: Option<(u64, u64)>) -> (r: String)
    ensures
        r@ == match screen {
            Some((w, h)) => decimal(w as nat) + "x"@ + decimal(h as nat),
            None => "1920x1080"@,
        },
{
    match screen {
        Some((w, h)) => {
            let mut r = String::new();
            push_decimal(&mut r, w as u128);
            r.append("x");
            push_decimal(&mut r, h as u128);
            assert(r@ =~= decimal(w as nat) + "x"@ + decimal(h as nat));
            r
        },
        None => String::from_str("1920x1080"),
    }
}

impl Config {
    /// The settings of a first start.
    pub fn default_for(home: &str, screen: Option<(u64, u64)>) -> (cfg: Config)
        ensures
            cfg.folders@.len() == 1,
            cfg.folders@[0]@ == joined(home@, "Pictures"@),
            cfg.wallhaven_api_key@ == Seq::<char>::empty(),
            cfg.wallhaven_purity@ == "100"@,
            cfg.wallhaven_categories@ == "111"@,
            cfg.wallhaven_resolution@ == match screen {
                Some((w, h)) => decimal(w as nat) + "x"@ + decimal(h as nat),
                None => "1920x1080"@,
            },
            !cfg.copy_to_tmp,
    {
        let mut folders: Vec<String> = Vec::new();
        folders.push(default_wallpapers(home));
        Config {
            folders,
            wallhaven_api_key: String::new(),
            wallhaven_purity: String::from_str("100"),
            wallhaven_categories: String::from_str("111"),
            wallhaven_resolution: default_wallhaven_resolution(screen),
            copy_to_tmp: false,
        }
    }
}

} // verus!
