use wallpicker::cli::{parse_args, ArgError, Mode};
use wallpicker::config::{
    cache_dir, config_dir, config_file_path, default_wallhaven_resolution, default_wallpapers,
    home_or_here, join_path, save_wallpaper_path, Config,
};
use wallpicker::launch::{preview_deleted, wallpaper_command};
use wallpicker::layout::suggested_columns;
use wallpicker::scanner::{first_occurrences, is_image_path, newest_first};
use wallpicker::wallhaven::{download_name, file_name_from_url, search_url, usable_name};
use wallpicker::wallpaper::find_random_wallpaper;

fn strings(list: &[&str]) -> Vec<String> {
    list.iter().map(|s| s.to_string()).collect()
}

#[test]
fn paths_below_the_home_directory() {
    assert_eq!(config_dir("/home/u"), "/home/u/.config/wallpicker");
    assert_eq!(config_file_path("/home/u"), "/home/u/.config/wallpicker/config.json");
    assert_eq!(cache_dir("/home/u"), "/home/u/.config/wallpicker/cache");
    assert_eq!(default_wallpapers("/home/u"), "/home/u/Pictures");
    assert_eq!(config_dir("."), "./.config/wallpicker");
    assert_eq!(home_or_here(None), ".");
    assert_eq!(home_or_here(Some("/root".to_string())), "/root");
}

#[test]
fn joining_as_the_standard_library_joins() {
    let cases = [
        ("/home/u", ".config"),
        ("/home/u/", ".config"),
        ("", "a"),
        ("/", "a"),
        (".", "a/b"),
        ("/a", "/b"),
        ("a", ""),
        ("", ""),
        ("rel", "x.png"),
    ];
    for (base, part) in cases {
        let std_joined = std::path::Path::new(base).join(part);
        assert_eq!(join_path(base, part), std_joined.to_string_lossy(), "{:?} {:?}", base, part);
    }
}

#[test]
fn settings_of_a_first_start() {
    let cfg = Config::default_for("/home/u", Some((2560, 1440)));
    assert_eq!(cfg.folders, vec!["/home/u/Pictures".to_string()]);
    assert_eq!(cfg.wallhaven_api_key, "");
    assert_eq!(cfg.wallhaven_purity, "100");
    assert_eq!(cfg.wallhaven_categories, "111");
    assert_eq!(cfg.wallhaven_resolution, "2560x1440");
    assert!(!cfg.copy_to_tmp);
    assert_eq!(Config::default_for("/home/u", None).wallhaven_resolution, "1920x1080");
    assert_eq!(default_wallhaven_resolution(Some((0, 7))), "0x7");
}

#[test]
fn where_a_fetched_wallpaper_is_saved() {
    let mut cfg = Config::default_for("/home/u", None);
    cfg.folders = strings(&["/walls", "/more"]);
    assert_eq!(save_wallpaper_path(&cfg, "/home/u"), "/walls");
    cfg.folders = Vec::new();
    assert_eq!(save_wallpaper_path(&cfg, "/home/u"), "/home/u/Pictures");
}

#[test]
fn modes_of_the_command_line() {
    assert!(matches!(parse_args(&strings(&[])), Ok(Mode::Ui)));
    assert!(matches!(parse_args(&strings(&["--random"])), Ok(Mode::Random)));
    assert!(matches!(parse_args(&strings(&["--clean"])), Ok(Mode::Clean)));
    assert!(matches!(parse_args(&strings(&["--generate"])), Ok(Mode::Generate)));
    assert!(matches!(parse_args(&strings(&["--dedupe"])), Ok(Mode::Dedupe)));
    assert!(
        matches!(parse_args(&strings(&["--preview", "/a.png"])), Ok(Mode::Preview(ref p)) if p == "/a.png")
    );
    assert!(
        matches!(parse_args(&strings(&["--preview", "--clean"])), Ok(Mode::Preview(ref p)) if p == "--clean")
    );
}

#[test]
fn faults_of_the_command_line() {
    assert!(matches!(parse_args(&strings(&["--preview"])), Err(ArgError::MissingPreviewValue)));
    assert!(matches!(parse_args(&strings(&["--help"])), Err(ArgError::Help)));
    assert!(matches!(parse_args(&strings(&["-h"])), Err(ArgError::Help)));
    assert!(matches!(parse_args(&strings(&["--clean", "-h"])), Err(ArgError::Help)));
    assert!(matches!(parse_args(&strings(&["--clean", "--random"])), Err(ArgError::SeveralModes)));
    assert!(matches!(parse_args(&strings(&["--clean", "--clean"])), Err(ArgError::SeveralModes)));
    assert!(
        matches!(parse_args(&strings(&["--clean", "--preview", "x"])), Err(ArgError::SeveralModes))
    );
    assert!(
        matches!(parse_args(&strings(&["--clean", "--preview"])), Err(ArgError::MissingPreviewValue))
    );
    assert!(matches!(parse_args(&strings(&["--frob"])), Err(ArgError::Unknown(ref a)) if a == "--frob"));
    assert!(
        matches!(parse_args(&strings(&["--clean", "x", "--help"])), Err(ArgError::Unknown(ref a)) if a == "x")
    );
}

#[test]
fn what_the_user_is_told_of_a_fault() {
    assert_eq!(ArgError::MissingPreviewValue.message(), "Missing value after --preview");
    assert_eq!(ArgError::Unknown("--x".to_string()).message(), "Unknown argument: --x");
    assert_eq!(
        ArgError::Help.message(),
        "Usage:\n  wallpicker [--preview <path> | --random | --clean | --generate | --dedupe]\n"
    );
    assert_eq!(
        ArgError::SeveralModes.message(),
        "Only one mode can be specified (e.g. use exactly one of --preview/--random/--clean/--generate)"
    );
}

#[test]
fn the_viewer_says_deleted_with_status_ten() {
    assert!(preview_deleted(Some(10)));
    assert!(!preview_deleted(Some(0)));
    assert!(!preview_deleted(Some(1)));
    assert!(!preview_deleted(Some(-10)));
    assert!(!preview_deleted(None));
}

#[test]
fn commands_that_set_the_desktop_picture() {
    let c = wallpaper_command("/walls/a b.png", false);
    assert_eq!(c.program, "swww");
    assert_eq!(
        c.args,
        strings(&["img", "/walls/a b.png", "--transition-type", "outer", "--transition-fps", "60"])
    );
    let c = wallpaper_command("/walls/a.png", true);
    assert_eq!(c.program, "osascript");
    assert_eq!(
        c.args,
        strings(&[
            "-e",
            "tell application \"Finder\" to set desktop picture to POSIX file \"/walls/a.png\""
        ])
    );
}

#[test]
fn columns_of_the_grid() {
    assert_eq!(suggested_columns(0), 1);
    assert_eq!(suggested_columns(199), 1);
    assert_eq!(suggested_columns(200), 1);
    assert_eq!(suggested_columns(399), 1);
    assert_eq!(suggested_columns(400), 2);
    assert_eq!(suggested_columns(1536), 7);
    assert_eq!(suggested_columns(2147483647), 10737418);
    assert_eq!(suggested_columns(2147483648), 1);
    assert_eq!(suggested_columns(u32::MAX), 1);
}

#[test]
fn columns_as_signed_arithmetic_gives_them() {
    for w in [0u32, 1, 200, 201, 1000, 65535, 2147483647, 2147483648, 4000000000, u32::MAX] {
        let total = w.max(1) as i32;
        let cols = (total / 200).max(1) as usize;
        assert_eq!(suggested_columns(w), cols, "{}", w);
    }
}

#[test]
fn which_files_are_images() {
    for yes in ["/p/a.png", "/p/a.PNG", "a.jpg", "/p/a.JpEg", "/p/x.y.webp", "..png", "/p/a..jpeg"] {
        assert!(is_image_path(yes), "{:?}", yes);
    }
    for no in ["/p/.png", ".jpg", "/p/a.gif", "/p/apng", "/p/a.png.bak", "", "png", "/p/a.jpe", "/p.png/a"] {
        assert!(!is_image_path(no), "{:?}", no);
    }
}

#[test]
fn images_as_the_standard_library_sees_extensions() {
    let paths = [
        "/p/a.png", "/p/.png", "/p/a.", "/p/a", "/p/a.WEBP", "/p/a.b.jpg", "/p.jpg/a", "/p/a.jpeg",
        "rel.JPG", ".webp", "/p/..jpg", "/p/a.png.txt", "/p/a.tiff",
    ];
    for path in paths {
        let expected = match std::path::Path::new(path).extension().and_then(|s| s.to_str()) {
            Some(ext) => {
                let ext = ext.to_lowercase();
                ext == "png" || ext == "jpg" || ext == "jpeg" || ext == "webp"
            }
            None => false,
        };
        assert_eq!(is_image_path(path), expected, "{:?}", path);
    }
}

#[test]
fn a_path_is_kept_where_it_first_occurs() {
    let paths = strings(&["/a", "/b", "/a", "/c", "/b", "/a"]);
    assert_eq!(first_occurrences(&paths), vec![0, 1, 3]);
    assert_eq!(first_occurrences(&Vec::new()), Vec::<usize>::new());
}

#[test]
fn newest_files_come_first() {
    assert_eq!(newest_first(&vec![5, 9, 3]), vec![1, 0, 2]);
    assert_eq!(newest_first(&vec![1, 2, 2, 1, 3, 2]), vec![4, 1, 2, 5, 0, 3]);
    assert_eq!(newest_first(&Vec::new()), Vec::<usize>::new());
    assert_eq!(newest_first(&vec![-1, 0, -1]), vec![1, 0, 2]);
}

#[test]
fn newest_first_is_a_stable_sort() {
    let times: Vec<i128> = vec![3, 1, 4, 1, 5, 9, 2, 6, 5, 3, 5, 8, 9, 7, 9];
    let mut expected: Vec<usize> = (0..times.len()).collect();
    expected.sort_by(|a, b| times[*b].cmp(&times[*a]));
    assert_eq!(newest_first(&times), expected);
}

#[test]
fn the_address_of_a_search() {
    let mut cfg = Config::default_for("/home/u", None);
    cfg.wallhaven_api_key = "  k e/y+1~ \n".to_string();
    cfg.wallhaven_categories = "111".to_string();
    cfg.wallhaven_purity = " 1\u{e9}0".to_string();
    assert_eq!(
        search_url(&cfg),
        "https://wallhaven.cc/api/v1/search?apikey=k%20e%2Fy%2B1~&categories=111&purity=1%C3%A90&atleast=3840x2160&ratios=landscape&sorting=random"
    );
    cfg.wallhaven_api_key = String::new();
    cfg.wallhaven_purity = "100".to_string();
    assert_eq!(
        search_url(&cfg),
        "https://wallhaven.cc/api/v1/search?apikey=&categories=111&purity=100&atleast=3840x2160&ratios=landscape&sorting=random"
    );
}

#[test]
fn the_file_name_in_an_address() {
    assert_eq!(
        file_name_from_url("https://w.wallhaven.cc/full/ab/wallhaven-ab12cd.jpg"),
        Some("wallhaven-ab12cd.jpg".to_string())
    );
    assert_eq!(file_name_from_url("https://example.com/a/b/"), None);
    assert_eq!(file_name_from_url("https://example.com"), None);
    assert_eq!(file_name_from_url("not an address"), None);
    assert_eq!(file_name_from_url("data:text/plain,Hello"), None);
    assert_eq!(download_name("https://example.com/x/y.png?size=2"), "y.png");
    assert_eq!(download_name("https://example.com/"), "wallhaven_random.jpg");
    assert_eq!(download_name("nonsense"), "wallhaven_random.jpg");
    assert_eq!(usable_name(Some(strings(&["a", ""]))), None);
    assert_eq!(usable_name(Some(Vec::new())), None);
    assert_eq!(usable_name(None), None);
    assert_eq!(usable_name(Some(strings(&["a", "b"]))), Some("b".to_string()));
}

#[test]
fn a_random_wallpaper_is_one_of_those_found() {
    let walls = strings(&["/a", "/b", "/c"]);
    for _ in 0..50 {
        let picked = find_random_wallpaper(&walls).unwrap();
        assert!(walls.contains(&picked));
    }
    assert_eq!(find_random_wallpaper(&Vec::new()), None);
    assert_eq!(find_random_wallpaper(&strings(&["/only"])), Some("/only".to_string()));
}
