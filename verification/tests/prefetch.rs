use dekho::prefetch::{basename, check_size, dir_for, reported, sort_out, wanted};
use dekho::xdg::Environment;

#[test]
fn a_plain_tmdb_path_yields_its_filename() {
    assert_eq!(basename("/pB8B.jpg").unwrap(), "pB8B.jpg");
    assert_eq!(basename("pB8B.jpg").unwrap(), "pB8B.jpg");
}

#[test]
fn a_traversing_path_is_refused() {
    assert!(basename("../../etc/passwd").is_err());
    assert!(basename("/../../etc/passwd").is_err());
    assert!(basename("/..").is_err());
}

#[test]
fn a_path_with_a_second_segment_is_refused() {
    assert!(basename("/a/b.jpg").is_err());
    assert!(basename("/t/p/w342/x.jpg").is_err());
}

#[test]
fn an_empty_path_is_refused() {
    assert!(basename("").is_err());
    assert!(basename("/").is_err());
}

#[test]
fn only_tmdbs_own_sizes_are_accepted() {
    assert!(check_size("w342").is_ok());
    assert!(check_size("original").is_ok());
    assert!(check_size("w999").is_err());
    // Would otherwise become a directory name.
    assert!(check_size("../../..").is_err());
}

#[test]
fn the_cache_directory_is_per_size() {
    let env = Environment {
        xdg_config_home: None,
        xdg_cache_home: None,
        xdg_state_home: None,
        home: Some("/home/u".into()),
        temp_dir: "/tmp".into(),
    };
    assert!(dir_for(&env, "w342").ends_with("dekho/img/w342"));
}

fn strings(v: &[(&str, &str)]) -> Vec<(String, String)> {
    v.iter().map(|(a, b)| (a.to_string(), b.to_string())).collect()
}

#[test]
fn only_what_is_missing_is_downloaded() {
    let paths = vec!["/a.jpg".to_string(), "/b.jpg".to_string(), "/c.jpg".to_string()];
    let images = wanted("w342", &paths).unwrap();
    let (present, missing) = sort_out("/img", images, &[false, true, false]);
    assert_eq!(present, strings(&[("/b.jpg", "/img/b.jpg")]));
    let to_fetch: Vec<(&str, &str)> =
        missing.iter().map(|(i, dest)| (i.path.as_str(), dest.as_str())).collect();
    assert_eq!(to_fetch, vec![("/a.jpg", "/img/a.jpg"), ("/c.jpg", "/img/c.jpg")]);
    // One that could not be fetched is left out, and fails nothing.
    let files = reported(present, &missing, &[false, true]);
    assert_eq!(files, strings(&[("/b.jpg", "/img/b.jpg"), ("/c.jpg", "/img/c.jpg")]));
}

#[test]
fn a_request_that_is_all_on_disk_downloads_nothing() {
    let paths = vec!["/a.jpg".to_string(), "/a.jpg".to_string()];
    let images = wanted("w342", &paths).unwrap();
    assert_eq!(images.len(), 1, "a repeated path is one image");
    let (present, missing) = sort_out("/img", images, &[true]);
    assert!(missing.is_empty());
    assert_eq!(reported(present, &missing, &[]), strings(&[("/a.jpg", "/img/a.jpg")]));
}
