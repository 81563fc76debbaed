use storytime_launcher::roots::{
    get_extended_search_roots, search_roots, standard_paths, standard_paths_here, Platform,
};

fn rs(v: &[&str]) -> Vec<String> {
    v.iter().map(|s| s.to_string()).collect()
}

#[test]
fn linux_roots() {
    assert_eq!(
        search_roots(Platform::Linux, Some("/home/u"), Some("/work")),
        rs(&["/home/u", "/home/u/.local/share", "/work"])
    );
}

#[test]
fn macos_roots() {
    assert_eq!(
        search_roots(Platform::MacOs, Some("/Users/u"), None),
        rs(&["/Users/u", "/Users/u/Library/Application Support"])
    );
}

#[test]
fn windows_roots_are_read_with_slashes() {
    assert_eq!(
        search_roots(Platform::Windows, Some("C:\\Users\\u"), Some("D:\\work")),
        rs(&[
            "C:/Users/u",
            "C:/Users/u/AppData/Roaming",
            "C:/Users/u/AppData/Local",
            "C:/Users/u/Documents",
            "C:/Users/u/OneDrive/Documents",
            "D:/work",
        ])
    );
}

#[test]
fn roots_without_a_home_directory() {
    assert_eq!(search_roots(Platform::Linux, None, Some("/work")), rs(&["/work"]));
    assert_eq!(search_roots(Platform::Other, None, None), Vec::<String>::new());
    assert_eq!(search_roots(Platform::Other, Some("/h"), None), rs(&["/h"]));
}

#[test]
fn backslashes_stay_where_they_are_no_separators() {
    assert_eq!(search_roots(Platform::Linux, Some("/home/a\\b"), None)[0], "/home/a\\b");
}

#[test]
fn standard_places_on_each_platform() {
    assert_eq!(
        standard_paths(Platform::Linux, Some("/h/.local/share"), Some("/h/.config"), Some("/h")),
        rs(&["/h/.local/share/.minecraft", "/h/.config/.minecraft", "/h/.minecraft"])
    );
    assert_eq!(
        standard_paths(Platform::Windows, Some("C:\\U\\AppData\\Roaming"), None, Some("C:\\U")),
        rs(&[
            "C:/U/AppData/Roaming/.minecraft",
            "C:/U/.minecraft",
            "C:/U/AppData/Roaming/.minecraft",
        ])
    );
    assert_eq!(
        standard_paths(Platform::MacOs, None, None, Some("/Users/u")),
        rs(&["/Users/u/.minecraft", "/Users/u/Library/Application Support/minecraft"])
    );
    assert_eq!(standard_paths(Platform::Linux, None, None, None), Vec::<String>::new());
}

#[test]
fn the_roots_of_this_machine_end_with_the_working_directory() {
    let roots = get_extended_search_roots(Platform::Linux, Some("/work/here"));
    assert_eq!(roots.last(), Some(&"/work/here".to_string()));
    assert!(roots.len() == 1 || roots.len() == 3);
    let none = get_extended_search_roots(Platform::Other, None);
    assert!(none.len() <= 1);
}

#[test]
fn the_standard_places_of_this_machine_are_minecraft_directories() {
    for p in standard_paths_here(Platform::Linux) {
        assert!(p.ends_with("/.minecraft"));
    }
}
