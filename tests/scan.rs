use image_folders::classify::is_image;
use image_folders::group::{
    child_path, folder_before, group_images, insert_sorted, load_images_from_dir,
    root_display_name, FolderImages, ScanError, ScanRoot, ScannedFile,
};

fn root_at(path: &str, name: Option<&str>) -> ScanRoot {
    ScanRoot {
        path: path.to_string(),
        name: name.map(|n| n.to_string()),
        separator: '/',
        exists: true,
        is_dir: true,
    }
}

fn file(path: &str, dirs: &[&str]) -> ScannedFile {
    let file_name = path.rsplit('/').next().unwrap().to_string();
    ScannedFile {
        path: path.to_string(),
        file_name,
        dirs: dirs.iter().map(|d| d.to_string()).collect(),
    }
}

fn scan(root: &ScanRoot, files: Vec<ScannedFile>) -> Vec<FolderImages> {
    match load_images_from_dir(root, &files) {
        Ok(groups) => groups,
        Err(_) => panic!("the root is valid"),
    }
}

fn names(groups: &[FolderImages]) -> Vec<String> {
    groups.iter().map(|g| g.name.clone()).collect()
}

#[test]
fn image_extensions_are_recognised_in_any_case() {
    for name in [
        "a.jpg", "a.JPG", "b.jpeg", "c.Png", "d.gif", "e.bmp", "f.webp", "g.TIFF", "h.svg",
        "archive.tar.png",
    ] {
        assert!(is_image(name), "{name}");
    }
}

#[test]
fn other_names_are_not_images() {
    for name in ["noext", ".jpg", "a.txt", "a.", "a.jpg.txt", "jpg", "a.jpgx", "a.tif", ""] {
        assert!(!is_image(name), "{name}");
    }
}

#[test]
fn missing_root_is_rejected() {
    let mut root = root_at("/nowhere", Some("nowhere"));
    root.exists = false;
    root.is_dir = false;
    let r = load_images_from_dir(&root, &vec![file("/nowhere/a.jpg", &[])]);
    assert!(matches!(r, Err(ScanError::InvalidRoot)));
}

#[test]
fn file_as_root_is_rejected() {
    let mut root = root_at("/pics/a.jpg", Some("a.jpg"));
    root.is_dir = false;
    let r = load_images_from_dir(&root, &Vec::new());
    assert!(matches!(r, Err(ScanError::InvalidRoot)));
}

#[test]
fn invalid_root_message() {
    assert_eq!(ScanError::InvalidRoot.message(), "选择的路径不可用");
}

#[test]
fn sibling_folders_differing_by_case_stay_apart() {
    let root = root_at("/pics", Some("pics"));
    let groups = scan(
        &root,
        vec![
            file("/pics/a.jpg", &[]),
            file("/pics/Vacation/b.png", &["Vacation"]),
            file("/pics/vacation/c.png", &["vacation"]),
        ],
    );
    assert_eq!(groups.len(), 3);
    assert_eq!(groups[0].name, "pics");
    assert_eq!(groups[0].path, "/pics");
    assert_eq!(groups[0].images, vec!["/pics/a.jpg".to_string()]);
    assert_eq!(groups[1].name.to_lowercase(), "vacation");
    assert_eq!(groups[2].name.to_lowercase(), "vacation");
    assert_ne!(groups[1].name, groups[2].name);
    for g in &groups[1..] {
        let expected = if g.name == "Vacation" { "/pics/Vacation/b.png" } else { "/pics/vacation/c.png" };
        assert_eq!(g.images, vec![expected.to_string()]);
        assert_eq!(g.path, format!("/pics/{}", g.name));
    }
}

#[test]
fn deep_image_goes_to_top_level_folder() {
    let root = root_at("/pics", Some("pics"));
    let groups = scan(&root, vec![file("/pics/2023/summer/d.gif", &["2023", "summer"])]);
    assert_eq!(names(&groups), vec!["pics", "2023"]);
    assert_eq!(groups[1].path, "/pics/2023");
    assert_eq!(groups[1].images, vec!["/pics/2023/summer/d.gif".to_string()]);
    assert!(groups[0].images.is_empty());
}

#[test]
fn tree_without_images_gives_only_the_root_group() {
    let root = root_at("/pics", Some("pics"));
    let groups = scan(
        &root,
        vec![file("/pics/notes.txt", &[]), file("/pics/docs/readme", &["docs"])],
    );
    assert_eq!(groups.len(), 1);
    assert_eq!(groups[0].name, "pics");
    assert_eq!(groups[0].path, "/pics");
    assert!(groups[0].images.is_empty());
}

#[test]
fn empty_walk_gives_only_the_root_group() {
    let root = root_at("/pics", Some("pics"));
    let groups = scan(&root, Vec::new());
    assert_eq!(groups.len(), 1);
    assert!(groups[0].images.is_empty());
}

#[test]
fn each_image_lands_in_exactly_one_group() {
    let root = root_at("/pics", Some("pics"));
    let files = vec![
        file("/pics/a.jpg", &[]),
        file("/pics/b.txt", &[]),
        file("/pics/x/c.png", &["x"]),
        file("/pics/x/y/d.BMP", &["x", "y"]),
        file("/pics/z/e.doc", &["z"]),
        file("/pics/z/f.webp", &["z"]),
    ];
    let groups = scan(&root, files.iter().map(|f| file(&f.path, &f.dirs.iter().map(|d| d.as_str()).collect::<Vec<_>>())).collect());
    for f in &files {
        let count = groups.iter().filter(|g| g.images.contains(&f.path)).count();
        let expected = if is_image(&f.file_name) { 1 } else { 0 };
        assert_eq!(count, expected, "{}", f.path);
    }
}

#[test]
fn scanning_twice_gives_the_same_result() {
    let root = root_at("/pics", Some("pics"));
    let make = || {
        vec![
            file("/pics/b/2.png", &["b"]),
            file("/pics/a.jpg", &[]),
            file("/pics/B/1.png", &["B"]),
            file("/pics/b/1.png", &["b"]),
        ]
    };
    let first = scan(&root, make());
    let second = scan(&root, make());
    assert_eq!(first.len(), second.len());
    for (x, y) in first.iter().zip(second.iter()) {
        assert_eq!(x.name, y.name);
        assert_eq!(x.path, y.path);
        assert_eq!(x.images, y.images);
    }
}

#[test]
fn images_at_any_depth_under_one_folder_share_its_group() {
    let root = root_at("/pics", Some("pics"));
    let groups = scan(
        &root,
        vec![file("/pics/A/b/c/img.png", &["A", "b", "c"]), file("/pics/A/img2.png", &["A"])],
    );
    assert_eq!(names(&groups), vec!["pics", "A"]);
    assert_eq!(
        groups[1].images,
        vec!["/pics/A/b/c/img.png".to_string(), "/pics/A/img2.png".to_string()]
    );
}

#[test]
fn root_group_comes_first_even_when_empty() {
    let root = root_at("/pics", Some("pics"));
    let groups = scan(&root, vec![file("/pics/aaa/x.jpg", &["aaa"]), file("/pics/pics/y.jpg", &["pics"])]);
    assert_eq!(groups.len(), 3);
    assert_eq!(groups[0].path, "/pics");
    assert!(groups[0].images.is_empty());
    assert_eq!(names(&groups), vec!["pics", "aaa", "pics"]);
    assert_eq!(groups[2].path, "/pics/pics");
    assert_eq!(groups[2].images, vec!["/pics/pics/y.jpg".to_string()]);
}

#[test]
fn groups_sorted_case_insensitively_and_images_ascending() {
    let root = root_at("/pics", Some("pics"));
    let groups = scan(
        &root,
        vec![
            file("/pics/c/1.jpg", &["c"]),
            file("/pics/z.jpg", &[]),
            file("/pics/b/1.jpg", &["b"]),
            file("/pics/a.jpg", &[]),
            file("/pics/A/1.jpg", &["A"]),
            file("/pics/B.jpg", &[]),
        ],
    );
    assert_eq!(names(&groups), vec!["pics", "A", "b", "c"]);
    assert_eq!(
        groups[0].images,
        vec!["/pics/B.jpg".to_string(), "/pics/a.jpg".to_string(), "/pics/z.jpg".to_string()]
    );
}

#[test]
fn root_without_name_uses_fallback_label() {
    let root = root_at("/", None);
    let groups = scan(&root, vec![file("/top.png", &[]), file("/home/x.svg", &["home"])]);
    assert_eq!(groups[0].name, "根目录");
    assert_eq!(groups[0].path, "/");
    assert_eq!(groups[1].path, "/home");
    assert_eq!(root_display_name(&None), "根目录");
    assert_eq!(root_display_name(&Some("pics".to_string())), "pics");
}

#[test]
fn child_paths_put_one_separator_between() {
    assert_eq!(child_path("/pics", "x", '/'), "/pics/x");
    assert_eq!(child_path("/", "x", '/'), "/x");
    assert_eq!(child_path("/pics/", "x", '/'), "/pics/x");
    assert_eq!(child_path("C:\\pics", "x", '\\'), "C:\\pics\\x");
    assert_eq!(child_path("C:\\", "x", '\\'), "C:\\x");
    assert_eq!(child_path("C:/", "x", '\\'), "C:/x");
    assert_eq!(child_path("", "x", '/'), "x");
}

#[test]
fn folder_order_ignores_case_then_breaks_ties_by_name() {
    assert!(folder_before("a", "B"));
    assert!(!folder_before("B", "a"));
    assert!(folder_before("Vacation", "vacation"));
    assert!(!folder_before("vacation", "Vacation"));
    assert!(!folder_before("same", "same"));
    assert!(folder_before("zebra", "Élan"));
    assert!(folder_before("ab", "abc"));
}

#[test]
fn unicode_names_are_compared_lower_cased() {
    let root = root_at("/pics", Some("pics"));
    let groups = scan(
        &root,
        vec![file("/pics/ÉTÉ/1.png", &["ÉTÉ"]), file("/pics/été2/1.png", &["été2"])],
    );
    assert_eq!(names(&groups), vec!["pics", "ÉTÉ", "été2"]);
}

#[test]
fn insert_sorted_keeps_order() {
    let mut v: Vec<String> = Vec::new();
    for s in ["m", "b", "z", "a", "b"] {
        insert_sorted(&mut v, s.to_string());
    }
    assert_eq!(v, vec!["a", "b", "b", "m", "z"]);
}

#[test]
fn group_images_ignores_validity_flags() {
    let mut root = root_at("/pics", Some("pics"));
    root.exists = false;
    let groups = group_images(&root, &vec![file("/pics/a.gif", &[])]);
    assert_eq!(groups.len(), 1);
    assert_eq!(groups[0].images, vec!["/pics/a.gif".to_string()]);
}
