use tidyup::paths::extension_of;
use tidyup::paths::file_name_of;
use tidyup::scan::group_by_extension;
use walkdir::WalkDir;

#[test]
fn test_read_path_extensions() {
    let path = ".";
    let mut found: Vec<String> = Vec::new();
    for entry in WalkDir::new(path).into_iter() {
        if let Ok(e) = entry {
            if e.file_type().is_file() {
                found.push(e.path().to_string_lossy().to_string());
            }
        }
    }
    let (paths, _skipped) = group_by_extension(&found);
    // Check that the vector contains tuples with the expected format.
    for (ext, files) in paths {
        assert_eq!(ext.is_empty(), false);
        assert_eq!(files.is_empty(), false);
        for file in files {
            assert!(file.ends_with(&format!(".{}", ext)));
        }
    }
}

#[test]
fn test_groups_by_final_dot() {
    let files: Vec<String> = vec![
        "report.pdf".to_string(),
        "notes.txt".to_string(),
        "photo.jpg".to_string(),
        "archive.tar.gz".to_string(),
    ];
    let (groups, skipped) = group_by_extension(&files);
    assert!(skipped.is_empty());
    assert_eq!(groups.len(), 4);
    assert_eq!(groups[0].0, "pdf");
    assert_eq!(groups[0].1, vec!["report.pdf".to_string()]);
    assert_eq!(groups[1].0, "txt");
    assert_eq!(groups[1].1, vec!["notes.txt".to_string()]);
    assert_eq!(groups[2].0, "jpg");
    assert_eq!(groups[2].1, vec!["photo.jpg".to_string()]);
    // The extension is the substring after the final dot: "gz", not "tar.gz".
    assert_eq!(groups[3].0, "gz");
    assert_eq!(groups[3].1, vec!["archive.tar.gz".to_string()]);
}

#[test]
fn test_no_extension_excluded() {
    let files: Vec<String> = vec!["README".to_string(), "report.pdf".to_string()];
    let (groups, skipped) = group_by_extension(&files);
    assert_eq!(skipped, vec!["README".to_string()]);
    assert_eq!(groups.len(), 1);
    assert_eq!(groups[0].0, "pdf");
    assert_eq!(groups[0].1, vec!["report.pdf".to_string()]);
}

#[test]
fn test_discovery_order_kept() {
    let files: Vec<String> = vec![
        "b.txt".to_string(),
        "a.pdf".to_string(),
        "a.txt".to_string(),
    ];
    let (groups, skipped) = group_by_extension(&files);
    assert!(skipped.is_empty());
    assert_eq!(groups.len(), 2);
    assert_eq!(groups[0].0, "txt");
    assert_eq!(groups[0].1, vec!["b.txt".to_string(), "a.txt".to_string()]);
    assert_eq!(groups[1].0, "pdf");
    assert_eq!(groups[1].1, vec!["a.pdf".to_string()]);
}

#[test]
fn test_same_extension_twice_one_group() {
    let files: Vec<String> = vec!["x.log".to_string(), "y.log".to_string()];
    let (groups, skipped) = group_by_extension(&files);
    assert!(skipped.is_empty());
    assert_eq!(groups.len(), 1);
    assert_eq!(groups[0].0, "log");
    assert_eq!(groups[0].1, vec!["x.log".to_string(), "y.log".to_string()]);
}

#[test]
fn test_empty_input_empty_result() {
    let files: Vec<String> = Vec::new();
    let (groups, skipped) = group_by_extension(&files);
    assert!(groups.is_empty());
    assert!(skipped.is_empty());
}

#[test]
fn test_extension_of_values() {
    assert_eq!(extension_of("report.pdf"), Some("pdf".to_string()));
    assert_eq!(extension_of("archive.tar.gz"), Some("gz".to_string()));
    assert_eq!(extension_of("/a/b/c.txt"), Some("txt".to_string()));
    assert_eq!(extension_of("README"), None);
    // The dot in a directory name does not make an extension.
    assert_eq!(extension_of("dir.d/file"), None);
    // A name ending in a dot has an empty extension.
    assert_eq!(extension_of("trailing."), Some(String::new()));
}

#[test]
fn test_file_name_of_values() {
    assert_eq!(file_name_of("/a/b/c.txt"), "c.txt");
    assert_eq!(file_name_of("plain"), "plain");
    assert_eq!(file_name_of("dir/"), "");
}
