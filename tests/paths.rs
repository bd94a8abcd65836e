use sendit::paths::file_name_from_path;

#[test]
fn file_name_of_paths() {
    assert_eq!(file_name_from_path("/home/u/docs/report.pdf"), Ok("report.pdf".to_string()));
    assert_eq!(file_name_from_path("notes.txt"), Ok("notes.txt".to_string()));
    assert_eq!(file_name_from_path("/tmp/dir/"), Ok("dir".to_string()));
    assert_eq!(file_name_from_path("/"), Err("Failed to get file name".to_string()));
    assert_eq!(file_name_from_path("a/.."), Err("Failed to get file name".to_string()));
}
