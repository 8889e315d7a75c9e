use bucket_archiver::naming::{is_directory_marker, plan_staging, staged_name, StagingError};

fn keys(list: &[&str]) -> Vec<String> {
    list.iter().map(|k| k.to_string()).collect()
}

#[test]
fn separators_become_triple_underscores() {
    assert_eq!(staged_name("a/b/c.txt"), "a___b___c.txt");
    assert_eq!(staged_name("plain.bin"), "plain.bin");
    assert_eq!(staged_name("/lead//x"), "___lead______x");
    assert_eq!(staged_name(""), "");
    assert_eq!(staged_name("dé/ü"), "dé___ü");
}

#[test]
fn directory_markers_are_recognised() {
    assert!(is_directory_marker("dir/"));
    assert!(is_directory_marker("/"));
    assert!(!is_directory_marker("dir"));
    assert!(!is_directory_marker(""));
    assert!(!is_directory_marker("a/b"));
}

#[test]
fn directory_marker_is_skipped_and_keys_are_flattened() {
    let plan = plan_staging(&keys(&["a/b/c.txt", "dir/", "top.txt"])).unwrap();
    assert_eq!(plan.len(), 2);
    assert_eq!(plan[0].key, "a/b/c.txt");
    assert_eq!(plan[0].file_name, "a___b___c.txt");
    assert_eq!(plan[1].key, "top.txt");
    assert_eq!(plan[1].file_name, "top.txt");
}

#[test]
fn empty_bucket_stages_nothing() {
    assert!(plan_staging(&Vec::new()).unwrap().is_empty());
    assert!(plan_staging(&keys(&["only/", "dirs/too/"])).unwrap().is_empty());
}

#[test]
fn keys_that_flatten_alike_are_refused() {
    match plan_staging(&keys(&["x", "a/b", "y", "a___b"])) {
        Err(StagingError::NameCollision { first, second }) => {
            assert_eq!(first, "a/b");
            assert_eq!(second, "a___b");
        }
        other => panic!("expected a collision, got {:?}", other),
    }
}

#[test]
fn distinct_keys_get_distinct_names() {
    let plan = plan_staging(&keys(&["a/b", "a/c", "ab", "a/b/c", "a.b"])).unwrap();
    let names: Vec<&str> = plan.iter().map(|o| o.file_name.as_str()).collect();
    assert_eq!(names, vec!["a___b", "a___c", "ab", "a___b___c", "a.b"]);
    for i in 0..names.len() {
        for j in i + 1..names.len() {
            assert_ne!(names[i], names[j]);
        }
    }
}
