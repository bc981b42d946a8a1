use byo_tools::paths::{
    compressed_file_name, decompressed_file_name, default_output_for_compress,
    default_output_for_decompress, pick_temp_path, plan_for_parent, same_path_resolved,
    temp_path_for, writable_plan, WritePlan,
};

#[test]
fn test_default_output_for_compress() {
    let p = "hello.txt";
    assert_eq!(default_output_for_compress(p), "hello.txt.gz");
}

#[test]
fn test_default_output_for_decompress_gz() {
    let p = "hello.txt.gz";
    assert_eq!(default_output_for_decompress(p), "hello.txt");
}

#[test]
fn test_default_output_for_decompress_no_gz() {
    let p = "hello.bin";
    assert_eq!(default_output_for_decompress(p), "hello.bin.out");
}

#[test]
fn compress_output_keeps_directory() {
    assert_eq!(default_output_for_compress("dir/sub/a.tar"), "dir/sub/a.tar.gz");
}

#[test]
fn decompress_output_keeps_directory() {
    assert_eq!(default_output_for_decompress("dir/a.tar.gz"), "dir/a.tar");
}

#[test]
fn name_rules_given_file_name() {
    assert_eq!(compressed_file_name(Some("x.txt"), "d/x.txt"), "x.txt.gz");
    assert_eq!(compressed_file_name(None, ".."), "...gz");
    assert_eq!(decompressed_file_name(Some("x.txt.gz"), "d/x.txt.gz"), "x.txt");
    assert_eq!(decompressed_file_name(Some("x.gzip"), "x.gzip"), "x.gzip.out");
    assert_eq!(decompressed_file_name(Some(".gz"), ".gz"), "");
    assert_eq!(decompressed_file_name(None, ".."), "...out");
}

#[test]
fn decompress_undoes_compress_name() {
    let c = compressed_file_name(Some("report.csv"), "report.csv");
    assert_eq!(decompressed_file_name(Some(&c), &c), "report.csv");
}

#[test]
fn writable_plan_refuses_existing_without_force() {
    assert!(matches!(writable_plan("out/x.gz", true, false), WritePlan::Refuse));
}

#[test]
fn writable_plan_creates_parent() {
    match writable_plan("out/x.gz", true, true) {
        WritePlan::CreateParent(p) => assert_eq!(p, "out"),
        _ => panic!("expected the parent to be created"),
    }
    match writable_plan("a/b/x.gz", false, false) {
        WritePlan::CreateParent(p) => assert_eq!(p, "a/b"),
        _ => panic!("expected the parent to be created"),
    }
}

#[test]
fn writable_plan_ready_without_parent() {
    assert!(matches!(writable_plan("x.gz", false, false), WritePlan::Ready));
    assert!(matches!(writable_plan("/", false, false), WritePlan::Ready));
}

#[test]
fn same_path_uses_canonical_forms_when_both_known() {
    assert!(same_path_resolved(Some("/tmp/a"), Some("/tmp/a"), "a", "./a"));
    assert!(!same_path_resolved(Some("/tmp/a"), Some("/tmp/b"), "a", "a"));
    assert!(same_path_resolved(None, Some("/tmp/a"), "x/y", "x//y"));
    assert!(!same_path_resolved(Some("/tmp/a"), None, "x", "y"));
}

#[test]
fn temp_path_replaces_extension() {
    assert_eq!(temp_path_for("notes.txt"), Some("notes.tmp".to_string()));
    assert_eq!(temp_path_for("dir/README"), Some("dir/README.tmp".to_string()));
}

#[test]
fn temp_path_never_the_file_itself() {
    assert_eq!(temp_path_for("x.tmp"), Some("x.tmp.tmp".to_string()));
    assert_eq!(temp_path_for("dir/y.tmp"), Some("dir/y.tmp.tmp".to_string()));
}

#[test]
fn pick_temp_path_choices() {
    let a = || "a.tmp".to_string();
    let b = || "a.tmp.tmp".to_string();
    assert_eq!(pick_temp_path(a(), false, b(), false), Some(a()));
    assert_eq!(pick_temp_path(a(), true, b(), false), Some(b()));
    assert_eq!(pick_temp_path(a(), true, b(), true), None);
}

#[test]
fn plan_for_parent_decisions() {
    assert!(matches!(plan_for_parent(Some("d"), true, false), WritePlan::Refuse));
    match plan_for_parent(Some("d/e"), false, false) {
        WritePlan::CreateParent(p) => assert_eq!(p, "d/e"),
        _ => panic!("expected the parent to be created"),
    }
    assert!(matches!(plan_for_parent(Some(""), true, true), WritePlan::Ready));
    assert!(matches!(plan_for_parent(None, false, true), WritePlan::Ready));
}
