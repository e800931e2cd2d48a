use proto2ts::paths::{is_proto_file_name, ts_file_name};

#[test]
fn proto_names_are_recognized() {
    assert!(is_proto_file_name("a.proto"));
    assert!(is_proto_file_name("article.proto"));
    assert!(!is_proto_file_name("readme.md"));
    assert!(!is_proto_file_name(".proto"));
    assert!(!is_proto_file_name("proto"));
}

#[test]
fn directory_listing_keeps_only_schema_files() {
    let names = ["a.proto", "b.proto", "readme.md"];
    let kept: Vec<&str> = names.iter().copied().filter(|n| is_proto_file_name(n)).collect();
    assert_eq!(kept, vec!["a.proto", "b.proto"]);
}

#[test]
fn output_name_swaps_the_extension() {
    assert_eq!(ts_file_name("a.proto"), "a.ts");
    assert_eq!(ts_file_name("article.proto"), "article.ts");
    assert_eq!(ts_file_name("noext"), "noext.ts");
    assert_eq!(ts_file_name("a.b.proto"), "a.b.ts");
}
