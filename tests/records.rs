use cargo_reg_local::error::LookupError;
use cargo_reg_local::lookup::versions_in;
use cargo_reg_local::records::extract_versions;

#[test]
fn versions_come_latest_first() {
    let file = "{\"vers\":\"0.1.0\",\"yanked\":false}\n{\"vers\":\"0.2.0\",\"yanked\":false}";
    assert_eq!(extract_versions(file), vec!["0.2.0", "0.1.0"]);
}

#[test]
fn only_unyanked_versions_are_kept() {
    let file = "{\"vers\":\"1.0.0\",\"yanked\":true}\n{\"vers\":\"1.1.0\",\"yanked\":false}\n{\"vers\":\"1.2.0\",\"yanked\":true}";
    assert_eq!(extract_versions(file), vec!["1.1.0"]);
}

#[test]
fn brace_and_comma_end_the_flag_alike() {
    let comma = "{\"vers\":\"2.0.0\",\"yanked\":false,\"deps\":[]}";
    let brace = "{\"vers\":\"2.0.0\",\"yanked\":false}";
    assert_eq!(extract_versions(comma), vec!["2.0.0"]);
    assert_eq!(extract_versions(comma), extract_versions(brace));
}

#[test]
fn file_without_live_versions_is_not_found() {
    let file = "{\"vers\":\"1.0.0\",\"yanked\":true}\n{\"vers\":\"1.1.0\",\"yanked\":true}";
    assert_eq!(versions_in(file), Err(LookupError::NotFound));
    assert_eq!(versions_in(""), Err(LookupError::NotFound));
}

#[test]
fn versions_are_kept_verbatim() {
    let file = "{\"vers\":\"1.0\",\"yanked\":false}\n{\"vers\":\"1.0.0-beta+x\",\"yanked\":false}";
    assert_eq!(versions_in(file), Ok(vec!["1.0.0-beta+x".to_string(), "1.0".to_string()]));
}

#[test]
fn versions_with_wide_characters_survive() {
    let file = "{\"vers\":\"1.0-ünï\",\"yanked\":false}";
    assert_eq!(extract_versions(file), vec!["1.0-ünï"]);
}

#[test]
fn malformed_records_are_skipped() {
    let file = "{\"vers\":\"0.1.0\"}\n{\"yanked\":false}\n{\"vers\":\"0.3.0\",\"deps\":[],\"yanked\":false}";
    assert_eq!(extract_versions(file), vec!["0.3.0"]);
}

#[test]
fn flag_other_than_false_counts_as_withdrawn() {
    let file = "{\"vers\":\"0.1.0\",\"yanked\":null}\n{\"vers\":\"0.2.0\",\"yanked\": false}";
    assert_eq!(extract_versions(file), Vec::<String>::new());
}

#[test]
fn records_do_not_span_lines() {
    let file = "{\"vers\":\"0.1.0\",\n\"yanked\":false}";
    assert_eq!(extract_versions(file), Vec::<String>::new());
}

#[test]
fn records_on_one_line_are_all_found() {
    let file = "{\"vers\":\"0.1.0\",\"yanked\":false}{\"vers\":\"0.2.0\",\"yanked\":true}{\"vers\":\"0.3.0\",\"yanked\":false}";
    assert_eq!(extract_versions(file), vec!["0.3.0", "0.1.0"]);
}

#[test]
fn record_without_flag_does_not_borrow_the_next_one() {
    let file = "{\"vers\":\"0.1.0\"}{\"vers\":\"0.2.0\",\"yanked\":false}";
    assert_eq!(extract_versions(file), vec!["0.2.0"]);
}

#[test]
fn nested_objects_before_the_flag_are_crossed() {
    let file = "{\"name\":\"a\",\"vers\":\"1.0.0\",\"deps\":[{\"name\":\"b\",\"req\":\"^1\"}],\"cksum\":\"00\",\"features\":{},\"yanked\":false}";
    assert_eq!(extract_versions(file), vec!["1.0.0"]);
}

#[test]
fn flag_followed_by_another_field_reads_the_same() {
    let closed = "{\"vers\":\"2.0.0\",\"yanked\":false}";
    let followed = "{\"vers\":\"2.0.0\",\"yanked\":false,\"x\":1}";
    assert_eq!(versions_in(closed), Ok(vec!["2.0.0".to_string()]));
    assert_eq!(versions_in(followed), versions_in(closed));
    let withdrawn = "{\"vers\":\"2.0.0\",\"yanked\":true,\"x\":1}";
    assert_eq!(versions_in(withdrawn), Err(LookupError::NotFound));
}

#[test]
fn mixed_file_gives_live_versions_latest_first() {
    let file = "{\"vers\":\"1.0.0\",\"yanked\":true}\n{\"vers\":\"1.1.0\",\"yanked\":false}\n{\"vers\":\"1.2.0\",\"yanked\":true}\n{\"vers\":\"1.3.0\",\"yanked\":false}";
    assert_eq!(versions_in(file), Ok(vec!["1.3.0".to_string(), "1.1.0".to_string()]));
}
