use rustyrender::model::{get_face_indicies, record_kind, RecordKind};

fn failed() -> Result<Vec<usize>, String> {
    Err(String::from("Failed to parse face vertex number"))
}

#[test]
fn plain_face() {
    assert_eq!(get_face_indicies(String::from("1 2 3")), Ok(vec![0, 1, 2]));
}

#[test]
fn face_with_texture_and_normal_references() {
    assert_eq!(get_face_indicies(String::from("24/1/24 25/2/25 26/3/26")), Ok(vec![23, 24, 25]));
    assert_eq!(get_face_indicies(String::from("7//1 8//2 9//3")), Ok(vec![6, 7, 8]));
}

#[test]
fn only_three_references_count() {
    assert_eq!(get_face_indicies(String::from("1 2 3 x")), Ok(vec![0, 1, 2]));
    assert_eq!(get_face_indicies(String::from("4 5 6 7")), Ok(vec![3, 4, 5]));
}

#[test]
fn fewer_references_are_kept() {
    assert_eq!(get_face_indicies(String::from("")), Ok(vec![]));
    assert_eq!(get_face_indicies(String::from("   \t ")), Ok(vec![]));
    assert_eq!(get_face_indicies(String::from("12")), Ok(vec![11]));
    assert_eq!(get_face_indicies(String::from(" 3  4 ")), Ok(vec![2, 3]));
}

#[test]
fn white_space_of_all_kinds_separates() {
    assert_eq!(get_face_indicies(String::from("\t1\r\n2\x0c3\n")), Ok(vec![0, 1, 2]));
}

#[test]
fn a_plus_sign_may_lead() {
    assert_eq!(get_face_indicies(String::from("+1 +20/3 003")), Ok(vec![0, 19, 2]));
}

#[test]
fn bad_numbers_fail_the_line() {
    assert_eq!(get_face_indicies(String::from("a 2 3")), failed());
    assert_eq!(get_face_indicies(String::from("1 2 x")), failed());
    assert_eq!(get_face_indicies(String::from("1 -2 3")), failed());
    assert_eq!(get_face_indicies(String::from("1 /2 3")), failed());
    assert_eq!(get_face_indicies(String::from("1 + 3")), failed());
    assert_eq!(get_face_indicies(String::from("1 2.5 3")), failed());
    assert_eq!(get_face_indicies(String::from("1 ２ 3")), failed());
    assert_eq!(get_face_indicies(String::from("1\x0b2 3")), failed());
}

#[test]
fn number_zero_fails_the_line() {
    assert_eq!(get_face_indicies(String::from("0 1 2")), failed());
    assert_eq!(get_face_indicies(String::from("1 2 +0")), failed());
}

#[test]
fn numbers_beyond_usize_fail_the_line() {
    assert_eq!(get_face_indicies(String::from("1 2 99999999999999999999999999999999")), failed());
    let max = format!("{}", usize::MAX);
    assert_eq!(get_face_indicies(max), Ok(vec![usize::MAX - 1]));
}

#[test]
fn an_error_after_the_third_reference_is_not_seen() {
    assert_eq!(get_face_indicies(String::from("1 2 3 0 x")), Ok(vec![0, 1, 2]));
}

#[test]
fn record_kinds() {
    assert_eq!(record_kind("v 0.1 0.2 0.3"), RecordKind::Vertex);
    assert_eq!(record_kind("f 1/2/3 4/5/6 7/8/9"), RecordKind::Face);
    assert_eq!(record_kind("v "), RecordKind::Vertex);
    assert_eq!(record_kind("f "), RecordKind::Face);
    assert_eq!(record_kind("vt 0.5 0.5"), RecordKind::Other);
    assert_eq!(record_kind("vn 0 0 1"), RecordKind::Other);
    assert_eq!(record_kind("v\t1 2 3"), RecordKind::Other);
    assert_eq!(record_kind(" f 1 2 3"), RecordKind::Other);
    assert_eq!(record_kind("# f 1 2 3"), RecordKind::Other);
    assert_eq!(record_kind("f"), RecordKind::Other);
    assert_eq!(record_kind(""), RecordKind::Other);
}
