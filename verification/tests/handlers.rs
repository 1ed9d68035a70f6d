use wikiwho::handlers::normalize_title;

#[test]
fn normalize_title_replaces_spaces() {
    assert_eq!(normalize_title("Barack Obama"), "Barack_Obama");
    assert_eq!(normalize_title("Already_Under_Scored"), "Already_Under_Scored");
    assert_eq!(normalize_title(""), "");
}
