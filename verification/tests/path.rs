use nanvm_lib::parser::path::normalize;

#[test]
fn path_test() {
    let norm = normalize("../../dir/file.json");
    assert_eq!(norm, "../../dir/file.json");

    let norm = normalize("../../dir/../file.json");
    assert_eq!(norm, "../../file.json");
}

#[test]
fn normalize_resolves_each_parent_step() {
    assert_eq!(normalize("a/b/../../c"), "c");
    assert_eq!(normalize("a/b/../c/./d"), "a/c/./d");
    assert_eq!(normalize(""), "");
    assert_eq!(normalize("/x/../y"), "/y");
    assert_eq!(normalize("x/.."), "");
    assert_eq!(normalize("..a/../b"), "b");
}

#[test]
fn normalize_is_idempotent_on_examples() {
    for p in ["../../dir/../file.json", "a/b/../../c", "x/../../y/..", "a//b/../c"] {
        let once = normalize(p);
        assert_eq!(normalize(&once), once);
    }
}
