use grafite::error::Error;

#[test]
fn formats_error_with_required_fields() {
    let err = Error::new("read", "foo.txt", "file not found", "check path");
    assert_eq!(
        err.message(),
        "failed to read: input foo.txt: file not found: check path"
    );
}
