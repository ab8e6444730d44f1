use fig2json::serve::{self, Reply, ServeError};

#[test]
fn request_targets_are_decoded_and_checked() {
    assert_eq!(serve::request_target("/a%20b.html?x=1"), Ok("a b.html".to_string()));
    assert_eq!(serve::request_target("/"), Ok(String::new()));
    assert_eq!(serve::request_target("index.html"), Ok("index.html".to_string()));
    assert_eq!(serve::request_target("//x"), Ok("/x".to_string()));
    assert_eq!(serve::request_target("/../etc/passwd"), Err(ServeError::InvalidPath));
    assert_eq!(serve::request_target("/%2e%2e/x"), Err(ServeError::InvalidPath));
    assert_eq!(serve::request_target("/ok?q=.."), Ok("ok".to_string()));
}

#[test]
fn replies_follow_what_the_path_names() {
    match serve::reply_for("/r/dir", true, "/r/dir/index.html", false, false, false) {
        Reply::Status(c, b) => {
            assert_eq!(c, 403);
            assert_eq!(b, "403 Forbidden\n");
        }
        _ => panic!("expected a status"),
    }
    match serve::reply_for("/r/dir", true, "/r/dir/index.html", true, true, false) {
        Reply::File(p, m) => {
            assert_eq!(p, "/r/dir/index.html");
            assert_eq!(m, "text/html");
        }
        _ => panic!("expected a file"),
    }
    match serve::reply_for("/r/missing.css", false, "", false, false, false) {
        Reply::Status(c, b) => {
            assert_eq!(c, 404);
            assert_eq!(b, "404 Not Found\n");
        }
        _ => panic!("expected a status"),
    }
    match serve::reply_for("/r/a.unknownext", false, "", false, false, true) {
        Reply::File(_, m) => assert_eq!(m, "application/octet-stream"),
        _ => panic!("expected a file"),
    }
}
