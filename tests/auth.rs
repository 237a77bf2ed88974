use chat_server::auth::{is_public_path, Authentication, Access};

#[test]
fn public_paths() {
    assert!(is_public_path("/"));
    assert!(is_public_path("/ws"));
    assert!(is_public_path("/index.html"));
    assert!(is_public_path("/api/auth/signin"));
    assert!(is_public_path("/api/auth"));
    assert!(!is_public_path("/api/auth/user"));
    assert!(!is_public_path("/api/auth/users"));
    assert!(!is_public_path("/api/rooms"));
    assert!(!is_public_path("/api"));
}

#[test]
fn access_needs_a_user_on_private_paths() {
    let m = Authentication.new_transform(7u8);
    assert_eq!(*m.service(), 7);
    assert_eq!(m.access("/api/rooms", false), Access::Unauthorized);
    assert_eq!(m.access("/api/rooms", true), Access::Forward);
    assert_eq!(m.access("/api/auth/signin", false), Access::Forward);
    assert_eq!(m.access("/static/app.js", false), Access::Forward);
}
