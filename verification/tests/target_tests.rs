use rcple::target::{parse_target, Target, TargetError};

fn target(user: Option<&str>, host: &str, dir: &str) -> Target {
    Target {
        username: user.map(|u| u.to_string()),
        hostname: host.to_string(),
        directory: dir.to_string(),
    }
}

#[test]
fn target_names_user_host_and_directory() {
    assert_eq!(
        parse_target("graham@myhost.com:/var/www/myfiles"),
        Ok(target(Some("graham"), "myhost.com", "/var/www/myfiles/"))
    );
    assert_eq!(
        parse_target("graham@myhost.com:/var/www/myfiles/"),
        Ok(target(Some("graham"), "myhost.com", "/var/www/myfiles/"))
    );
}

#[test]
fn target_without_user() {
    assert_eq!(parse_target("myhost:/srv"), Ok(target(None, "myhost", "/srv/")));
    assert_eq!(parse_target("myhost:"), Ok(target(None, "myhost", "/")));
}

#[test]
fn target_is_cut_at_the_first_signs() {
    assert_eq!(parse_target("a@b@c:d:e"), Ok(target(Some("a"), "b@c", "d:e/")));
    assert_eq!(parse_target("@h:/"), Ok(target(Some(""), "h", "/")));
    assert_eq!(parse_target("u:x@h:/d"), Ok(target(Some("u:x"), "h", "/d/")));
}

#[test]
fn target_without_host_is_refused() {
    assert_eq!(parse_target("graham@myhost.com"), Err(TargetError::MissingHost));
    assert_eq!(parse_target("/var/www"), Err(TargetError::MissingHost));
    assert_eq!(parse_target(""), Err(TargetError::MissingHost));
    assert_eq!(parse_target("a:b@c"), Err(TargetError::MissingHost));
}
