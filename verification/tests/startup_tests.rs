use thttpd::startup::{data_dir_chdir_path, effective_dir_after_chdir, join_path};

#[test]
fn relative_data_dir_under_chroot_resolves_under_jail_root() {
    let dir = effective_dir_after_chdir("/", "htdocs", true);
    assert_eq!(dir, "/htdocs");
}

#[test]
fn relative_data_dir_without_chroot_resolves_under_config_dir() {
    let original = "/var/www";
    let dir = effective_dir_after_chdir(original, "htdocs", false);
    assert_eq!(dir, "/var/www/htdocs");
}

#[test]
fn relative_config_dir_with_relative_data_dir_uses_cwd_as_root() {
    let dir = effective_dir_after_chdir(".", "htdocs", false);
    assert_eq!(dir, ".");
}

#[test]
fn relative_data_dir_without_chroot_chdirs_under_config_dir() {
    let original = "/var/www";
    let dir = data_dir_chdir_path(original, "htdocs", false);
    assert_eq!(dir, "/var/www/htdocs");
}

#[test]
fn relative_data_dir_under_chroot_chdirs_from_jail_root() {
    let dir = data_dir_chdir_path("/", "htdocs", true);
    assert_eq!(dir, "/htdocs");
}

#[test]
fn absolute_data_dir_becomes_serving_root() {
    let dir = effective_dir_after_chdir("/", "/srv/htdocs", true);
    assert_eq!(dir, "/srv/htdocs");
}

#[test]
fn join_follows_path_rules() {
    assert_eq!(join_path("/var/www/", "x"), "/var/www/x");
    assert_eq!(join_path("", "x"), "x");
    assert_eq!(join_path("a", "/b"), "/b");
    assert_eq!(data_dir_chdir_path(".", "htdocs", false), "./htdocs");
}
