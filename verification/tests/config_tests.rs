use thttpd::config::{
    apply_legacy_toggle_order, legacy_toggle_events, normalize_legacy_args, Cli, LegacyToggle,
    ServerConfig, SERVER_SOFTWARE,
};

fn strings(args: &[&str]) -> Vec<String> {
    args.iter().map(|s| s.to_string()).collect()
}

/// The command line that the flags of a normalized argument list set (the
/// flags these tests use take no value).
fn cli_of_flags(args: &[String]) -> Cli {
    let mut cli = Cli::default();
    for a in args.iter().skip(1) {
        match a.as_str() {
            "-r" | "--chroot" => cli.chroot = true,
            "--nor" => cli.no_chroot = true,
            "--symlinks" => cli.symlinks = true,
            "--no-symlinks" => cli.no_symlinks = true,
            "-v" | "--vhost" => cli.vhost = true,
            "--nov" => cli.no_vhost = true,
            "--global-passwd" => cli.global_passwd = true,
            "--no-global-passwd" => cli.no_global_passwd = true,
            other => panic!("unexpected test flag {other}"),
        }
    }
    cli
}

fn config_from_argv(args: &[&str]) -> ServerConfig {
    let normalized = normalize_legacy_args(strings(args));
    let events = legacy_toggle_events(&normalized);
    let parsed = cli_of_flags(&normalized);
    let mut config = ServerConfig::from_cli(&parsed, None).unwrap();
    apply_legacy_toggle_order(&mut config, &events);
    config
}

#[test]
fn defaults_match_legacy_server() {
    let config = ServerConfig::from_cli(&Cli::default(), None).unwrap();
    assert_eq!(config.port, 80);
    assert_eq!(config.charset, "iso-8859-1");
    assert!(config.global_passwd);
    assert!(config.daemonize);
}

#[test]
fn loads_legacy_config_and_applies_cli_overrides() {
    let text = "port=8080 dir=/srv/www vhost # comment\ncharset=utf-8 throttles=/tmp/throttles\n";
    let parsed = Cli {
        config_file: Some("/etc/thttpd.conf".to_string()),
        port: Some(9090),
        ..Cli::default()
    };
    let config = ServerConfig::from_cli(&parsed, Some(text)).unwrap();
    assert_eq!(config.port, 9090);
    assert_eq!(config.dir, "/srv/www");
    assert!(config.vhost);
    assert_eq!(config.charset, "utf-8");
    assert_eq!(config.throttle_file, Some("/tmp/throttles".to_string()));
}

#[test]
fn rejects_unknown_options() {
    let parsed = Cli { config_file: Some("/etc/thttpd.conf".to_string()), ..Cli::default() };
    let error = ServerConfig::from_cli(&parsed, Some("mystery=value\n")).unwrap_err();
    assert!(error.contains("unknown config option"));
    assert_eq!(error, "/etc/thttpd.conf:1: unknown config option 'mystery'");
}

#[test]
fn chroot_implies_no_symlink_check_and_nor_restores() {
    let cfg = ServerConfig::from_cli(&Cli { chroot: true, ..Cli::default() }, None).unwrap();
    assert!(cfg.do_chroot);
    assert!(cfg.no_symlink_check);

    let cfg = ServerConfig::from_cli(&Cli { no_chroot: true, ..Cli::default() }, None).unwrap();
    assert!(!cfg.do_chroot);
    assert!(!cfg.no_symlink_check);
}

#[test]
fn symlink_flags_override_chroot_implication() {
    let cfg = ServerConfig::from_cli(&Cli { chroot: true, symlinks: true, ..Cli::default() }, None)
        .unwrap();
    assert!(cfg.do_chroot);
    assert!(!cfg.no_symlink_check);

    assert!(
        !ServerConfig::from_cli(&Cli { symlinks: true, ..Cli::default() }, None)
            .unwrap()
            .no_symlink_check
    );
    assert!(
        ServerConfig::from_cli(&Cli { no_symlinks: true, ..Cli::default() }, None)
            .unwrap()
            .no_symlink_check
    );
}

#[test]
fn legacy_argv_short_flags_normalize() {
    let legacy = normalize_legacy_args(strings(&[
        "thttpd",
        "-h",
        "example.com",
        "-dd",
        "/srv/data",
        "-g",
        "-s",
        "-nor",
    ]));
    assert_eq!(
        legacy,
        strings(&[
            "thttpd",
            "--hostname",
            "example.com",
            "--data-dir",
            "/srv/data",
            "--global-passwd",
            "--symlinks",
            "--nor",
        ])
    );
    let parsed = Cli {
        hostname: Some("example.com".to_string()),
        data_dir: Some("/srv/data".to_string()),
        global_passwd: true,
        symlinks: true,
        no_chroot: true,
        ..Cli::default()
    };
    let cfg = ServerConfig::from_cli(&parsed, None).unwrap();
    assert_eq!(cfg.hostname.as_deref(), Some("example.com"));
    assert_eq!(cfg.data_dir.as_deref(), Some("/srv/data"));
    assert!(cfg.global_passwd);
    assert!(!cfg.no_symlink_check);
    assert!(!cfg.do_chroot);

    let legacy = normalize_legacy_args(strings(&["thttpd", "-nog", "-nos"]));
    assert_eq!(legacy, strings(&["thttpd", "--no-global-passwd", "--no-symlinks"]));
    let cfg = ServerConfig::from_cli(&cli_of_flags(&legacy), None).unwrap();
    assert!(!cfg.global_passwd);
    assert!(cfg.no_symlink_check);
}

#[test]
fn legacy_chroot_toggles_are_last_wins() {
    let cfg = config_from_argv(&["thttpd", "-r", "-nor"]);
    assert!(!cfg.do_chroot);
    assert!(!cfg.no_symlink_check);

    let cfg = config_from_argv(&["thttpd", "-nor", "-r"]);
    assert!(cfg.do_chroot);
    assert!(cfg.no_symlink_check);

    let cfg = config_from_argv(&["thttpd", "--chroot", "--nor"]);
    assert!(!cfg.do_chroot);
    assert!(!cfg.no_symlink_check);

    let cfg = config_from_argv(&["thttpd", "--nor", "--chroot"]);
    assert!(cfg.do_chroot);
    assert!(cfg.no_symlink_check);
}

#[test]
fn legacy_global_passwd_toggles_are_last_wins() {
    assert!(!config_from_argv(&["thttpd", "-g", "-nog"]).global_passwd);
    assert!(config_from_argv(&["thttpd", "-nog", "-g"]).global_passwd);
    assert!(!config_from_argv(&["thttpd", "--global-passwd", "--no-global-passwd"]).global_passwd);
    assert!(config_from_argv(&["thttpd", "--no-global-passwd", "--global-passwd"]).global_passwd);
}

#[test]
fn legacy_vhost_and_symlink_toggles_are_last_wins() {
    assert!(!config_from_argv(&["thttpd", "-v", "-nov"]).vhost);
    assert!(config_from_argv(&["thttpd", "-nov", "-v"]).vhost);

    assert!(config_from_argv(&["thttpd", "-s", "-nos"]).no_symlink_check);
    assert!(!config_from_argv(&["thttpd", "-nos", "-s"]).no_symlink_check);
    assert!(config_from_argv(&["thttpd", "--symlinks", "--no-symlinks"]).no_symlink_check);
    assert!(!config_from_argv(&["thttpd", "--no-symlinks", "--symlinks"]).no_symlink_check);
}

#[test]
fn config_file_data_dir_and_symlink_options_supported() {
    let parsed = Cli { config_file: Some("/etc/thttpd.conf".to_string()), ..Cli::default() };
    let cfg = ServerConfig::from_cli(&parsed, Some("data_dir=/srv/data symlink nosymlinks\n"))
        .unwrap();
    assert_eq!(cfg.data_dir.as_deref(), Some("/srv/data"));
    assert!(cfg.no_symlink_check);
}

#[test]
fn toggle_events_skip_option_values() {
    let args = strings(&["thttpd", "-p", "-r", "--nor", "-d", "--vhost", "--nov"]);
    assert_eq!(
        legacy_toggle_events(&args),
        vec![LegacyToggle::Chroot(false), LegacyToggle::Vhost(false)]
    );
    assert_eq!(legacy_toggle_events(&strings(&[])), vec![]);
    assert_eq!(legacy_toggle_events(&strings(&["-r"])), vec![]);
}

#[test]
fn config_file_errors_name_the_line() {
    let parsed = Cli { config_file: Some("conf".to_string()), ..Cli::default() };
    let cases = [
        ("\n\nport\n", "conf:3: value required for port option"),
        ("vhost=1\n", "conf:1: no value required for vhost option"),
        ("PORT=http\n", "conf:1: invalid port for PORT option"),
        ("port=70000\n", "conf:1: invalid port for port option"),
        ("max_age=soon\n", "conf:1: invalid integer for max_age option"),
        ("cgilimit=99999999999\n", "conf:1: invalid integer for cgilimit option"),
    ];
    for (text, expected) in cases {
        assert_eq!(ServerConfig::from_cli(&parsed, Some(text)).unwrap_err(), expected);
    }
}

#[test]
fn config_file_names_ignore_case_and_comments() {
    let parsed = Cli { config_file: Some("conf".to_string()), ..Cli::default() };
    let text = "# all comment\r\nPort=+8081 MAX_AGE=-5 CgiLimit=7 #port=1\r\nnoglobalpasswd debug\n";
    let cfg = ServerConfig::from_cli(&parsed, Some(text)).unwrap();
    assert_eq!(cfg.port, 8081);
    assert_eq!(cfg.max_age, -5);
    assert_eq!(cfg.cgi_limit, Some(7));
    assert!(!cfg.global_passwd);
    assert!(!cfg.daemonize);
}

#[test]
fn server_software_string() {
    assert_eq!(SERVER_SOFTWARE, "sthttpd/2.27.0 03oct2014");
}
