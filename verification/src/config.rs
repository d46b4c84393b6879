//! Server configuration: the legacy argument spellings, the order-sensitive
//! toggles, the defaults, and the options of the legacy configuration file.
//! Paths are kept as text.

use vstd::prelude::*;
use vstd::string::*;
use crate::text::{
    chars_of, chars_equal, lower_chars, lowercase_chars, concat3, parse_chars_spec,
    parse_int_chars, string_of_chars, words_of, words, split_on, split_chars, next_char,
    find_char, copy_chars, ascii_chars, dec, decimal_text,
};

verus! {

/// Canonical server-software string, shown by `-V`.
pub const SERVER_SOFTWARE: &'static str = "sthttpd/2.27.0 03oct2014";

// ---------------------------------------------------------------- legacy argv

/// The argument list with the legacy single-dash spellings replaced by the
/// canonical long forms; `-h` and `-dd` keep the argument after them as
/// their value.
pub open spec fn normalized_args(args: Seq<Seq<char>>) -> Seq<Seq<char>>
    decreases args.len(),
{
    if args.len() == 0 {
        Seq::empty()
    } else {
        let a = args[0];
        let rest = args.drop_first();
        if a == "-h"@ || a == "-dd"@ {
            let long = if a == "-h"@ { "--hostname"@ } else { "--data-dir"@ };
            if rest.len() > 0 {
                seq![long, rest[0]] + normalized_args(rest.drop_first())
            } else {
                seq![long]
            }
        } else {
            seq![legacy_flag(a)] + normalized_args(rest)
        }
    }
}

/// The long form of a legacy boolean flag; other arguments stay.
pub open spec fn legacy_flag(a: Seq<char>) -> Seq<char> {
    if a == "-nor"@ {
        "--nor"@
    } else if a == "-nov"@ {
        "--nov"@
    } else if a == "-g"@ {
        "--global-passwd"@
    } else if a == "-nog"@ || a == "-noP"@ {
        "--no-global-passwd"@
    } else if a == "-s"@ {
        "--symlinks"@
    } else if a == "-nos"@ {
        "--no-symlinks"@
    } else {
        a
    }
}

pub open spec fn strings_view(v: Seq<String>) -> Seq<Seq<char>> {
    v.map_values(|s: String| s@)
}

fn is_arg(a: &String, lit: &str) -> (r: bool)
    ensures
        r == (a@ == lit@),
{
    let cs = chars_of(a.as_str());
    chars_equal(cs.as_slice(), lit)
}

fn legacy_flag_exec(a: String) -> (r: String)
    ensures
        r@ == legacy_flag(a@),
{
    if is_arg(&a, "-nor") {
        "--nor".to_owned()
    } else if is_arg(&a, "-nov") {
        "--nov".to_owned()
    } else if is_arg(&a, "-g") {
        "--global-passwd".to_owned()
    } else if is_arg(&a, "-nog") || is_arg(&a, "-noP") {
        "--no-global-passwd".to_owned()
    } else if is_arg(&a, "-s") {
        "--symlinks".to_owned()
    } else if is_arg(&a, "-nos") {
        "--no-symlinks".to_owned()
    } else {
        a
    }
}

/// Rewrite legacy single-dash argument spellings into the canonical long
/// forms. Only exact tokens are translated; `-h HOST` and `-dd DIR` take
/// the next argument as their value.
pub fn normalize_legacy_args(args: Vec<String>) -> (r: Vec<String>)
    ensures
        strings_view(r@) == normalized_args(strings_view(args@)),
{
    let ghost all = strings_view(args@);
    let mut out: Vec<String> = Vec::new();
    let mut i: usize = 0;
    let n = args.len();
    assert(all.skip(0) =~= all);
    while i < n
        invariant
            n == args@.len(),
            i <= n,
            all == strings_view(args@),
            normalized_args(all) == strings_view(out@) + normalized_args(all.skip(i as int)),
        decreases n - i,
    {
        let ghost rest = all.skip(i as int);
        let a = args[i].clone();
        assert(rest[0] == a@);
        if is_arg(&a, "-h") || is_arg(&a, "-dd") {
            let long = if is_arg(&a, "-h") { "--hostname".to_owned() } else { "--data-dir".to_owned() };
            out.push(long);
            if i + 1 < n {
                out.push(args[i + 1].clone());
                proof {
                    assert(rest.drop_first()[0] == args@[i + 1]@);
                    assert(rest.drop_first().drop_first() =~= all.skip(i + 2));
                    assert(strings_view(out@) =~= strings_view(out@).drop_last().drop_last().push(
                        strings_view(out@)[out@.len() - 2],
                    ).push(strings_view(out@).last()));
                }
                i += 2;
                assert(normalized_args(all) =~= strings_view(out@) + normalized_args(all.skip(i as int)));
            } else {
                i += 1;
                assert(all.skip(i as int) =~= Seq::<Seq<char>>::empty());
                assert(normalized_args(all) =~= strings_view(out@) + normalized_args(all.skip(i as int)));
            }
        } else {
            out.push(legacy_flag_exec(a));
            assert(rest.drop_first() =~= all.skip(i + 1));
            i += 1;
            assert(normalized_args(all) =~= strings_view(out@) + normalized_args(all.skip(i as int)));
        }
    }
    assert(all.skip(i as int) =~= Seq::<Seq<char>>::empty());
    assert(strings_view(out@) + Seq::<Seq<char>>::empty() =~= strings_view(out@));
    out
}

/// An order-sensitive legacy toggle.
#[derive(Debug, Clone, Copy, PartialEq, Eq, Structural)]
pub enum LegacyToggle {
    Chroot(bool),
    SymlinkCheck(bool),
    Vhost(bool),
    GlobalPasswd(bool),
}

/// What an argument means for the toggles: a toggle, an option whose value
/// follows (and is skipped), or nothing.
pub enum ArgRole {
    Toggle(LegacyToggle),
    TakesValue,
    Other,
}

pub open spec fn takes_value(a: Seq<char>) -> bool {
    a == "-p"@ || a == "--port"@ || a == "-d"@ || a == "--dir"@ || a == "--data-dir"@ || a == "-u"@
        || a == "--user"@ || a == "-l"@ || a == "--log"@ || a == "-c"@ || a == "--cgipat"@ || a
        == "-T"@ || a == "--charset"@ || a == "-P"@ || a == "--p3p"@ || a == "-M"@ || a
        == "--maxage"@ || a == "-C"@ || a == "--config"@ || a == "-t"@ || a == "--throttle-file"@
        || a == "-H"@ || a == "--hostname"@ || a == "-i"@ || a == "--pidfile"@ || a
        == "--cgi-limit"@
}

pub open spec fn toggle_of(a: Seq<char>) -> Option<LegacyToggle> {
    if a == "-r"@ || a == "--chroot"@ {
        Some(LegacyToggle::Chroot(true))
    } else if a == "--nor"@ {
        Some(LegacyToggle::Chroot(false))
    } else if a == "--symlinks"@ {
        Some(LegacyToggle::SymlinkCheck(true))
    } else if a == "--no-symlinks"@ {
        Some(LegacyToggle::SymlinkCheck(false))
    } else if a == "-v"@ || a == "--vhost"@ {
        Some(LegacyToggle::Vhost(true))
    } else if a == "--nov"@ {
        Some(LegacyToggle::Vhost(false))
    } else if a == "--global-passwd"@ {
        Some(LegacyToggle::GlobalPasswd(true))
    } else if a == "--no-global-passwd"@ {
        Some(LegacyToggle::GlobalPasswd(false))
    } else {
        None
    }
}

/// The toggles in `args[k..]`, skipping the value after each option that
/// takes one.
pub open spec fn toggles_from(args: Seq<Seq<char>>, k: int) -> Seq<LegacyToggle>
    decreases args.len() + 1 - k,
{
    if k < 0 || k >= args.len() {
        Seq::empty()
    } else {
        let a = args[k];
        match toggle_of(a) {
            Some(t) => seq![t] + toggles_from(args, k + 1),
            None => if takes_value(a) {
                toggles_from(args, k + 2)
            } else {
                toggles_from(args, k + 1)
            },
        }
    }
}

fn toggle_exec(a: &String) -> (r: Option<LegacyToggle>)
    ensures
        r == toggle_of(a@),
{
    if is_arg(a, "-r") || is_arg(a, "--chroot") {
        Some(LegacyToggle::Chroot(true))
    } else if is_arg(a, "--nor") {
        Some(LegacyToggle::Chroot(false))
    } else if is_arg(a, "--symlinks") {
        Some(LegacyToggle::SymlinkCheck(true))
    } else if is_arg(a, "--no-symlinks") {
        Some(LegacyToggle::SymlinkCheck(false))
    } else if is_arg(a, "-v") || is_arg(a, "--vhost") {
        Some(LegacyToggle::Vhost(true))
    } else if is_arg(a, "--nov") {
        Some(LegacyToggle::Vhost(false))
    } else if is_arg(a, "--global-passwd") {
        Some(LegacyToggle::GlobalPasswd(true))
    } else if is_arg(a, "--no-global-passwd") {
        Some(LegacyToggle::GlobalPasswd(false))
    } else {
        None
    }
}

fn takes_value_exec(a: &String) -> (r: bool)
    ensures
        r == takes_value(a@),
{
    is_arg(a, "-p") || is_arg(a, "--port") || is_arg(a, "-d") || is_arg(a, "--dir") || is_arg(
        a,
        "--data-dir",
    ) || is_arg(a, "-u") || is_arg(a, "--user") || is_arg(a, "-l") || is_arg(a, "--log")
        || is_arg(a, "-c") || is_arg(a, "--cgipat") || is_arg(a, "-T") || is_arg(a, "--charset")
        || is_arg(a, "-P") || is_arg(a, "--p3p") || is_arg(a, "-M") || is_arg(a, "--maxage")
        || is_arg(a, "-C") || is_arg(a, "--config") || is_arg(a, "-t") || is_arg(
        a,
        "--throttle-file",
    ) || is_arg(a, "-H") || is_arg(a, "--hostname") || is_arg(a, "-i") || is_arg(a, "--pidfile")
        || is_arg(a, "--cgi-limit")
}

/// The order-sensitive legacy toggles of an (already normalized) argument
/// list, the program name left out.
pub fn legacy_toggle_events(args: &[String]) -> (r: Vec<LegacyToggle>)
    ensures
        r@ == toggles_from(strings_view(args@), 1),
{
    let ghost all = strings_view(args@);
    let mut events: Vec<LegacyToggle> = Vec::new();
    if args.len() == 0 {
        return events;
    }
    let mut i: usize = 1;
    while i < args.len()
        invariant
            1 <= i <= args@.len(),
            all == strings_view(args@),
            toggles_from(all, 1) == events@ + toggles_from(all, i as int),
        decreases args@.len() - i,
    {
        assert(all[i as int] == args@[i as int]@);
        let ghost i0 = i as int;
        match toggle_exec(&args[i]) {
            Some(t) => {
                events.push(t);
                i += 1;
            },
            None => {
                if takes_value_exec(&args[i]) {
                    i = if i + 1 < args.len() { i + 2 } else { args.len() };
                    assert(toggles_from(all, i0) == toggles_from(all, i0 + 2));
                    assert(toggles_from(all, i0 + 2) == toggles_from(all, i as int));
                } else {
                    i += 1;
                }
            },
        }
        assert(toggles_from(all, 1) =~= events@ + toggles_from(all, i as int));
    }
    assert(toggles_from(all, i as int) =~= Seq::<LegacyToggle>::empty());
    assert(events@ + Seq::<LegacyToggle>::empty() =~= events@);
    events
}

// ---------------------------------------------------------------- configuration

/// The server configuration.
#[derive(Debug, Clone, PartialEq, Eq)]
pub struct ServerConfig {
    pub port: u16,
    pub dir: String,
    pub do_chroot: bool,
    /// When true, skip the symlink-escape check; follows `do_chroot` unless
    /// set on its own.
    pub no_symlink_check: bool,
    /// Directory to move into after chroot, before serving.
    pub data_dir: Option<String>,
    pub user: Option<String>,
    pub logfile: Option<String>,
    pub cgi_pattern: Option<String>,
    pub cgi_limit: Option<i32>,
    pub charset: String,
    pub p3p: Option<String>,
    pub max_age: i32,
    pub vhost: bool,
    pub global_passwd: bool,
    pub url_pattern: Option<String>,
    pub local_pattern: Option<String>,
    pub no_empty_referers: bool,
    pub hostname: Option<String>,
    pub throttle_file: Option<String>,
    pub pidfile: Option<String>,
    pub daemonize: bool,
}

/// The configuration as values.
pub struct ConfigView {
    pub port: u16,
    pub dir: Seq<char>,
    pub do_chroot: bool,
    pub no_symlink_check: bool,
    pub data_dir: Option<Seq<char>>,
    pub user: Option<Seq<char>>,
    pub logfile: Option<Seq<char>>,
    pub cgi_pattern: Option<Seq<char>>,
    pub cgi_limit: Option<i32>,
    pub charset: Seq<char>,
    pub p3p: Option<Seq<char>>,
    pub max_age: i32,
    pub vhost: bool,
    pub global_passwd: bool,
    pub url_pattern: Option<Seq<char>>,
    pub local_pattern: Option<Seq<char>>,
    pub no_empty_referers: bool,
    pub hostname: Option<Seq<char>>,
    pub throttle_file: Option<Seq<char>>,
    pub pidfile: Option<Seq<char>>,
    pub daemonize: bool,
}

pub open spec fn opt_chars(s: Option<String>) -> Option<Seq<char>> {
    match s {
        Some(v) => Some(v@),
        None => None,
    }
}

impl View for ServerConfig {
    type V = ConfigView;

    open spec fn view(&self) -> ConfigView {
        ConfigView {
            port: self.port,
            dir: self.dir@,
            do_chroot: self.do_chroot,
            no_symlink_check: self.no_symlink_check,
            data_dir: opt_chars(self.data_dir),
            user: opt_chars(self.user),
            logfile: opt_chars(self.logfile),
            cgi_pattern: opt_chars(self.cgi_pattern),
            cgi_limit: self.cgi_limit,
            charset: self.charset@,
            p3p: opt_chars(self.p3p),
            max_age: self.max_age,
            vhost: self.vhost,
            global_passwd: self.global_passwd,
            url_pattern: opt_chars(self.url_pattern),
            local_pattern: opt_chars(self.local_pattern),
            no_empty_referers: self.no_empty_referers,
            hostname: opt_chars(self.hostname),
            throttle_file: opt_chars(self.throttle_file),
            pidfile: opt_chars(self.pidfile),
            daemonize: self.daemonize,
        }
    }
}

/// The defaults of the legacy server.
pub open spec fn default_config() -> ConfigView {
    ConfigView {
        port: 80,
        dir: "."@,
        do_chroot: false,
        no_symlink_check: false,
        data_dir: None,
        user: None,
        logfile: None,
        cgi_pattern: None,
        cgi_limit: None,
        charset: "iso-8859-1"@,
        p3p: None,
        max_age: -1i32,
        vhost: false,
        global_passwd: true,
        url_pattern: None,
        local_pattern: None,
        no_empty_referers: false,
        hostname: None,
        throttle_file: None,
        pidfile: None,
        daemonize: true,
    }
}

impl Default for ServerConfig {
    fn default() -> (r: Self)
        ensures
            r@ == default_config(),
    {
        ServerConfig {
            port: 80,
            dir: ".".to_owned(),
            do_chroot: false,
            no_symlink_check: false,
            data_dir: None,
            user: None,
            logfile: None,
            cgi_pattern: None,
            cgi_limit: None,
            charset: "iso-8859-1".to_owned(),
            p3p: None,
            max_age: -1,
            vhost: false,
            global_passwd: true,
            url_pattern: None,
            local_pattern: None,
            no_empty_referers: false,
            hostname: None,
            throttle_file: None,
            pidfile: None,
            daemonize: true,
        }
    }
}

/// The effect of one toggle.
pub open spec fn toggled(c: ConfigView, t: LegacyToggle) -> ConfigView {
    match t {
        LegacyToggle::Chroot(b) => ConfigView { do_chroot: b, no_symlink_check: b, ..c },
        LegacyToggle::SymlinkCheck(b) => ConfigView { no_symlink_check: !b, ..c },
        LegacyToggle::Vhost(b) => ConfigView { vhost: b, ..c },
        LegacyToggle::GlobalPasswd(b) => ConfigView { global_passwd: b, ..c },
    }
}

/// The toggles applied in order.
pub open spec fn toggled_all(c: ConfigView, ts: Seq<LegacyToggle>) -> ConfigView
    decreases ts.len(),
{
    if ts.len() == 0 {
        c
    } else {
        toggled(toggled_all(c, ts.drop_last()), ts.last())
    }
}

/// The fields of the configuration that the legacy toggles set.
pub enum ToggledField {
    Chroot,
    SkipSymlinkCheck,
    Vhost,
    GlobalPasswd,
}

/// The value a toggle gives to a field; `None` when the toggle leaves that
/// field alone.
pub open spec fn toggle_sets(t: LegacyToggle, field: ToggledField) -> Option<bool> {
    match (t, field) {
        (LegacyToggle::Chroot(b), ToggledField::Chroot) => Some(b),
        (LegacyToggle::Chroot(b), ToggledField::SkipSymlinkCheck) => Some(b),
        (LegacyToggle::SymlinkCheck(b), ToggledField::SkipSymlinkCheck) => Some(!b),
        (LegacyToggle::Vhost(b), ToggledField::Vhost) => Some(b),
        (LegacyToggle::GlobalPasswd(b), ToggledField::GlobalPasswd) => Some(b),
        _ => None,
    }
}

/// A toggled field of a configuration.
pub open spec fn toggle_field(c: ConfigView, field: ToggledField) -> bool {
    match field {
        ToggledField::Chroot => c.do_chroot,
        ToggledField::SkipSymlinkCheck => c.no_symlink_check,
        ToggledField::Vhost => c.vhost,
        ToggledField::GlobalPasswd => c.global_passwd,
    }
}

proof fn lemma_toggles_last_wins(c: ConfigView, ts: Seq<LegacyToggle>, i: int, field: ToggledField)
    requires
        0 <= i < ts.len(),
        toggle_sets(ts[i], field) is Some,
        forall|j: int| i < j < ts.len() ==> toggle_sets(#[trigger] ts[j], field) is None,
    ensures
        toggle_field(toggled_all(c, ts), field) == toggle_sets(ts[i], field)->0,
    decreases ts.len(),
{
    if i < ts.len() - 1 {
        assert(toggle_sets(ts[ts.len() - 1], field) is None);
        assert(ts.drop_last()[i] == ts[i]);
        assert forall|j: int| i < j < ts.drop_last().len() implies toggle_sets(
            #[trigger] ts.drop_last()[j],
            field,
        ) is None by {
            assert(ts.drop_last()[j] == ts[j]);
        }
        lemma_toggles_last_wins(c, ts.drop_last(), i, field);
    }
}

proof fn lemma_toggles_keep_rest(c: ConfigView, ts: Seq<LegacyToggle>)
    ensures
        (ConfigView {
            do_chroot: c.do_chroot,
            no_symlink_check: c.no_symlink_check,
            vhost: c.vhost,
            global_passwd: c.global_passwd,
            ..toggled_all(c, ts)
        }) == c,
    decreases ts.len(),
{
    if ts.len() > 0 {
        lemma_toggles_keep_rest(c, ts.drop_last());
    }
}

/// The legacy toggles are last-wins: of the toggles that set a field, the
/// last one decides its value (`-r -nor` leaves chroot off, `-nor -r`
/// turns it on; for symlink checking both the chroot and the symlink
/// toggles count), and every field that no toggle sets keeps its value.
pub proof fn law_legacy_toggles_last_wins(c: ConfigView, ts: Seq<LegacyToggle>, i: int, field: ToggledField)
    requires
        0 <= i < ts.len(),
        toggle_sets(ts[i], field) is Some,
        forall|j: int| i < j < ts.len() ==> toggle_sets(#[trigger] ts[j], field) is None,
    ensures
        toggle_field(toggled_all(c, ts), field) == toggle_sets(ts[i], field)->0,
        (ConfigView {
            do_chroot: c.do_chroot,
            no_symlink_check: c.no_symlink_check,
            vhost: c.vhost,
            global_passwd: c.global_passwd,
            ..toggled_all(c, ts)
        }) == c,
{
    lemma_toggles_last_wins(c, ts, i, field);
    lemma_toggles_keep_rest(c, ts);
}

/// Applies the legacy toggles in the order they were given: the last one
/// of each kind wins.
pub fn apply_legacy_toggle_order(config: &mut ServerConfig, events: &[LegacyToggle])
    ensures
        final(config)@ == toggled_all(old(config)@, events@),
{
    let mut i: usize = 0;
    while i < events.len()
        invariant
            i <= events@.len(),
            config@ == toggled_all(old(config)@, events@.take(i as int)),
        decreases events@.len() - i,
    {
        match events[i] {
            LegacyToggle::Chroot(b) => {
                config.do_chroot = b;
                config.no_symlink_check = b;
            },
            LegacyToggle::SymlinkCheck(b) => {
                config.no_symlink_check = !b;
            },
            LegacyToggle::Vhost(b) => {
                config.vhost = b;
            },
            LegacyToggle::GlobalPasswd(b) => {
                config.global_passwd = b;
            },
        }
        assert(events@.take(i + 1).drop_last() =~= events@.take(i as int));
        i += 1;
    }
    assert(events@.take(i as int) =~= events@);
}

// ---------------------------------------------------------------- config file

pub open spec fn value_required_msg(name: Seq<char>) -> Seq<char> {
    "value required for "@ + name + " option"@
}

pub open spec fn no_value_msg(name: Seq<char>) -> Seq<char> {
    "no value required for "@ + name + " option"@
}

pub open spec fn invalid_port_msg(name: Seq<char>) -> Seq<char> {
    "invalid port for "@ + name + " option"@
}

pub open spec fn invalid_integer_msg(name: Seq<char>) -> Seq<char> {
    "invalid integer for "@ + name + " option"@
}

pub open spec fn unknown_option_msg(name: Seq<char>) -> Seq<char> {
    "unknown config option '"@ + name + "'"@
}

/// The effect of a configuration-file option that takes no value, by its
/// lower-cased name; `None` when the name is not such an option.
pub open spec fn flag_effect(c: ConfigView, key: Seq<char>) -> Option<ConfigView> {
    if key == "debug"@ {
        Some(ConfigView { daemonize: false, ..c })
    } else if key == "chroot"@ {
        Some(ConfigView { do_chroot: true, no_symlink_check: true, ..c })
    } else if key == "nochroot"@ {
        Some(ConfigView { do_chroot: false, no_symlink_check: false, ..c })
    } else if key == "symlink"@ || key == "symlinks"@ {
        Some(ConfigView { no_symlink_check: false, ..c })
    } else if key == "nosymlink"@ || key == "nosymlinks"@ {
        Some(ConfigView { no_symlink_check: true, ..c })
    } else if key == "noemptyreferers"@ {
        Some(ConfigView { no_empty_referers: true, ..c })
    } else if key == "vhost"@ {
        Some(ConfigView { vhost: true, ..c })
    } else if key == "novhost"@ {
        Some(ConfigView { vhost: false, ..c })
    } else if key == "globalpasswd"@ {
        Some(ConfigView { global_passwd: true, ..c })
    } else if key == "noglobalpasswd"@ {
        Some(ConfigView { global_passwd: false, ..c })
    } else {
        None
    }
}

/// The effect of a configuration-file option whose value is kept as text;
/// `None` when the name is not such an option.
pub open spec fn text_effect(c: ConfigView, key: Seq<char>, v: Seq<char>) -> Option<ConfigView> {
    if key == "dir"@ {
        Some(ConfigView { dir: v, ..c })
    } else if key == "data_dir"@ {
        Some(ConfigView { data_dir: Some(v), ..c })
    } else if key == "user"@ {
        Some(ConfigView { user: Some(v), ..c })
    } else if key == "cgipat"@ {
        Some(ConfigView { cgi_pattern: Some(v), ..c })
    } else if key == "urlpat"@ {
        Some(ConfigView { url_pattern: Some(v), ..c })
    } else if key == "localpat"@ {
        Some(ConfigView { local_pattern: Some(v), ..c })
    } else if key == "throttles"@ {
        Some(ConfigView { throttle_file: Some(v), ..c })
    } else if key == "host"@ {
        Some(ConfigView { hostname: Some(v), ..c })
    } else if key == "logfile"@ {
        Some(ConfigView { logfile: Some(v), ..c })
    } else if key == "pidfile"@ {
        Some(ConfigView { pidfile: Some(v), ..c })
    } else if key == "charset"@ {
        Some(ConfigView { charset: v, ..c })
    } else if key == "p3p"@ {
        Some(ConfigView { p3p: Some(v), ..c })
    } else {
        None
    }
}

/// The numeric options.
pub open spec fn is_number_key(key: Seq<char>) -> bool {
    key == "port"@ || key == "cgilimit"@ || key == "max_age"@
}

/// The effect of a numeric option with its value.
pub open spec fn number_effect(c: ConfigView, key: Seq<char>, name: Seq<char>, v: Seq<char>) -> Result<ConfigView, Seq<char>> {
    if key == "port"@ {
        match parse_chars_spec(v, 0, 0xffff) {
            Some(p) => Ok(ConfigView { port: p as u16, ..c }),
            None => Err(invalid_port_msg(name)),
        }
    } else {
        match parse_chars_spec(v, i32::MIN as int, i32::MAX as int) {
            Some(n) => if key == "cgilimit"@ {
                Ok(ConfigView { cgi_limit: Some(n as i32), ..c })
            } else {
                Ok(ConfigView { max_age: n as i32, ..c })
            },
            None => Err(invalid_integer_msg(name)),
        }
    }
}

/// One `name[=value]` option of the configuration file. The name is
/// matched without regard to ASCII case; error messages quote it as given.
pub open spec fn option_effect(c: ConfigView, name: Seq<char>, value: Option<Seq<char>>) -> Result<ConfigView, Seq<char>> {
    let key = lower_chars(name);
    match flag_effect(c, key) {
        Some(c2) => if value is Some {
            Err(no_value_msg(name))
        } else {
            Ok(c2)
        },
        None => if text_effect(c, key, Seq::empty()) is None && !is_number_key(key) {
            Err(unknown_option_msg(name))
        } else {
            match value {
                None => Err(value_required_msg(name)),
                Some(v) => if is_number_key(key) {
                    number_effect(c, key, name, v)
                } else {
                    Ok(text_effect(c, key, v)->0)
                },
            }
        },
    }
}

pub open spec fn opt_str_view(v: Option<&str>) -> Option<Seq<char>> {
    match v {
        Some(s) => Some(s@),
        None => None,
    }
}

fn key_is(key: &Vec<char>, lit: &str) -> (r: bool)
    ensures
        r == (key@ == lit@),
{
    chars_equal(key.as_slice(), lit)
}

impl ServerConfig {
    fn flag_key(key: &Vec<char>) -> (r: bool)
        ensures
            r == (flag_effect(default_config(), key@) is Some),
    {
        key_is(key, "debug") || key_is(key, "chroot") || key_is(key, "nochroot") || key_is(
            key,
            "symlink",
        ) || key_is(key, "symlinks") || key_is(key, "nosymlink") || key_is(key, "nosymlinks")
            || key_is(key, "noemptyreferers") || key_is(key, "vhost") || key_is(key, "novhost")
            || key_is(key, "globalpasswd") || key_is(key, "noglobalpasswd")
    }

    fn text_key(key: &Vec<char>) -> (r: bool)
        ensures
            r == (text_effect(default_config(), key@, Seq::empty()) is Some),
    {
        key_is(key, "dir") || key_is(key, "data_dir") || key_is(key, "user") || key_is(key, "cgipat")
            || key_is(key, "urlpat") || key_is(key, "localpat") || key_is(key, "throttles")
            || key_is(key, "host") || key_is(key, "logfile") || key_is(key, "pidfile") || key_is(
            key,
            "charset",
        ) || key_is(key, "p3p")
    }

    fn apply_flag(&mut self, key: &Vec<char>)
        requires
            flag_effect(old(self)@, key@) is Some,
        ensures
            final(self)@ == flag_effect(old(self)@, key@)->0,
    {
        if key_is(key, "debug") {
            self.daemonize = false;
        } else if key_is(key, "chroot") {
            self.do_chroot = true;
            self.no_symlink_check = true;
        } else if key_is(key, "nochroot") {
            self.do_chroot = false;
            self.no_symlink_check = false;
        } else if key_is(key, "symlink") || key_is(key, "symlinks") {
            self.no_symlink_check = false;
        } else if key_is(key, "nosymlink") || key_is(key, "nosymlinks") {
            self.no_symlink_check = true;
        } else if key_is(key, "noemptyreferers") {
            self.no_empty_referers = true;
        } else if key_is(key, "vhost") {
            self.vhost = true;
        } else if key_is(key, "novhost") {
            self.vhost = false;
        } else if key_is(key, "globalpasswd") {
            self.global_passwd = true;
        } else {
            self.global_passwd = false;
        }
    }

    fn apply_text(&mut self, key: &Vec<char>, v: &str)
        requires
            text_effect(old(self)@, key@, v@) is Some,
        ensures
            final(self)@ == text_effect(old(self)@, key@, v@)->0,
    {
        let t = v.to_owned();
        if key_is(key, "dir") {
            self.dir = t;
        } else if key_is(key, "data_dir") {
            self.data_dir = Some(t);
        } else if key_is(key, "user") {
            self.user = Some(t);
        } else if key_is(key, "cgipat") {
            self.cgi_pattern = Some(t);
        } else if key_is(key, "urlpat") {
            self.url_pattern = Some(t);
        } else if key_is(key, "localpat") {
            self.local_pattern = Some(t);
        } else if key_is(key, "throttles") {
            self.throttle_file = Some(t);
        } else if key_is(key, "host") {
            self.hostname = Some(t);
        } else if key_is(key, "logfile") {
            self.logfile = Some(t);
        } else if key_is(key, "pidfile") {
            self.pidfile = Some(t);
        } else if key_is(key, "charset") {
            self.charset = t;
        } else {
            self.p3p = Some(t);
        }
    }

    /// Applies one `name[=value]` option of the configuration file. On an
    /// error the configuration is left as it was.
    fn apply_config_option(&mut self, name: &str, value: Option<&str>) -> (r: Result<(), String>)
        ensures
            match option_effect(old(self)@, name@, opt_str_view(value)) {
                Ok(c) => r is Ok && final(self)@ == c,
                Err(e) => r is Err && r->Err_0@ == e && final(self)@ == old(self)@,
            },
    {
        let key = lowercase_chars(name);
        if Self::flag_key(&key) {
            if value.is_some() {
                return Err(concat3("no value required for ", name, " option"));
            }
            self.apply_flag(&key);
            return Ok(());
        }
        let number = key_is(&key, "port") || key_is(&key, "cgilimit") || key_is(&key, "max_age");
        if !Self::text_key(&key) && !number {
            return Err(concat3("unknown config option '", name, "'"));
        }
        let v = match value {
            None => {
                return Err(concat3("value required for ", name, " option"));
            },
            Some(v) => v,
        };
        if !number {
            self.apply_text(&key, v);
            return Ok(());
        }
        let cs = chars_of(v);
        if key_is(&key, "port") {
            match parse_int_chars(cs.as_slice(), 0, 0xffff) {
                Some(p) => {
                    self.port = p as u16;
                    Ok(())
                },
                None => Err(concat3("invalid port for ", name, " option")),
            }
        } else {
            match parse_int_chars(cs.as_slice(), -0x8000_0000, 0x7fff_ffff) {
                Some(n) => {
                    if key_is(&key, "cgilimit") {
                        self.cgi_limit = Some(n as i32);
                    } else {
                        self.max_age = n as i32;
                    }
                    Ok(())
                },
                None => Err(concat3("invalid integer for ", name, " option")),
            }
        }
    }
}

/// The name part of a `name[=value]` option: up to the first `=`.
pub open spec fn option_name(w: Seq<char>) -> Seq<char> {
    w.subrange(0, next_char(w, 0, '='))
}

/// The value part of a `name[=value]` option: after the first `=`, if any.
pub open spec fn option_value(w: Seq<char>) -> Option<Seq<char>> {
    let e = next_char(w, 0, '=');
    if e < w.len() {
        Some(w.subrange(e + 1, w.len() as int))
    } else {
        None
    }
}

/// The options `ws[j..]` applied in order, stopping at the first error.
pub open spec fn options_effect(c: ConfigView, ws: Seq<Seq<char>>, j: int) -> Result<ConfigView, Seq<char>>
    decreases ws.len() - j,
{
    if j < 0 || j >= ws.len() {
        Ok(c)
    } else {
        match option_effect(c, option_name(ws[j]), option_value(ws[j])) {
            Ok(c2) => options_effect(c2, ws, j + 1),
            Err(e) => Err(e),
        }
    }
}

/// The configuration after the options `ws[j..]` up to the first that
/// fails (which changes nothing).
pub open spec fn options_partial(c: ConfigView, ws: Seq<Seq<char>>, j: int) -> ConfigView
    decreases ws.len() - j,
{
    if j < 0 || j >= ws.len() {
        c
    } else {
        match option_effect(c, option_name(ws[j]), option_value(ws[j])) {
            Ok(c2) => options_partial(c2, ws, j + 1),
            Err(_) => c,
        }
    }
}

/// The options of one line: the whitespace-separated words before the
/// first `#`.
pub open spec fn line_options(line: Seq<char>) -> Seq<Seq<char>> {
    words(line.subrange(0, next_char(line, 0, '#')))
}

/// The message of an error on line `n` (counted from one) of the file.
pub open spec fn line_error(path: Seq<char>, n: nat, e: Seq<char>) -> Seq<char> {
    path + ":"@ + ascii_chars(dec(n)) + ": "@ + e
}

/// The lines `lines[k..]` applied in order, stopping at the first error.
pub open spec fn lines_effect(c: ConfigView, path: Seq<char>, lines: Seq<Seq<char>>, k: int) -> Result<ConfigView, Seq<char>>
    decreases lines.len() - k,
{
    if k < 0 || k >= lines.len() {
        Ok(c)
    } else {
        match options_effect(c, line_options(lines[k]), 0) {
            Ok(c2) => lines_effect(c2, path, lines, k + 1),
            Err(e) => Err(line_error(path, (k + 1) as nat, e)),
        }
    }
}

/// The configuration after the lines `lines[k..]` up to the first that
/// fails, with the options of that line that came before its failing one.
pub open spec fn lines_partial(c: ConfigView, lines: Seq<Seq<char>>, k: int) -> ConfigView
    decreases lines.len() - k,
{
    if k < 0 || k >= lines.len() {
        c
    } else {
        match options_effect(c, line_options(lines[k]), 0) {
            Ok(c2) => lines_partial(c2, lines, k + 1),
            Err(_) => options_partial(c, line_options(lines[k]), 0),
        }
    }
}

/// The whole configuration file applied line by line. The text is cut at
/// each newline; a carriage return before it is whitespace and falls away
/// with the rest, so the pieces are read as `str::lines` gives them.
pub open spec fn config_text_effect(c: ConfigView, path: Seq<char>, text: Seq<char>) -> Result<ConfigView, Seq<char>> {
    lines_effect(c, path, split_on(text, '\n'), 0)
}

impl ServerConfig {
    /// Applies the options of one line.
    fn apply_config_line(&mut self, line: &Vec<char>) -> (r: Result<(), String>)
        ensures
            match options_effect(old(self)@, line_options(line@), 0) {
                Ok(c) => r is Ok && final(self)@ == c,
                Err(e) => r is Err && r->Err_0@ == e && final(self)@ == options_partial(old(self)@, line_options(line@), 0),
            },
    {
        let hash = find_char(line.as_slice(), 0, '#');
        let before = copy_chars(line.as_slice(), 0, hash);
        let ws = words_of(before.as_slice());
        let ghost wsv = line_options(line@);
        let ghost c0 = self@;
        assert(before@ =~= line@.subrange(0, next_char(line@, 0, '#')));
        let mut j: usize = 0;
        while j < ws.len()
            invariant
                j <= ws@.len(),
                ws@.len() == wsv.len(),
                forall|i: int| 0 <= i < ws@.len() ==> #[trigger] ws@[i]@ == wsv[i],
                options_effect(c0, wsv, 0) == options_effect(self@, wsv, j as int),
                options_partial(c0, wsv, 0) == options_partial(self@, wsv, j as int),
                c0 == old(self)@,
                wsv == line_options(line@),
            decreases ws@.len() - j,
        {
            let w = &ws[j];
            assert(w@ == wsv[j as int]);
            let e = find_char(w.as_slice(), 0, '=');
            let name = string_of_chars(w.as_slice(), 0, e);
            let ghost cj = self@;
            assert(name@ == option_name(wsv[j as int]));
            let r = if e < w.len() {
                let value = string_of_chars(w.as_slice(), e + 1, w.len());
                assert(Some(value@) == option_value(wsv[j as int]));
                self.apply_config_option(name.as_str(), Some(value.as_str()))
            } else {
                self.apply_config_option(name.as_str(), None)
            };
            match r {
                Ok(()) => {},
                Err(msg) => {
                    assert(options_effect(cj, wsv, j as int) == Err::<ConfigView, Seq<char>>(msg@));
                    return Err(msg);
                },
            }
            j += 1;
        }
        Ok(())
    }

    /// Applies the text of a configuration file, line by line; `path` names
    /// the file in error messages. After an error the configuration holds
    /// what the lines and options before the failing one set.
    pub fn apply_config_text(&mut self, path: &str, contents: &str) -> (r: Result<(), String>)
        ensures
            match config_text_effect(old(self)@, path@, contents@) {
                Ok(c) => r is Ok && final(self)@ == c,
                Err(e) => r is Err && r->Err_0@ == e && final(self)@ == lines_partial(
                    old(self)@,
                    split_on(contents@, '\n'),
                    0,
                ),
            },
    {
        let cs = chars_of(contents);
        let lines = split_chars(cs.as_slice(), '\n');
        let ghost ls = split_on(contents@, '\n');
        let ghost c0 = self@;
        let mut k: usize = 0;
        while k < lines.len()
            invariant
                k <= lines@.len(),
                lines@.len() == ls.len(),
                forall|i: int| 0 <= i < lines@.len() ==> #[trigger] lines@[i]@ == ls[i],
                lines_effect(c0, path@, ls, 0) == lines_effect(self@, path@, ls, k as int),
                lines_partial(c0, ls, 0) == lines_partial(self@, ls, k as int),
                c0 == old(self)@,
                ls == split_on(contents@, '\n'),
            decreases lines@.len() - k,
        {
            assert(lines@[k as int]@ == ls[k as int]);
            let ghost ck = self@;
            match self.apply_config_line(&lines[k]) {
                Ok(()) => {},
                Err(e) => {
                    let n = decimal_text((k + 1) as u64);
                    let mut msg = path.to_owned();
                    msg.append(":");
                    msg.append(n.as_str());
                    msg.append(": ");
                    msg.append(e.as_str());
                    assert(lines_effect(ck, path@, ls, k as int) == Err::<ConfigView, Seq<char>>(msg@));
                    return Err(msg);
                },
            }
            k += 1;
        }
        Ok(())
    }
}

// ---------------------------------------------------------------- command line

/// The parsed command line, as plain values.
#[derive(Debug, Clone)]
pub struct Cli {
    pub port: Option<u16>,
    pub dir: Option<String>,
    pub chroot: bool,
    pub no_chroot: bool,
    /// Legacy `-dd`: data directory to move into after chroot.
    pub data_dir: Option<String>,
    /// Legacy `-s`: perform symlink checks.
    pub symlinks: bool,
    /// Legacy `-nos`: skip symlink checks.
    pub no_symlinks: bool,
    pub user: Option<String>,
    pub logfile: Option<String>,
    pub cgipat: Option<String>,
    pub charset: Option<String>,
    pub p3p: Option<String>,
    pub max_age: Option<i32>,
    pub no_vhost: bool,
    pub vhost: bool,
    /// Legacy `-g`: enable global password checking.
    pub global_passwd: bool,
    /// Legacy `-nog` / `-noP`: disable global password checking.
    pub no_global_passwd: bool,
    pub config_file: Option<String>,
    pub debug: bool,
    pub throttle_file: Option<String>,
    pub hostname: Option<String>,
    pub pidfile: Option<String>,
    pub cgi_limit: Option<i32>,
    /// Legacy `-V`: print the server software string and exit.
    pub legacy_version: bool,
}

impl Default for Cli {
    fn default() -> (r: Self)
        ensures
            r.port is None && r.dir is None && !r.chroot && !r.no_chroot && r.data_dir is None
                && !r.symlinks && !r.no_symlinks && r.user is None && r.logfile is None
                && r.cgipat is None && r.charset is None && r.p3p is None && r.max_age is None
                && !r.no_vhost && !r.vhost && !r.global_passwd && !r.no_global_passwd
                && r.config_file is None && !r.debug && r.throttle_file is None
                && r.hostname is None && r.pidfile is None && r.cgi_limit is None
                && !r.legacy_version,
    {
        Cli {
            port: None,
            dir: None,
            chroot: false,
            no_chroot: false,
            data_dir: None,
            symlinks: false,
            no_symlinks: false,
            user: None,
            logfile: None,
            cgipat: None,
            charset: None,
            p3p: None,
            max_age: None,
            no_vhost: false,
            vhost: false,
            global_passwd: false,
            no_global_passwd: false,
            config_file: None,
            debug: false,
            throttle_file: None,
            hostname: None,
            pidfile: None,
            cgi_limit: None,
            legacy_version: false,
        }
    }
}

/// The explicit command-line settings of the paths and names, over `c`.
pub open spec fn cli_text_overrides(c: ConfigView, cli: Cli) -> ConfigView {
    let c = match cli.dir { Some(d) => ConfigView { dir: d@, ..c }, None => c };
    let c = match cli.data_dir { Some(d) => ConfigView { data_dir: Some(d@), ..c }, None => c };
    let c = match cli.user { Some(v) => ConfigView { user: Some(v@), ..c }, None => c };
    let c = match cli.logfile { Some(v) => ConfigView { logfile: Some(v@), ..c }, None => c };
    let c = match cli.cgipat { Some(v) => ConfigView { cgi_pattern: Some(v@), ..c }, None => c };
    let c = match cli.charset { Some(v) => ConfigView { charset: v@, ..c }, None => c };
    let c = match cli.p3p { Some(v) => ConfigView { p3p: Some(v@), ..c }, None => c };
    let c = match cli.hostname { Some(v) => ConfigView { hostname: Some(v@), ..c }, None => c };
    let c = match cli.throttle_file { Some(v) => ConfigView { throttle_file: Some(v@), ..c }, None => c };
    match cli.pidfile { Some(v) => ConfigView { pidfile: Some(v@), ..c }, None => c }
}

/// The port and the chroot and symlink switches of the command line, over
/// `c`. The `-s` / `-nos` switches come after `-r` / `-nor`, so they win
/// over the chroot implication.
pub open spec fn cli_chroot_overrides(c: ConfigView, cli: Cli) -> ConfigView {
    let c = match cli.port { Some(p) => ConfigView { port: p, ..c }, None => c };
    let c = if cli.chroot { ConfigView { do_chroot: true, no_symlink_check: true, ..c } } else { c };
    let c = if cli.no_chroot { ConfigView { do_chroot: false, no_symlink_check: false, ..c } } else { c };
    let c = if cli.symlinks { ConfigView { no_symlink_check: false, ..c } } else { c };
    if cli.no_symlinks { ConfigView { no_symlink_check: true, ..c } } else { c }
}

/// The other switches and numbers of the command line, over `c`; each "no"
/// switch comes after its "yes" switch.
pub open spec fn cli_switch_overrides(c: ConfigView, cli: Cli) -> ConfigView {
    let c = match cli.cgi_limit { Some(n) => ConfigView { cgi_limit: Some(n), ..c }, None => c };
    let c = match cli.max_age { Some(n) => ConfigView { max_age: n, ..c }, None => c };
    let c = if cli.vhost { ConfigView { vhost: true, ..c } } else { c };
    let c = if cli.no_vhost { ConfigView { vhost: false, ..c } } else { c };
    let c = if cli.global_passwd { ConfigView { global_passwd: true, ..c } } else { c };
    let c = if cli.no_global_passwd { ConfigView { global_passwd: false, ..c } } else { c };
    if cli.debug { ConfigView { daemonize: false, ..c } } else { c }
}

/// All explicit command-line settings over `c`.
pub open spec fn cli_overrides(c: ConfigView, cli: Cli) -> ConfigView {
    cli_switch_overrides(cli_chroot_overrides(cli_text_overrides(c, cli), cli), cli)
}

/// What `from_cli` gives: the defaults, then the configuration file (when
/// the command line names one), then the explicit command-line settings.
pub open spec fn config_from_cli(cli: Cli, text: Option<Seq<char>>) -> Result<ConfigView, Seq<char>> {
    match (cli.config_file, text) {
        (Some(path), Some(t)) => match config_text_effect(default_config(), path@, t) {
            Ok(c) => Ok(cli_overrides(c, cli)),
            Err(e) => Err(e),
        },
        _ => Ok(cli_overrides(default_config(), cli)),
    }
}

fn clone_opt(v: &Option<String>) -> (r: Option<String>)
    ensures
        opt_chars(r) == opt_chars(*v),
{
    match v {
        Some(s) => Some(s.clone()),
        None => None,
    }
}

impl ServerConfig {
    #[verifier::rlimit(60)]
    fn apply_cli_text(&mut self, cli: &Cli)
        ensures
            final(self)@ == cli_text_overrides(old(self)@, *cli),
    {
        if let Some(d) = &cli.dir {
            self.dir = d.clone();
        }
        if cli.data_dir.is_some() {
            self.data_dir = clone_opt(&cli.data_dir);
        }
        if cli.user.is_some() {
            self.user = clone_opt(&cli.user);
        }
        if cli.logfile.is_some() {
            self.logfile = clone_opt(&cli.logfile);
        }
        if cli.cgipat.is_some() {
            self.cgi_pattern = clone_opt(&cli.cgipat);
        }
        if let Some(v) = &cli.charset {
            self.charset = v.clone();
        }
        if cli.p3p.is_some() {
            self.p3p = clone_opt(&cli.p3p);
        }
        if cli.hostname.is_some() {
            self.hostname = clone_opt(&cli.hostname);
        }
        if cli.throttle_file.is_some() {
            self.throttle_file = clone_opt(&cli.throttle_file);
        }
        if cli.pidfile.is_some() {
            self.pidfile = clone_opt(&cli.pidfile);
        }
    }

    fn apply_cli_chroot(&mut self, cli: &Cli)
        ensures
            final(self)@ == cli_chroot_overrides(old(self)@, *cli),
    {
        if let Some(port) = cli.port {
            self.port = port;
        }
        if cli.chroot {
            self.do_chroot = true;
            self.no_symlink_check = true;
        }
        if cli.no_chroot {
            self.do_chroot = false;
            self.no_symlink_check = false;
        }
        if cli.symlinks {
            self.no_symlink_check = false;
        }
        if cli.no_symlinks {
            self.no_symlink_check = true;
        }
    }

    #[verifier::rlimit(60)]
    fn apply_cli_switches(&mut self, cli: &Cli)
        ensures
            final(self)@ == cli_switch_overrides(old(self)@, *cli),
    {
        if let Some(limit) = cli.cgi_limit {
            self.cgi_limit = Some(limit);
        }
        if let Some(max_age) = cli.max_age {
            self.max_age = max_age;
        }
        if cli.vhost {
            self.vhost = true;
        }
        if cli.no_vhost {
            self.vhost = false;
        }
        if cli.global_passwd {
            self.global_passwd = true;
        }
        if cli.no_global_passwd {
            self.global_passwd = false;
        }
        if cli.debug {
            self.daemonize = false;
        }
    }

    /// The configuration that a command line asks for: the defaults, then
    /// the configuration file named by `cli.config_file`, whose text the
    /// caller has read into `config_text`, then the explicit command-line
    /// settings. An error in the file is reported as `path:line: message`.
    pub fn from_cli(cli: &Cli, config_text: Option<&str>) -> (r: Result<Self, String>)
        requires
            cli.config_file is Some <==> config_text is Some,
        ensures
            match config_from_cli(*cli, opt_str_view(config_text)) {
                Ok(c) => r is Ok && r->Ok_0@ == c,
                Err(e) => r is Err && r->Err_0@ == e,
            },
    {
        let mut config = Self::default();
        if let Some(path) = &cli.config_file {
            if let Some(text) = config_text {
                match config.apply_config_text(path.as_str(), text) {
                    Ok(()) => {},
                    Err(e) => {
                        return Err(e);
                    },
                }
            }
        }
        config.apply_cli_text(cli);
        config.apply_cli_chroot(cli);
        config.apply_cli_switches(cli);
        Ok(config)
    }
}

} // verus!
