//! Where the server serves from once it has moved into its data directory.
//! Paths are handled as text, with `Path::join` semantics: an absolute path
//! replaces the base, a relative one is appended after a separator.

use vstd::prelude::*;
use vstd::string::*;
use crate::text::push_char;

verus! {

pub open spec fn path_is_absolute(p: Seq<char>) -> bool {
    p.len() > 0 && p[0] == '/'
}

/// `Path::join`: an absolute `rel` replaces `base`; otherwise `rel` follows
/// `base`, with a `/` between them unless `base` is empty or already ends
/// with one.
pub open spec fn path_join(base: Seq<char>, rel: Seq<char>) -> Seq<char> {
    if path_is_absolute(rel) {
        rel
    } else if base.len() == 0 || base.last() == '/' {
        base + rel
    } else {
        base + seq!['/'] + rel
    }
}

fn is_absolute(p: &str) -> (r: bool)
    ensures
        r == path_is_absolute(p@),
{
    p.unicode_len() > 0 && p.get_char(0) == '/'
}

/// `Path::join` on text paths.
pub fn join_path(base: &str, rel: &str) -> (r: String)
    ensures
        r@ == path_join(base@, rel@),
{
    if is_absolute(rel) {
        return rel.to_owned();
    }
    let n = base.unicode_len();
    let mut out = base.to_owned();
    if n > 0 && base.get_char(n - 1) != '/' {
        push_char(&mut out, '/');
    }
    out.append(rel);
    out
}

/// The serving root after moving into `data_dir`: an absolute `data_dir`
/// is the root itself; under chroot a relative one hangs below `/`; without
/// chroot it hangs below an absolute `config_dir`, and with a relative
/// `config_dir` the root is `.` (the moves already went there).
pub open spec fn effective_dir(config_dir: Seq<char>, data_dir: Seq<char>, do_chroot: bool) -> Seq<char> {
    if path_is_absolute(data_dir) {
        data_dir
    } else if do_chroot {
        path_join(seq!['/'], data_dir)
    } else if path_is_absolute(config_dir) {
        path_join(config_dir, data_dir)
    } else {
        seq!['.']
    }
}

/// The directory to move into for `data_dir`.
pub open spec fn chdir_target(config_dir: Seq<char>, data_dir: Seq<char>, do_chroot: bool) -> Seq<char> {
    if path_is_absolute(data_dir) {
        data_dir
    } else if do_chroot {
        path_join(seq!['/'], data_dir)
    } else {
        path_join(config_dir, data_dir)
    }
}

/// Resolve the effective serving root after moving into `data_dir`.
pub fn effective_dir_after_chdir(config_dir: &str, data_dir: &str, do_chroot: bool) -> (r: String)
    ensures
        r@ == effective_dir(config_dir@, data_dir@, do_chroot),
{
    if is_absolute(data_dir) {
        data_dir.to_owned()
    } else if do_chroot {
        let r = join_path("/", data_dir);
        proof {
            reveal_strlit("/");
            assert("/"@ =~= seq!['/']);
        }
        r
    } else if is_absolute(config_dir) {
        join_path(config_dir, data_dir)
    } else {
        let r = ".".to_owned();
        proof {
            reveal_strlit(".");
            assert("."@ =~= seq!['.']);
        }
        r
    }
}

/// The directory to move into for `data_dir`.
pub fn data_dir_chdir_path(config_dir: &str, data_dir: &str, do_chroot: bool) -> (r: String)
    ensures
        r@ == chdir_target(config_dir@, data_dir@, do_chroot),
{
    if is_absolute(data_dir) {
        data_dir.to_owned()
    } else if do_chroot {
        let r = join_path("/", data_dir);
        proof {
            reveal_strlit("/");
            assert("/"@ =~= seq!['/']);
        }
        r
    } else {
        join_path(config_dir, data_dir)
    }
}

/// Where the server serves from is where it moved to, except with a
/// relative configured directory and no chroot, where it serves from `.`.
pub proof fn law_serving_root_is_chdir_target(config_dir: Seq<char>, data_dir: Seq<char>, do_chroot: bool)
    requires
        path_is_absolute(data_dir) || do_chroot || path_is_absolute(config_dir),
    ensures
        effective_dir(config_dir, data_dir, do_chroot) == chdir_target(config_dir, data_dir, do_chroot),
{
}

} // verus!
