use vstd::prelude::*;

verus! {

/// Relies on `camino::Utf8Path::is_symlink`: whether `path` currently names
/// a symbolic link. The answer depends on the filesystem's state, so nothing
/// is promised of it.
#[verifier::external_body]
pub(crate) fn fs_is_symlink(path: &str) -> bool {
    camino::Utf8Path::new(path).is_symlink()
}

/// Relies on `nix::unistd::access` with `R_OK`: whether the process may read
/// `path`. Depends on the filesystem's state, so nothing is promised.
#[verifier::external_body]
pub(crate) fn fs_can_read(path: &str) -> bool {
    nix::unistd::access(path, nix::unistd::AccessFlags::R_OK).is_ok()
}

/// Relies on `nix::unistd::access` with `W_OK`: whether the process may
/// write to `path` (asked of a root's parent directory before deleting).
/// Depends on the filesystem's state, so nothing is promised.
#[verifier::external_body]
pub(crate) fn fs_can_write(path: &str) -> bool {
    nix::unistd::access(path, nix::unistd::AccessFlags::W_OK).is_ok()
}

/// Relies on `camino::Utf8Path::read_link_utf8`: reads a symlink's immediate
/// target, failing when the path is no symlink, cannot be read, or the
/// target is not UTF-8. The outcome depends on the filesystem's state, so
/// nothing is promised; a failure is converted to its display text.
#[verifier::external_body]
pub(crate) fn fs_read_link(path: &str) -> Result<String, String> {
    match camino::Utf8Path::new(path).read_link_utf8() {
        Ok(t) => Ok(t.into_string()),
        Err(e) => Err(format!("{e}")),
    }
}

} // verus!
