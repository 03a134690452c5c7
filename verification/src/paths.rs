//! Where the persistent state lives under the installation root.

use vstd::prelude::*;

verus! {

/// The directory of the persistent package state under the root.
pub open spec fn spec_packages_directory(root: Seq<char>) -> Seq<char> {
    root + "/var/local/packages"@
}

/// The path of the installed-packages catalog.
pub fn get_installed_packages_file_path(root_directory_path: &str) -> (r: String)
    ensures
        r@ == spec_packages_directory(root_directory_path@) + "/installed"@,
{
    let mut s = root_directory_path.to_owned();
    s.append("/var/local/packages");
    s.append("/installed");
    s
}

/// The path of the available-packages catalog.
pub fn get_available_packages_file_path(root_directory_path: &str) -> (r: String)
    ensures
        r@ == spec_packages_directory(root_directory_path@) + "/available"@,
{
    let mut s = root_directory_path.to_owned();
    s.append("/var/local/packages");
    s.append("/available");
    s
}

/// The path of the pending-installation marker.
pub fn get_pending_installation_file_path(root_directory_path: &str) -> (r: String)
    ensures
        r@ == spec_packages_directory(root_directory_path@) + "/pending"@,
{
    let mut s = root_directory_path.to_owned();
    s.append("/var/local/packages");
    s.append("/pending");
    s
}

/// The path of the installed-packages backup copy.
pub fn get_installed_packages_backup_file_path(root_directory_path: &str) -> (r: String)
    ensures
        r@ == spec_packages_directory(root_directory_path@) + "/backup"@,
{
    let mut s = root_directory_path.to_owned();
    s.append("/var/local/packages");
    s.append("/backup");
    s
}

} // verus!
