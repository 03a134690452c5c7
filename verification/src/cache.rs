//! The in-memory cache of both catalogs, together with the paths they
//! were read from.

use vstd::prelude::*;

use crate::packages::Package;
use crate::paths;

verus! {

/// Both catalogs as read at startup, and the paths of the files that
/// hold them.
pub struct Cache {
    pub available_packages_file_path: String,
    pub installed_packages_file_path: String,
    pub pending_installations_file_path: String,
    pub installed_packages_backup_file_path: String,
    pub installed_packages: Vec<Package>,
    pub available_packages: Vec<Package>,
}

impl Cache {
    /// Bundles the catalogs read from the root's state files with the
    /// paths they came from.
    pub fn assemble(root_directory: &str, installed_packages: Vec<Package>, available_packages: Vec<
        Package,
    >) -> (r: Cache)
        ensures
            r.available_packages_file_path@ == paths::spec_packages_directory(root_directory@)
                + "/available"@,
            r.installed_packages_file_path@ == paths::spec_packages_directory(root_directory@)
                + "/installed"@,
            r.pending_installations_file_path@ == paths::spec_packages_directory(root_directory@)
                + "/pending"@,
            r.installed_packages_backup_file_path@ == paths::spec_packages_directory(
                root_directory@,
            ) + "/backup"@,
            r.installed_packages == installed_packages,
            r.available_packages == available_packages,
    {
        Cache {
            available_packages_file_path: paths::get_available_packages_file_path(root_directory),
            installed_packages_file_path: paths::get_installed_packages_file_path(root_directory),
            pending_installations_file_path: paths::get_pending_installation_file_path(
                root_directory,
            ),
            installed_packages_backup_file_path: paths::get_installed_packages_backup_file_path(
                root_directory,
            ),
            installed_packages,
            available_packages,
        }
    }
}

} // verus!
