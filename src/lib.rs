//! A package manager core for rooted devices: the package catalog, the
//! installed-package ledger, content lookup, dependency resolution and the
//! decisions of install and uninstall transactions.

mod catalog;
mod checksum;
mod compat;
mod error;
mod ledger;
mod locator;
mod resolver;
mod search;
mod session;
mod size;
mod transaction;

pub use catalog::{
    lemma_name_lt_irreflexive, lemma_name_lt_transitive, less_than, list_contains, name_lt, names_of,
    Artifact, Catalog, Package,
};
pub use checksum::{digest_matches, hex_digit, hex_lower, sha256_of};
pub use compat::{
    api_error, api_level_of, blank, check_api_compatibility, check_architecture, decimal_value, is_digit,
    is_blank, is_space, is_supported_arch, parse_api_level, unsigned_part,
};
pub use error::PieError;
pub use ledger::{copy_strings, lemma_uninstall_twice, InstalledPackage, InstalledView, Ledger};
pub use locator::{
    content_matches, ends_with, find_installed_by_content, find_package_by_content,
    has_installed_provider, has_provider, is_first_installed_provider, is_first_provider,
    lemma_bin_path_provides, lemma_no_suffix_no_match, package_provides, path_matches, provides,
};
pub use resolver::{
    dependencies_first, is_chain, is_schedule, lemma_diamond_order,
    lemma_no_dependencies_empty_schedule, lemma_schedule_covers, needs, reaches, resolve_dependencies,
};
pub use search::{contains_text, is_infix, lower_of, name_matches, search_by_name};
pub use session::{
    at_compat, at_conflicts, at_fetch, at_plan, at_removal, at_target, lemma_installed_is_no_op,
    resolution_fails, same_setting, Action, InstallSession, Outcome, Phase,
};
pub use size::{
    decimal_text, digit_char, format_size, rounded_tenths, size_text, unit_bytes, unit_name, unit_of,
};
pub use transaction::{
    accept_digest, accept_download, download_size_of, entry_of, installed_size_of, plan_install,
    prepare_install, resolve_install_target, resolve_uninstall_target, saturate, select_artifact,
    stage_conflicts, staged_conflicts, total_download, total_installed, InstallPlan, Preparation,
};
