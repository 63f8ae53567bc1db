//! Verhoeff check digits, with the scheme's tables derived from the
//! dihedral group of order ten rather than written out by hand.
pub mod checksum;
pub mod group;
pub mod laws;
pub mod perm;
pub mod reference;
pub mod tables;

pub use checksum::{extract_digits, verhoeff_generate_check_digit, verhoeff_validate};
pub use group::{build_group_elements, find_label};
pub use perm::{compose, perm_eq, pow};
pub use reference::{compare_tables, standard_tables, Mismatch, TableName};
pub use tables::{build_tables, verhoeff_tables, TableError};
