//! Resolves the third-party dependencies of a project to the license files
//! found in their source trees and assembles a consolidated report.

pub mod matcher;
pub mod metadata;
pub mod paths;
pub mod report;
pub mod resolve;
pub mod scan;
pub mod seq_util;

pub use matcher::license_ext;
pub use matcher::license_file;
pub use matcher::license_filename;
pub use report::colorize;
pub use report::run;
pub use resolve::find_packages;
