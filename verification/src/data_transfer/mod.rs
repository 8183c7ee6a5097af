//! Export / import of space data: the `.pbdata` container, the import lineage
//! map, selection closure and the import mode contract.

pub mod package;
pub mod lineage;
pub mod datasets;
pub mod types;
pub mod catalog;
pub mod json_shape;
pub mod manifest;
pub mod backup;
pub mod package_view;
pub mod export_catalog;
pub mod records;
pub mod storage_files;
pub mod revision;
pub mod settings_dataset;
pub mod assembly;
pub mod import_plan;
pub mod session;
pub mod import_checks;
pub mod views;
pub mod merge;
