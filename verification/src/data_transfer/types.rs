//! Package data types: transport policies, the export catalog and the
//! export selection.

use vstd::prelude::*;

use crate::text::{str_eq, views};

verus! {

/// How a dataset may travel in a package.
#[derive(Clone, Copy, Debug, PartialEq, Eq)]
pub enum TransportPolicy {
    /// Portable: stable ids, no device-local facts.
    Portable,
    /// Device-local: paths, ports, binaries; only declared, never carried.
    DeviceLocal,
    /// Secret: credentials; carried only when the user opts in.
    Secret,
    /// Sensitive content: portable, but the import preview must say so.
    SensitiveContent,
    /// History: portable, the importing side may trim it.
    History,
}

/// A dependency edge: `from_id` refers to `to_id`.
#[derive(Debug, PartialEq, Eq)]
pub struct DependencyEdge {
    /// Dependency kind (such as `credential`).
    pub kind: String,
    /// Referring id.
    pub from_id: String,
    /// Referred id.
    pub to_id: String,
}

/// A selectable catalog entry.
#[derive(Debug, PartialEq, Eq)]
pub struct CatalogEntry {
    /// Dataset name (such as `ssh.profiles`).
    pub dataset: String,
    /// Record id.
    pub id: String,
    /// Display name.
    pub label: String,
    /// One line of detail.
    pub detail: String,
    /// What this entry refers to.
    pub dependencies: Vec<DependencyEdge>,
    /// Note to complete later, if any.
    pub note: Option<String>,
}

/// A dataset follows another: edges of `kind` point into `dataset`.
#[derive(Debug, PartialEq, Eq)]
pub struct DatasetPull {
    /// Edge kind.
    pub kind: String,
    /// Dataset the edges point into.
    pub dataset: String,
}

/// An exportable dataset as an adapter declares it.
#[derive(Debug, PartialEq, Eq)]
pub struct DatasetDescriptor {
    /// Dataset name (`<owner>.<collection>`).
    pub name: String,
    /// Display text.
    pub label: String,
    /// Owner.
    pub owner: String,
    /// Transport policy.
    pub policy: TransportPolicy,
    /// Logical schema version.
    pub schema_version: u32,
    /// May be ticked on its own.
    pub selectable: bool,
    /// Holds secrets.
    pub contains_secret: bool,
    /// Ticked by default (whole datasets).
    pub default_selected: bool,
    /// Which datasets its records refer to.
    pub pulls: Vec<DatasetPull>,
    /// Why it cannot be ticked on its own, if so.
    pub note: Option<String>,
    /// Records this space can export.
    pub record_count: usize,
    /// Entries this space offers.
    pub entries: Vec<CatalogEntry>,
}

impl DatasetDescriptor {
    /// What the front end shows of the dataset (no entries).
    pub fn summary(&self) -> (r: DatasetSummary)
        ensures
            summarizes(r, *self),
    {
        DatasetSummary {
            name: self.name.clone(),
            label: self.label.clone(),
            owner: self.owner.clone(),
            policy: self.policy,
            schema_version: self.schema_version,
            selectable: self.selectable,
            contains_secret: self.contains_secret,
            default_selected: self.default_selected,
            note: match &self.note {
                Some(n) => Some(n.clone()),
                None => None,
            },
            record_count: self.record_count,
        }
    }
}

/// A dataset as the export dialog lists it (without its entries).
#[derive(Debug, PartialEq, Eq)]
pub struct DatasetSummary {
    /// Dataset name.
    pub name: String,
    /// Display text.
    pub label: String,
    /// Owner.
    pub owner: String,
    /// Transport policy.
    pub policy: TransportPolicy,
    /// Logical schema version.
    pub schema_version: u32,
    /// May be ticked on its own.
    pub selectable: bool,
    /// Holds secrets.
    pub contains_secret: bool,
    /// Ticked by default.
    pub default_selected: bool,
    /// Why it cannot be ticked on its own, if so.
    pub note: Option<String>,
    /// Records this space can export (not the final count: followers depend on the ticks).
    pub record_count: usize,
}

/// `s` is the summary of `d`.
pub open spec fn summarizes(s: DatasetSummary, d: DatasetDescriptor) -> bool {
    &&& s.name == d.name
    &&& s.label == d.label
    &&& s.owner == d.owner
    &&& s.policy == d.policy
    &&& s.schema_version == d.schema_version
    &&& s.selectable == d.selectable
    &&& s.contains_secret == d.contains_secret
    &&& s.default_selected == d.default_selected
    &&& s.note == d.note
    &&& s.record_count == d.record_count
}

/// The export catalog the front end renders.
#[derive(Debug, PartialEq, Eq)]
pub struct ExportCatalog {
    /// Source space id.
    pub source_space_id: String,
    /// Source space display name.
    pub source_space_name: String,
    /// The exportable datasets.
    pub datasets: Vec<DatasetSummary>,
    /// Every candidate entry (grouped by the front end; selectable as its dataset is).
    pub entries: Vec<CatalogEntry>,
    /// Default selection.
    pub defaults: ExportSelection,
    /// Structural warnings (nothing to export; kinds that stay on this device).
    pub warnings: Vec<String>,
}

/// One selected dataset and the ids ticked in it.
#[derive(Debug, PartialEq, Eq)]
pub struct SelectionEntry {
    /// Dataset name.
    pub dataset: String,
    /// Ticked record ids.
    pub ids: Vec<String>,
}

/// The export selection sent by the front end.
#[derive(Debug, PartialEq, Eq)]
pub struct ExportSelection {
    /// Datasets ticked entry by entry.
    pub entries: Vec<SelectionEntry>,
    /// Datasets ticked as a whole.
    pub datasets: Vec<String>,
    /// Write the referenced credentials into the package.
    pub include_credentials: bool,
}

impl ExportSelection {
    /// Nothing ticked; credentials are carried by default.
    pub fn empty() -> (r: ExportSelection)
        ensures
            r.entries@.len() == 0,
            r.datasets@.len() == 0,
            r.include_credentials,
    {
        ExportSelection { entries: Vec::new(), datasets: Vec::new(), include_credentials: true }
    }
}

/// The import selection sent by the front end: the datasets to bring in;
/// every other dataset of the package is excluded and reported back.
#[derive(Debug, PartialEq, Eq)]
pub struct ImportSelection {
    /// Names of the datasets to import.
    pub datasets: Vec<String>,
}

impl ImportSelection {
    /// Whether the dataset is selected.
    pub fn includes(&self, dataset: &str) -> (r: bool)
        ensures
            r == views(self.datasets@).contains(dataset@),
    {
        let mut i: usize = 0;
        while i < self.datasets.len()
            invariant
                i <= self.datasets@.len(),
                forall|k: int| 0 <= k < i ==> (#[trigger] self.datasets@[k])@ != dataset@,
            decreases self.datasets@.len() - i,
        {
            if str_eq(self.datasets[i].as_str(), dataset) {
                assert(views(self.datasets@)[i as int] == dataset@);
                return true;
            }
            i = i + 1;
        }
        proof {
            if views(self.datasets@).contains(dataset@) {
                let k = choose|k: int| 0 <= k < views(self.datasets@).len() && views(self.datasets@)[k] == dataset@;
                assert(self.datasets@[k]@ == dataset@);
            }
        }
        false
    }
}

/// A resolved selection: dataset name to record ids (empty: the whole
/// dataset), names ascending, ids ascending within a dataset.
#[derive(Debug, PartialEq, Eq)]
pub struct ResolvedSelection {
    /// Dataset name and ids.
    pub datasets: Vec<(String, Vec<String>)>,
    /// Write the credential records into the package.
    pub include_credentials: bool,
}

impl ResolvedSelection {
    /// Whether the dataset goes into the package.
    pub fn includes(&self, dataset: &str) -> (r: bool)
        ensures
            r == exists|i: int| 0 <= i < self.datasets@.len() && (#[trigger] self.datasets@[i]).0@ == dataset@,
    {
        let mut i: usize = 0;
        while i < self.datasets.len()
            invariant
                i <= self.datasets@.len(),
                forall|k: int| 0 <= k < i ==> (#[trigger] self.datasets@[k]).0@ != dataset@,
            decreases self.datasets@.len() - i,
        {
            if str_eq(self.datasets[i].0.as_str(), dataset) {
                return true;
            }
            i = i + 1;
        }
        false
    }

    /// The ids to carry for the dataset (empty for a whole dataset or one not included).
    pub fn ids_of(&self, dataset: &str) -> (r: &[String])
        ensures
            (exists|i: int| 0 <= i < self.datasets@.len() && (#[trigger] self.datasets@[i]).0@ == dataset@) ==> exists|i: int|
                0 <= i < self.datasets@.len() && (#[trigger] self.datasets@[i]).0@ == dataset@ && r@ == self.datasets@[i].1@,
            (forall|i: int| 0 <= i < self.datasets@.len() ==> (#[trigger] self.datasets@[i]).0@ != dataset@) ==> r@.len() == 0,
    {
        let mut i: usize = 0;
        while i < self.datasets.len()
            invariant
                i <= self.datasets@.len(),
                forall|k: int| 0 <= k < i ==> (#[trigger] self.datasets@[k]).0@ != dataset@,
            decreases self.datasets@.len() - i,
        {
            if str_eq(self.datasets[i].0.as_str(), dataset) {
                return self.datasets[i].1.as_slice();
            }
            i = i + 1;
        }
        &[]
    }
}

} // verus!
