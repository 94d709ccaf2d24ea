//! The data model of the stream: package-version records, dependency
//! specifications, and the change events the walk emits, together with their
//! mathematical models.

use vstd::prelude::*;

verus! {

/// Mathematical model of one dependency specification.
#[verifier::ext_equal]
pub ghost struct DepModel {
    pub name: Seq<u8>,
    pub version_requirement: Seq<u8>,
    pub features: Seq<Seq<u8>>,
    pub optional: bool,
    pub use_default_features: bool,
    pub target: Option<Seq<u8>>,
    pub kind: Seq<u8>,
}

/// Mathematical model of one package-version record.
#[verifier::ext_equal]
pub ghost struct RecordModel {
    pub name: Seq<u8>,
    pub version: Seq<u8>,
    pub dependencies: Seq<DepModel>,
    pub checksum: Seq<u8>,
    pub features: Seq<(Seq<u8>, Seq<Seq<u8>>)>,
    pub yanked: bool,
}

/// Mathematical model of one emitted change event.
#[verifier::ext_equal]
pub ghost struct ChangeModel {
    pub delta: ChangeType,
    pub message: Option<Seq<u8>>,
    pub payload: RecordModel,
}

/// One dependency of a published package version.
#[derive(Debug, Clone, PartialEq, Eq)]
pub struct DependencySpec {
    pub name: Vec<u8>,
    pub version_requirement: Vec<u8>,
    pub features: Vec<Vec<u8>>,
    pub optional: bool,
    pub use_default_features: bool,
    pub target: Option<Vec<u8>>,
    pub kind: Vec<u8>,
}

/// One published or yanked version of one package: the payload of a change
/// event.
#[derive(Debug, Clone, PartialEq, Eq)]
pub struct PackageVersionRecord {
    pub name: Vec<u8>,
    pub version: Vec<u8>,
    pub dependencies: Vec<DependencySpec>,
    pub checksum: Vec<u8>,
    pub features: Vec<(Vec<u8>, Vec<Vec<u8>>)>,
    pub yanked: bool,
}

/// The file-level diff status attached to a change event.
#[derive(Debug, Clone, Copy, PartialEq, Eq, Structural)]
pub enum ChangeType {
    Modified,
    Deleted,
}

/// One unit of the output stream: a diff status, the commit's message, and
/// the parsed package-version record.
#[derive(Debug, Clone, PartialEq, Eq)]
pub struct Change {
    pub delta: ChangeType,
    pub message: Option<Vec<u8>>,
    pub payload: PackageVersionRecord,
}

/// The error that aborts a walk: the repository could not be opened or a
/// revision, tree or diff lookup failed.
#[derive(Debug, Clone, PartialEq, Eq)]
pub struct RepoError {
    pub message: Vec<u8>,
}

/// The view of an optional byte string.
pub open spec fn opt_bytes_view(o: Option<Vec<u8>>) -> Option<Seq<u8>> {
    match o {
        Some(t) => Some(t@),
        None => None,
    }
}

/// The views of a list of byte strings.
pub open spec fn byte_views(xs: Seq<Vec<u8>>) -> Seq<Seq<u8>> {
    xs.map_values(|f: Vec<u8>| f@)
}

/// The views of a list of dependency specifications.
pub open spec fn dep_views(ds: Seq<DependencySpec>) -> Seq<DepModel> {
    ds.map_values(|d: DependencySpec| d@)
}

/// The views of a feature map's entries.
pub open spec fn feat_views(fs: Seq<(Vec<u8>, Vec<Vec<u8>>)>) -> Seq<(Seq<u8>, Seq<Seq<u8>>)> {
    fs.map_values(|p: (Vec<u8>, Vec<Vec<u8>>)| (p.0@, byte_views(p.1@)))
}

impl View for DependencySpec {
    type V = DepModel;

    open spec fn view(&self) -> DepModel {
        DepModel {
            name: self.name@,
            version_requirement: self.version_requirement@,
            features: byte_views(self.features@),
            optional: self.optional,
            use_default_features: self.use_default_features,
            target: opt_bytes_view(self.target),
            kind: self.kind@,
        }
    }
}

impl View for PackageVersionRecord {
    type V = RecordModel;

    open spec fn view(&self) -> RecordModel {
        RecordModel {
            name: self.name@,
            version: self.version@,
            dependencies: dep_views(self.dependencies@),
            checksum: self.checksum@,
            features: feat_views(self.features@),
            yanked: self.yanked,
        }
    }
}

impl View for Change {
    type V = ChangeModel;

    open spec fn view(&self) -> ChangeModel {
        ChangeModel {
            delta: self.delta,
            message: opt_bytes_view(self.message),
            payload: self.payload@,
        }
    }
}

/// The model of the empty record that stands in for a payload no line of the
/// commit supplied.
pub open spec fn default_record_model() -> RecordModel {
    RecordModel {
        name: Seq::empty(),
        version: Seq::empty(),
        dependencies: Seq::empty(),
        checksum: Seq::empty(),
        features: Seq::empty(),
        yanked: false,
    }
}

impl Default for PackageVersionRecord {
    /// The empty record: every field empty, not yanked.
    fn default() -> (r: PackageVersionRecord)
        ensures
            r@ == default_record_model(),
    {
        let r = PackageVersionRecord {
            name: Vec::new(),
            version: Vec::new(),
            dependencies: Vec::new(),
            checksum: Vec::new(),
            features: Vec::new(),
            yanked: false,
        };
        proof {
            assert(r@.dependencies =~= default_record_model().dependencies);
            assert(r@.features =~= default_record_model().features);
            assert(r@.name =~= default_record_model().name);
            assert(r@.version =~= default_record_model().version);
            assert(r@.checksum =~= default_record_model().checksum);
        }
        r
    }
}

/// The model of the default change event.
pub open spec fn default_change_model() -> ChangeModel {
    ChangeModel { delta: ChangeType::Modified, message: None, payload: default_record_model() }
}

impl Default for Change {
    /// A change event before any diff line has been folded in.
    fn default() -> (r: Change)
        ensures
            r@ == default_change_model(),
    {
        Change {
            delta: ChangeType::Modified,
            message: None,
            payload: PackageVersionRecord::default(),
        }
    }
}

} // verus!
