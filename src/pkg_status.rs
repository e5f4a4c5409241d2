//! The update status of one package, against the compatible and the latest
//! resolution.
use vstd::prelude::*;

use crate::version::{version_text, Version, VersionView};

verus! {

/// How a package fares in another resolution.
#[derive(Clone, Debug)]
pub enum Status {
    /// The same version was selected.
    Unchanged,
    /// The package is no longer part of the other resolution.
    Removed,
    /// Another version was selected.
    Version(Version),
}

/// What a status is, with its version seen through its view.
pub enum StatusView {
    Unchanged,
    Removed,
    Version(VersionView),
}

impl View for Status {
    type V = StatusView;

    open spec fn view(&self) -> StatusView {
        match self {
            Status::Unchanged => StatusView::Unchanged,
            Status::Removed => StatusView::Removed,
            Status::Version(v) => StatusView::Version(v@),
        }
    }
}

/// The status of a package at version `from` whose counterpart elsewhere is `to`.
pub open spec fn status_between(from: VersionView, to: Option<VersionView>) -> StatusView {
    match to {
        None => StatusView::Removed,
        Some(t) => if t == from {
            StatusView::Unchanged
        } else {
            StatusView::Version(t)
        },
    }
}

/// A status is a change unless it is `Unchanged`.
pub open spec fn changed(s: StatusView) -> bool {
    !(s is Unchanged)
}

/// The text shown for a status.
pub open spec fn status_text(s: StatusView) -> Seq<char> {
    match s {
        StatusView::Unchanged => seq!['-', '-', '-'],
        StatusView::Removed => seq!['R', 'e', 'm', 'o', 'v', 'e', 'd'],
        StatusView::Version(v) => version_text(v),
    }
}

/// A change is reported exactly where the counterpart is missing or differs.
pub proof fn lemma_changed_iff_differs(from: VersionView, to: Option<VersionView>)
    ensures
        changed(status_between(from, to)) <==> (to is None || to->Some_0 != from),
{
}

impl Status {
    /// The status of a package at `from` whose counterpart is `to`.
    pub fn from_versions(from: &Version, to: Option<&Version>) -> (r: Status)
        ensures
            r@ == status_between(
                from@,
                match to {
                    Some(t) => Some(t@),
                    None => None,
                },
            ),
    {
        match to {
            Some(t) => if from.same_as(t) {
                Status::Unchanged
            } else {
                Status::Version(t.clone_version())
            },
            None => Status::Removed,
        }
    }

    /// Whether the status reports a change.
    pub fn is_changed(&self) -> (r: bool)
        ensures
            r == changed(self@),
    {
        !matches!(*self, Status::Unchanged)
    }

    /// `---` when unchanged, `Removed`, or the new version.
    pub fn to_text(&self) -> (r: String)
        ensures
            r@ == status_text(self@),
    {
        match self {
            Status::Unchanged => {
                let r = String::from_str("---");
                proof { reveal_strlit("---"); }
                r
            },
            Status::Removed => {
                let r = String::from_str("Removed");
                proof { reveal_strlit("Removed"); }
                r
            },
            Status::Version(v) => v.to_text(),
        }
    }
}

/// The status of a package against both other resolutions.
#[derive(Clone, Debug)]
pub struct PkgStatus {
    pub compat: Status,
    pub latest: Status,
}

impl PkgStatus {
    /// Whether either side reports a change.
    pub fn any_changed(&self) -> (r: bool)
        ensures
            r == (changed(self.compat@) || changed(self.latest@)),
    {
        self.compat.is_changed() || self.latest.is_changed()
    }
}

} // verus!
