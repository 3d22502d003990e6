//! Checks that a patch runs on every entry before admitting it.

use vstd::prelude::*;
use crate::error::StrainError;
use crate::path::{Path, PathModel};
use crate::patchwork::{
    bool_of_text, char_of_text, decode_bool_in, decode_char_in, decode_int_in, decode_text_in,
    int_of_text, string_of_text,
};

verus! {

/// What an encoded value must decode as.
#[derive(Debug, Clone, Copy)]
pub enum ValueKind {
    /// Any value.
    Any,
    /// An integer in `lo..=hi`.
    Int { lo: i128, hi: i128 },
    /// A boolean.
    Bool,
    /// A character.
    Char,
    /// A string.
    Text,
}

impl ValueKind {
    /// Whether `v` decodes as a value of this kind.
    pub open spec fn holds(&self, v: Seq<char>) -> bool {
        match self {
            ValueKind::Any => true,
            ValueKind::Int { lo, hi } => int_of_text(v, *lo as int, *hi as int) is Some,
            ValueKind::Bool => bool_of_text(v) is Some,
            ValueKind::Char => char_of_text(v) is Some,
            ValueKind::Text => string_of_text(v) is Some,
        }
    }

    /// Checks that `v` decodes as a value of this kind.
    pub fn check(&self, v: &String) -> (r: bool)
        ensures
            r == self.holds(v@),
    {
        match self {
            ValueKind::Any => true,
            ValueKind::Int { lo, hi } => decode_int_in(v, *lo, *hi).is_some(),
            ValueKind::Bool => decode_bool_in(v).is_some(),
            ValueKind::Char => decode_char_in(v).is_some(),
            ValueKind::Text => decode_text_in(v).is_some(),
        }
    }
}

/// Some entry of `fields` is for the path `k` and admits the value `v`.
pub open spec fn typed_admits(fields: Seq<(Path, ValueKind)>, k: PathModel, v: Seq<char>) -> bool {
    exists|i: int| 0 <= i < fields.len() && (#[trigger] fields[i]).0@ == k && fields[i].1.holds(v)
}

/// A rule on the entries that a patch may hold, checked once for each entry
/// before it is stored. It looks at the entry alone, so it may be shared by
/// any number of patches.
#[derive(Debug)]
pub enum Validator {
    /// Admits every entry.
    AcceptAll,
    /// Refuses the entries stored at one of these paths, admits the rest.
    Reject(Vec<Path>),
    /// Admits only the entries stored at one of these paths.
    Only(Vec<Path>),
    /// Admits only the entries stored at one of these paths whose value
    /// decodes as the kind given beside it.
    Typed(Vec<(Path, ValueKind)>),
}

/// Whether `k` is one of `paths`.
pub open spec fn listed(paths: Seq<Path>, k: PathModel) -> bool {
    exists|i: int| 0 <= i < paths.len() && (#[trigger] paths[i])@ == k
}

impl Validator {
    /// Whether this rule admits the value `v` stored at `k`.
    pub open spec fn accepts(&self, k: PathModel, v: Seq<char>) -> bool {
        match self {
            Validator::AcceptAll => true,
            Validator::Reject(paths) => !listed(paths@, k),
            Validator::Only(paths) => listed(paths@, k),
            Validator::Typed(fields) => typed_admits(fields@, k, v),
        }
    }

    /// A validator that refuses exactly the paths in `paths`.
    pub fn rejecting(paths: Vec<Path>) -> (r: Validator)
        ensures
            forall|k: PathModel, v: Seq<char>| r.accepts(k, v) == !listed(paths@, k),
    {
        Validator::Reject(paths)
    }

    /// A validator that admits exactly the paths in `paths`.
    pub fn only(paths: Vec<Path>) -> (r: Validator)
        ensures
            forall|k: PathModel, v: Seq<char>| r.accepts(k, v) == listed(paths@, k),
    {
        Validator::Only(paths)
    }

    /// Checks the value `v` stored at `k`.
    pub fn check(&self, k: &Path, v: &String) -> (r: Result<(), StrainError>)
        ensures
            r is Ok <==> self.accepts(k@, v@),
            r is Err ==> r->Err_0 == StrainError::ValidationError,
    {
        match self {
            Validator::AcceptAll => Ok(()),
            Validator::Reject(paths) => {
                if find_path(paths, k) {
                    Err(StrainError::ValidationError)
                } else {
                    Ok(())
                }
            },
            Validator::Only(paths) => {
                if find_path(paths, k) {
                    Ok(())
                } else {
                    Err(StrainError::ValidationError)
                }
            },
            Validator::Typed(fields) => {
                if find_typed(fields, k, v) {
                    Ok(())
                } else {
                    Err(StrainError::ValidationError)
                }
            },
        }
    }
}

fn find_typed(fields: &Vec<(Path, ValueKind)>, k: &Path, v: &String) -> (r: bool)
    ensures
        r == typed_admits(fields@, k@, v@),
{
    let mut i: usize = 0;
    while i < fields.len()
        invariant
            i <= fields.len(),
            forall|j: int|
                0 <= j < i ==> !((#[trigger] fields@[j]).0@ == k@ && fields@[j].1.holds(v@)),
        decreases fields.len() - i,
    {
        if fields[i].0.same(k) && fields[i].1.check(v) {
            return true;
        }
        i = i + 1;
    }
    false
}

fn find_path(paths: &Vec<Path>, k: &Path) -> (r: bool)
    ensures
        r == listed(paths@, k@),
{
    let mut i: usize = 0;
    while i < paths.len()
        invariant
            i <= paths.len(),
            forall|j: int| 0 <= j < i ==> (#[trigger] paths@[j])@ != k@,
        decreases paths.len() - i,
    {
        if paths[i].same(k) {
            return true;
        }
        i = i + 1;
    }
    false
}

} // verus!
