//! Paths that address a part of a value.

use vstd::prelude::*;
use vstd::string::*;

verus! {

/// Where an entry of a patch applies: the whole value at this level, or a
/// dotted key naming a field (or index) below it, such as `a.b.2`.
#[derive(Debug)]
pub enum Path {
    Whole,
    Field(String),
}

/// The model of a path: `None` for the whole value, `Some(key)` for a field.
pub type PathModel = Option<Seq<char>>;

impl View for Path {
    type V = PathModel;

    open spec fn view(&self) -> PathModel {
        match self {
            Path::Whole => None,
            Path::Field(k) => Some(k@),
        }
    }
}

/// The key that an entry stored at `k` gets once its patch is embedded under
/// the field `prefix`: the whole value becomes the field itself, and any
/// other key is joined to the field by a dot.
pub open spec fn prefixed(prefix: Seq<char>, k: PathModel) -> PathModel {
    match k {
        None => Some(prefix),
        Some(k) => Some(prefix + seq!['.'] + k),
    }
}

/// Where the key `k` lies below the field `prefix`: the whole field when it
/// is the field itself, the rest of the key when it continues the field
/// after a dot, and nowhere (`None`) when it is outside the field.
pub open spec fn unprefixed(prefix: Seq<char>, k: PathModel) -> Option<PathModel> {
    match k {
        None => None,
        Some(k) => if k == prefix {
            Some(None)
        } else if k.len() > prefix.len() && k.subrange(0, prefix.len() as int) == prefix
            && k[prefix.len() as int] == '.' {
            Some(Some(k.subrange(prefix.len() as int + 1, k.len() as int)))
        } else {
            None
        },
    }
}

impl Path {
    /// A path addressing the field named `key`.
    pub fn field(key: &str) -> (r: Path)
        ensures
            r@ == Some(key@),
    {
        Path::Field(key.to_string())
    }

    /// An independent copy of this path.
    pub fn duplicate(&self) -> (r: Path)
        ensures
            r@ == self@,
    {
        match self {
            Path::Whole => Path::Whole,
            Path::Field(k) => Path::Field(k.clone()),
        }
    }

    /// Whether two paths address the same place.
    pub fn same(&self, other: &Path) -> (r: bool)
        ensures
            r == (self@ == other@),
    {
        match (self, other) {
            (Path::Whole, Path::Whole) => true,
            (Path::Field(a), Path::Field(b)) => *a == *b,
            _ => false,
        }
    }

    /// Where this path lies below the field `prefix`, if it does.
    pub fn below(&self, prefix: &str) -> (r: Option<Path>)
        ensures
            match unprefixed(prefix@, self@) {
                Some(k) => r is Some && r->0@ == k,
                None => r is None,
            },
    {
        match self {
            Path::Whole => None,
            Path::Field(k) => {
                let key = k.as_str();
                let n = key.unicode_len();
                let m = prefix.unicode_len();
                if n < m {
                    return None;
                }
                let mut i: usize = 0;
                while i < m
                    invariant
                        i <= m <= n,
                        n == key@.len(),
                        m == prefix@.len(),
                        key@ == k@,
                        self@ == Some(k@),
                        forall|j: int| 0 <= j < i ==> key@[j] == prefix@[j],
                    decreases m - i,
                {
                    if key.get_char(i) != prefix.get_char(i) {
                        assert(k@ != prefix@);
                        assert(k@.subrange(0, m as int)[i as int] != prefix@[i as int]);
                        assert(k@.subrange(0, m as int) != prefix@);
                        return None;
                    }
                    i = i + 1;
                }
                assert(k@.subrange(0, m as int) =~= prefix@);
                if n == m {
                    assert(k@ =~= prefix@);
                    Some(Path::Whole)
                } else if key.get_char(m) == '.' {
                    let rest = key.substring_char(m + 1, n);
                    Some(Path::Field(rest.to_string()))
                } else {
                    None
                }
            },
        }
    }

    /// The path that this one becomes under the field `prefix`.
    pub fn under(&self, prefix: &str) -> (r: Path)
        ensures
            r@ == prefixed(prefix@, self@),
    {
        match self {
            Path::Whole => Path::Field(prefix.to_string()),
            Path::Field(k) => {
                let mut s = prefix.to_string();
                s.append(".");
                s.append(k.as_str());
                proof {
                    reveal_strlit(".");
                }
                Path::Field(s)
            },
        }
    }
}

} // verus!
