//! Values that can be diffed and patched: leaf values (integers, booleans,
//! characters and strings), which change only as a whole, and pairs, which
//! are records of two fields.

use vstd::prelude::*;
use vstd::string::*;
use crate::codec::{
    bool_text, decode_bool, decode_char, decode_int, decode_uint, encode_uint, encode_char, decode_text, encode_bool, encode_int, encode_text, int_text,
    json_text_of,
    lemma_int_text_injective, lemma_json_text_injective,
};
use crate::error::StrainError;
use crate::patch::{
    Entry, Patch, is_field_name, keys_unique, lemma_route_merged, merged, routed, under, wholes,
};
use crate::path::{Path, PathModel};
use crate::validator::Validator;

verus! {

/// A type whose whole value can be read back from the text stored for it.
pub trait Decode: Sized + View {
    /// The value that the text `t` stored for a whole value decodes to, if
    /// it decodes.
    spec fn decode_spec(t: Seq<char>) -> Option<Self::V>;

    /// Decodes the text `t` stored for a whole value.
    fn decode_whole(t: &String) -> (r: Option<Self>)
        ensures
            match Self::decode_spec(t@) {
                Some(v) => r is Some && r->0@ == v,
                None => r is None,
            },
    ;
}

/// A type whose values can be compared into a patch and changed by one.
pub trait Patchwork: Decode {
    /// The entries of the patch that turns `a` into `b`.
    spec fn diff_spec(a: Self::V, b: Self::V) -> Seq<Entry>;

    /// The value that applying `es` to `a` gives, or the error it stops on.
    spec fn apply_spec(a: Self::V, es: Seq<Entry>) -> Result<Self::V, StrainError>;

    /// The name that this type's patches carry.
    spec fn kind() -> Seq<char>;

    /// Whether this type's validator admits the value `v` stored at `k`.
    spec fn admits(k: PathModel, v: Seq<char>) -> bool;

    /// An empty patch for this type, bound to its name and validator.
    fn new_patch(&self) -> (r: Patch)
        ensures
            r.wf(),
            r@ == Seq::<Entry>::empty(),
            r.kind_name() == Self::kind(),
            forall|k: PathModel, v: Seq<char>| r.accepts(k, v) == Self::admits(k, v),
    ;

    /// The patch that turns `self` into `other`, bound to this type's name
    /// and validator.
    fn diff(&self, other: &Self) -> (r: Result<Patch, StrainError>)
        ensures
            r is Ok,
            r->Ok_0.wf(),
            r->Ok_0@ == Self::diff_spec(self@, other@),
            r->Ok_0.kind_name() == Self::kind(),
            forall|k: PathModel, v: Seq<char>| r->Ok_0.accepts(k, v) == Self::admits(k, v),
    ;

    /// Applies `patch` to `self`; on an error `self` is left as it was.
    fn apply(&mut self, patch: &Patch) -> (r: Result<(), StrainError>)
        ensures
            match Self::apply_spec(old(self)@, patch@) {
                Ok(v) => r is Ok && final(self)@ == v,
                Err(e) => r == Err::<(), StrainError>(e) && final(self)@ == old(self)@,
            },
    ;

    /// Whether applying `patch` to `self` would succeed, and if not, the
    /// error it would stop on; `self` is not changed.
    fn check_apply(&self, patch: &Patch) -> (r: Result<(), StrainError>)
        ensures
            match Self::apply_spec(self@, patch@) {
                Ok(_) => r is Ok,
                Err(e) => r == Err::<(), StrainError>(e),
            },
    ;

    /// Applying an empty patch changes nothing and succeeds.
    proof fn lemma_apply_empty(a: Self::V)
        ensures
            Self::apply_spec(a, Seq::<Entry>::empty()) == Ok::<Self::V, StrainError>(a),
    ;

    /// A value differs from itself in nothing.
    proof fn lemma_diff_reflexive(a: Self::V)
        ensures
            Self::diff_spec(a, a) == Seq::<Entry>::empty(),
    ;

    /// Applying a patch that replaces the whole value a second time changes
    /// nothing more.
    proof fn lemma_whole_apply_idempotent(a: Self::V, v: Seq<char>)
        ensures
            Self::apply_spec(a, seq![(None, v)]) matches Ok(b) ==> Self::apply_spec(
                b,
                seq![(None, v)],
            ) == Ok::<Self::V, StrainError>(b),
    ;
}

/// A type that keeps a record of the patches applied to it, so that a change
/// can be rolled back.
/// A type that keeps a record of the patches applied to it, so that a change
/// can be rolled back.
pub trait Historic: Patchwork {
}

/// The entries that a leaf's diff holds: none for equal values, else one
/// that replaces the whole value with the encoding `text` of the new one.
pub open spec fn leaf_diff(same: bool, text: Seq<char>) -> Seq<Entry> {
    if same {
        Seq::<Entry>::empty()
    } else {
        seq![(None, text)]
    }
}

/// What applying `es` to a leaf comes to, where `decode` reads a stored
/// value: an error when an entry addresses a field or holds a value that
/// does not decode; else the value of the last entry, or `None` (no change)
/// when there is none.
pub open spec fn leaf_outcome<T>(es: Seq<Entry>, decode: spec_fn(Seq<char>) -> Option<T>) -> Result<
    Option<T>,
    StrainError,
> {
    if exists|i: int| 0 <= i < es.len() && (#[trigger] es[i]).0 is Some {
        Err(StrainError::UnknownPathError)
    } else if exists|i: int| 0 <= i < es.len() && decode((#[trigger] es[i]).1) is None {
        Err(StrainError::DecodeError)
    } else if es.len() == 0 {
        Ok(None)
    } else {
        Ok(decode(es.last().1))
    }
}

/// The leaf value `a` after an outcome of `leaf_outcome`.
pub open spec fn leaf_result<T>(a: T, o: Result<Option<T>, StrainError>) -> Result<T, StrainError> {
    match o {
        Ok(Some(v)) => Ok(v),
        Ok(None) => Ok(a),
        Err(e) => Err(e),
    }
}

/// The integer in `lo..=hi` whose text is `t`, if there is one.
pub open spec fn int_of_text(t: Seq<char>, lo: int, hi: int) -> Option<int> {
    if exists|v: int| lo <= v <= hi && int_text(v) == t {
        Some(choose|v: int| lo <= v <= hi && int_text(v) == t)
    } else {
        None
    }
}

/// The string whose text is `t`, if there is one.
pub open spec fn string_of_text(t: Seq<char>) -> Option<Seq<char>> {
    if exists|w: Seq<char>| json_text_of(w) == t {
        Some(choose|w: Seq<char>| json_text_of(w) == t)
    } else {
        None
    }
}

/// The boolean whose text is `t`, if there is one.
pub open spec fn bool_of_text(t: Seq<char>) -> Option<bool> {
    if t == bool_text(true) {
        Some(true)
    } else if t == bool_text(false) {
        Some(false)
    } else {
        None
    }
}

/// The JSON text of the character `c`: that of the string holding just `c`.
pub open spec fn char_text(c: char) -> Seq<char> {
    json_text_of(seq![c])
}

/// The character whose text is `t`, if there is one.
pub open spec fn char_of_text(t: Seq<char>) -> Option<char> {
    if exists|c: char| json_text_of(seq![c]) == t {
        Some(choose|c: char| json_text_of(seq![c]) == t)
    } else {
        None
    }
}

proof fn lemma_char_of_own_text(c: char)
    ensures
        char_of_text(json_text_of(seq![c])) == Some(c),
{
    let d = choose|d: char| json_text_of(seq![d]) == json_text_of(seq![c]);
    lemma_json_text_injective(seq![d], seq![c]);
    assert(seq![d][0] == seq![c][0]);
}

proof fn lemma_int_of_own_text(v: int, lo: int, hi: int)
    requires
        lo <= v <= hi,
    ensures
        int_of_text(int_text(v), lo, hi) == Some(v),
{
    let w = choose|w: int| lo <= w <= hi && int_text(w) == int_text(v);
    lemma_int_text_injective(w, v);
}

/// Reads `s` as the text of an integer in `lo..=hi`. Only the exact text
/// that encoding gives is read.
pub fn decode_int_in(s: &String, lo: i128, hi: i128) -> (r: Option<i128>)
    ensures
        match int_of_text(s@, lo as int, hi as int) {
            Some(v) => r == Some(v as i128),
            None => r is None,
        },
{
    match decode_int(s.as_str()) {
        Ok(x) => {
            if lo <= x && x <= hi {
                let t = encode_int(x);
                match t {
                    Ok(t) => {
                        if t == *s {
                            proof {
                                lemma_int_of_own_text(x as int, lo as int, hi as int);
                            }
                            Some(x)
                        } else {
                            proof {
                                if int_of_text(s@, lo as int, hi as int) is Some {
                                    let v = choose|v: int|
                                        lo <= v <= hi && int_text(v) == s@;
                                    assert(int_text((v as i128) as int) == s@);
                                }
                            }
                            None
                        }
                    },
                    Err(_) => None,
                }
            } else {
                proof {
                    if int_of_text(s@, lo as int, hi as int) is Some {
                        let v = choose|v: int| lo <= v <= hi && int_text(v) == s@;
                        assert(int_text((v as i128) as int) == s@);
                    }
                }
                None
            }
        },
        Err(_) => {
            proof {
                if int_of_text(s@, lo as int, hi as int) is Some {
                    let v = choose|v: int| lo <= v <= hi && int_text(v) == s@;
                    assert(int_text((v as i128) as int) == s@);
                }
            }
            None
        },
    }
}

/// Reads `s` as the text of an integer in `lo..=hi`. Only the exact text
/// that encoding gives is read.
pub fn decode_uint_in(s: &String, lo: u128, hi: u128) -> (r: Option<u128>)
    ensures
        match int_of_text(s@, lo as int, hi as int) {
            Some(v) => r == Some(v as u128),
            None => r is None,
        },
{
    match decode_uint(s.as_str()) {
        Ok(x) => {
            if lo <= x && x <= hi {
                let t = encode_uint(x);
                match t {
                    Ok(t) => {
                        if t == *s {
                            proof {
                                lemma_int_of_own_text(x as int, lo as int, hi as int);
                            }
                            Some(x)
                        } else {
                            proof {
                                if int_of_text(s@, lo as int, hi as int) is Some {
                                    let v = choose|v: int|
                                        lo <= v <= hi && int_text(v) == s@;
                                    assert(int_text((v as u128) as int) == s@);
                                }
                            }
                            None
                        }
                    },
                    Err(_) => None,
                }
            } else {
                proof {
                    if int_of_text(s@, lo as int, hi as int) is Some {
                        let v = choose|v: int| lo <= v <= hi && int_text(v) == s@;
                        assert(int_text((v as u128) as int) == s@);
                    }
                }
                None
            }
        },
        Err(_) => {
            proof {
                if int_of_text(s@, lo as int, hi as int) is Some {
                    let v = choose|v: int| lo <= v <= hi && int_text(v) == s@;
                    assert(int_text((v as u128) as int) == s@);
                }
            }
            None
        },
    }
}

/// Reads `s` as the text of a string. Only the exact text that encoding
/// gives is read.
pub fn decode_text_in(s: &String) -> (r: Option<String>)
    ensures
        match string_of_text(s@) {
            Some(w) => r is Some && r->0@ == w,
            None => r is None,
        },
{
    match decode_text(s.as_str()) {
        Ok(x) => {
            match encode_text(x.as_str()) {
                Ok(t) => {
                    if t == *s {
                        proof {
                            let w = choose|w: Seq<char>| json_text_of(w) == s@;
                            assert(w == x@);
                        }
                        Some(x)
                    } else {
                        None
                    }
                },
                Err(_) => None,
            }
        },
        Err(_) => None,
    }
}

/// Reads `s` as the text of a boolean. Only the exact text that encoding
/// gives is read.
pub fn decode_bool_in(s: &String) -> (r: Option<bool>)
    ensures
        r == bool_of_text(s@),
{
    match decode_bool(s.as_str()) {
        Ok(x) => {
            match encode_bool(x) {
                Ok(t) => {
                    if t == *s {
                        Some(x)
                    } else {
                        proof {
                            if s@ == bool_text(true) || s@ == bool_text(false) {
                                assert(s@ == bool_text(x));
                            }
                        }
                        None
                    }
                },
                Err(_) => None,
            }
        },
        Err(_) => None,
    }
}

/// Reads `s` as the text of a character. Only the exact text that encoding
/// gives is read.
pub fn decode_char_in(s: &String) -> (r: Option<char>)
    ensures
        r == char_of_text(s@),
{
    match decode_char(s.as_str()) {
        Ok(x) => {
            match encode_char(x) {
                Ok(t) => {
                    if t == *s {
                        proof {
                            lemma_char_of_own_text(x);
                        }
                        Some(x)
                    } else {
                        proof {
                            if char_of_text(s@) is Some {
                                let c = choose|c: char| json_text_of(seq![c]) == s@;
                                assert(x == c);
                            }
                        }
                        None
                    }
                },
                Err(_) => None,
            }
        },
        Err(_) => {
            proof {
                if char_of_text(s@) is Some {
                    let c = choose|c: char| json_text_of(seq![c]) == s@;
                    assert(json_text_of(seq![c]) == s@);
                }
            }
            None
        },
    }
}

/// Whether every entry of `items` is for the whole value.
fn all_whole(items: &Vec<(Path, String)>) -> (r: bool)
    ensures
        r == forall|i: int| 0 <= i < items@.len() ==> (#[trigger] items@[i]).0@ is None,
{
    let mut i: usize = 0;
    while i < items.len()
        invariant
            i <= items.len(),
            forall|j: int| 0 <= j < i ==> (#[trigger] items@[j]).0@ is None,
        decreases items.len() - i,
    {
        match &items[i].0 {
            Path::Field(_) => {
                return false;
            },
            Path::Whole => {},
        }
        i = i + 1;
    }
    true
}

proof fn lemma_leaf_single<T>(v: Seq<char>, dec: spec_fn(Seq<char>) -> Option<T>)
    ensures
        leaf_outcome(seq![(None, v)], dec) == match dec(v) {
            Some(x) => Ok::<Option<T>, StrainError>(Some(x)),
            None => Err(StrainError::DecodeError),
        },
{
    let es: Seq<Entry> = seq![(None, v)];
    assert(es[0] == (None::<Seq<char>>, v));
    assert(!exists|i: int| 0 <= i < es.len() && (#[trigger] es[i]).0 is Some);
}

/// The patch that turns the integer `a` into `b`.
fn diff_int(a: i128, b: i128, name: &str) -> (r: Patch)
    ensures
        r.wf(),
        r.kind_name() == name@,
        forall|k: PathModel, v: Seq<char>| r.accepts(k, v),
        r@ == leaf_diff(a == b, int_text(b as int)),
{
    let mut p = Patch::new(name, Validator::AcceptAll);
    if a != b {
        if let Ok(t) = encode_int(b) {
            let _ = p.add(Path::Whole, t);
            assert(p@ =~= seq![(None::<Seq<char>>, int_text(b as int))]);
        }
    } else {
        assert(p@ =~= leaf_diff(a == b, int_text(b as int)));
    }
    p
}

/// The patch that turns the unsigned integer `a` into `b`.
fn diff_uint(a: u128, b: u128, name: &str) -> (r: Patch)
    ensures
        r.wf(),
        r.kind_name() == name@,
        forall|k: PathModel, v: Seq<char>| r.accepts(k, v),
        r@ == leaf_diff(a == b, int_text(b as int)),
{
    let mut p = Patch::new(name, Validator::AcceptAll);
    if a != b {
        if let Ok(t) = encode_uint(b) {
            let _ = p.add(Path::Whole, t);
            assert(p@ =~= seq![(None::<Seq<char>>, int_text(b as int))]);
        }
    } else {
        assert(p@ =~= leaf_diff(a == b, int_text(b as int)));
    }
    p
}

/// A record with fields named `fa` and `fb` diffs to its fields' diffs
/// merged under their names, and is patched by handing each field its part
/// of the patch (`Patch::for_field`). Where each field's type turns its own
/// diff back into the new value, so does the record, field by field.
pub proof fn lemma_composite_round_trip<A: Patchwork, B: Patchwork>(
    fa: Seq<char>,
    fb: Seq<char>,
    xa: A::V,
    ya: A::V,
    xb: B::V,
    yb: B::V,
)
    requires
        is_field_name(fa),
        is_field_name(fb),
        fa != fb,
        keys_unique(A::diff_spec(xa, ya)),
        keys_unique(B::diff_spec(xb, yb)),
        A::apply_spec(xa, A::diff_spec(xa, ya)) == Ok::<A::V, StrainError>(ya),
        B::apply_spec(xb, B::diff_spec(xb, yb)) == Ok::<B::V, StrainError>(yb),
    ensures
        ({
            let c = merged(
                merged(Seq::<Entry>::empty(), fa, A::diff_spec(xa, ya)),
                fb,
                B::diff_spec(xb, yb),
            );
            &&& A::apply_spec(xa, routed(fa, c)) == Ok::<A::V, StrainError>(ya)
            &&& B::apply_spec(xb, routed(fb, c)) == Ok::<B::V, StrainError>(yb)
        }),
{
    lemma_route_merged(fa, fb, A::diff_spec(xa, ya), B::diff_spec(xb, yb));
}

/// `T::decode_spec` as a function value.
pub open spec fn decoder_of<T: Decode>() -> spec_fn(Seq<char>) -> Option<T::V> {
    |t: Seq<char>| T::decode_spec(t)
}

/// What applying `patch` to a leaf of type `T` comes to: the last value
/// decoded, or `None` when the patch is empty.
fn apply_leaf<T: Decode>(patch: &Patch) -> (r: Result<Option<T>, StrainError>)
    ensures
        leaf_outcome(patch@, decoder_of::<T>()) == match r {
            Ok(Some(x)) => Ok(Some(x@)),
            Ok(None) => Ok(None),
            Err(e) => Err(e),
        },
{
    let ghost es = patch@;
    let ghost dec = decoder_of::<T>();
    let items = patch.entries();
    if !all_whole(&items) {
        proof {
            let j = choose|j: int| 0 <= j < items@.len() && !((#[trigger] items@[j]).0@ is None);
            assert(es[j].0 is Some);
        }
        return Err(StrainError::UnknownPathError);
    }
    assert forall|j: int| 0 <= j < es.len() implies (#[trigger] es[j]).0 is None by {
        assert(items@[j].0@ is None);
        assert((items@[j].0@, items@[j].1@) == es[j]);
    }
    let mut last: Option<T> = None;
    let mut i: usize = 0;
    while i < items.len()
        invariant
            i <= items.len(),
            items@.len() == es.len(),
            es == patch@,
            forall|j: int| 0 <= j < items@.len() ==> ((#[trigger] items@[j]).0@, items@[j].1@) == es[j],
            forall|j: int| 0 <= j < i ==> (#[trigger] dec(es[j].1)) is Some,
            forall|j: int| 0 <= j < es.len() ==> (#[trigger] es[j]).0 is None,
            i == 0 ==> last is None,
            i > 0 ==> last is Some && dec(es[i - 1].1) == Some(last->0@),
            dec == decoder_of::<T>(),
        decreases items.len() - i,
    {
        assert(items@[i as int].1@ == es[i as int].1);
        match T::decode_whole(&items[i].1) {
            None => {
                assert(dec(es[i as int].1) is None);
                assert(!exists|j: int| 0 <= j < es.len() && (#[trigger] es[j]).0 is Some);
                assert(exists|j: int|
                    0 <= j < es.len() && decoder_of::<T>()((#[trigger] es[j]).1) is None);
                return Err(StrainError::DecodeError);
            },
            Some(x) => {
                last = Some(x);
            },
        }
        i = i + 1;
    }
    assert(!exists|j: int| 0 <= j < es.len() && (#[trigger] es[j]).0 is Some);
    Ok(last)
}


impl Decode for i8 {
    open spec fn decode_spec(t: Seq<char>) -> Option<i8> {
        match int_of_text(t, i8::MIN as int, i8::MAX as int) {
            Some(v) => Some(v as i8),
            None => None,
        }
    }

    fn decode_whole(t: &String) -> (r: Option<i8>) {
        match decode_int_in(t, i8::MIN as i128, i8::MAX as i128) {
            Some(x) => Some(x as i8),
            None => None,
        }
    }
}

impl Patchwork for i8 {
    open spec fn diff_spec(a: i8, b: i8) -> Seq<Entry> {
        leaf_diff(a == b, int_text(b as int))
    }

    fn diff(&self, other: &i8) -> (r: Result<Patch, StrainError>) {
        Ok(diff_int(*self as i128, *other as i128, "i8"))
    }

    open spec fn kind() -> Seq<char> {
        "i8"@
    }

    open spec fn admits(k: PathModel, v: Seq<char>) -> bool {
        true
    }

    open spec fn apply_spec(a: i8, es: Seq<Entry>) -> Result<i8, StrainError> {
        leaf_result(a, leaf_outcome(es, decoder_of::<i8>()))
    }

    fn new_patch(&self) -> (r: Patch) {
        let r = Patch::new("i8", Validator::AcceptAll);
        r
    }

    fn check_apply(&self, patch: &Patch) -> (r: Result<(), StrainError>) {
        match apply_leaf::<i8>(patch) {
            Ok(_) => Ok(()),
            Err(e) => Err(e),
        }
    }

    fn apply(&mut self, patch: &Patch) -> (r: Result<(), StrainError>) {
        match apply_leaf::<i8>(patch) {
            Ok(Some(x)) => {
                *self = x;
                Ok(())
            },
            Ok(None) => Ok(()),
            Err(e) => Err(e),
        }
    }

    proof fn lemma_apply_empty(a: i8) {
    }

    proof fn lemma_diff_reflexive(a: i8) {
    }

    proof fn lemma_whole_apply_idempotent(a: i8, v: Seq<char>) {
        lemma_leaf_single(v, decoder_of::<i8>());
    }
}

/// Applying the diff of two `i8` values to the first gives the second.
pub proof fn lemma_diff_then_apply_i8(a: i8, b: i8)
    ensures
        <i8 as Patchwork>::apply_spec(a, <i8 as Patchwork>::diff_spec(a, b)) == Ok::<i8, StrainError>(b),
{
    if a != b {
        lemma_leaf_single(int_text(b as int), decoder_of::<i8>());
        lemma_int_of_own_text(b as int, i8::MIN as int, i8::MAX as int);
    } else {
        assert(<i8 as Patchwork>::diff_spec(a, b).len() == 0);
    }
}

impl Decode for i16 {
    open spec fn decode_spec(t: Seq<char>) -> Option<i16> {
        match int_of_text(t, i16::MIN as int, i16::MAX as int) {
            Some(v) => Some(v as i16),
            None => None,
        }
    }

    fn decode_whole(t: &String) -> (r: Option<i16>) {
        match decode_int_in(t, i16::MIN as i128, i16::MAX as i128) {
            Some(x) => Some(x as i16),
            None => None,
        }
    }
}

impl Patchwork for i16 {
    open spec fn diff_spec(a: i16, b: i16) -> Seq<Entry> {
        leaf_diff(a == b, int_text(b as int))
    }

    fn diff(&self, other: &i16) -> (r: Result<Patch, StrainError>) {
        Ok(diff_int(*self as i128, *other as i128, "i16"))
    }

    open spec fn kind() -> Seq<char> {
        "i16"@
    }

    open spec fn admits(k: PathModel, v: Seq<char>) -> bool {
        true
    }

    open spec fn apply_spec(a: i16, es: Seq<Entry>) -> Result<i16, StrainError> {
        leaf_result(a, leaf_outcome(es, decoder_of::<i16>()))
    }

    fn new_patch(&self) -> (r: Patch) {
        let r = Patch::new("i16", Validator::AcceptAll);
        r
    }

    fn check_apply(&self, patch: &Patch) -> (r: Result<(), StrainError>) {
        match apply_leaf::<i16>(patch) {
            Ok(_) => Ok(()),
            Err(e) => Err(e),
        }
    }

    fn apply(&mut self, patch: &Patch) -> (r: Result<(), StrainError>) {
        match apply_leaf::<i16>(patch) {
            Ok(Some(x)) => {
                *self = x;
                Ok(())
            },
            Ok(None) => Ok(()),
            Err(e) => Err(e),
        }
    }

    proof fn lemma_apply_empty(a: i16) {
    }

    proof fn lemma_diff_reflexive(a: i16) {
    }

    proof fn lemma_whole_apply_idempotent(a: i16, v: Seq<char>) {
        lemma_leaf_single(v, decoder_of::<i16>());
    }
}

/// Applying the diff of two `i16` values to the first gives the second.
pub proof fn lemma_diff_then_apply_i16(a: i16, b: i16)
    ensures
        <i16 as Patchwork>::apply_spec(a, <i16 as Patchwork>::diff_spec(a, b)) == Ok::<i16, StrainError>(b),
{
    if a != b {
        lemma_leaf_single(int_text(b as int), decoder_of::<i16>());
        lemma_int_of_own_text(b as int, i16::MIN as int, i16::MAX as int);
    } else {
        assert(<i16 as Patchwork>::diff_spec(a, b).len() == 0);
    }
}

impl Decode for i32 {
    open spec fn decode_spec(t: Seq<char>) -> Option<i32> {
        match int_of_text(t, i32::MIN as int, i32::MAX as int) {
            Some(v) => Some(v as i32),
            None => None,
        }
    }

    fn decode_whole(t: &String) -> (r: Option<i32>) {
        match decode_int_in(t, i32::MIN as i128, i32::MAX as i128) {
            Some(x) => Some(x as i32),
            None => None,
        }
    }
}

impl Patchwork for i32 {
    open spec fn diff_spec(a: i32, b: i32) -> Seq<Entry> {
        leaf_diff(a == b, int_text(b as int))
    }

    fn diff(&self, other: &i32) -> (r: Result<Patch, StrainError>) {
        Ok(diff_int(*self as i128, *other as i128, "i32"))
    }

    open spec fn kind() -> Seq<char> {
        "i32"@
    }

    open spec fn admits(k: PathModel, v: Seq<char>) -> bool {
        true
    }

    open spec fn apply_spec(a: i32, es: Seq<Entry>) -> Result<i32, StrainError> {
        leaf_result(a, leaf_outcome(es, decoder_of::<i32>()))
    }

    fn new_patch(&self) -> (r: Patch) {
        let r = Patch::new("i32", Validator::AcceptAll);
        r
    }

    fn check_apply(&self, patch: &Patch) -> (r: Result<(), StrainError>) {
        match apply_leaf::<i32>(patch) {
            Ok(_) => Ok(()),
            Err(e) => Err(e),
        }
    }

    fn apply(&mut self, patch: &Patch) -> (r: Result<(), StrainError>) {
        match apply_leaf::<i32>(patch) {
            Ok(Some(x)) => {
                *self = x;
                Ok(())
            },
            Ok(None) => Ok(()),
            Err(e) => Err(e),
        }
    }

    proof fn lemma_apply_empty(a: i32) {
    }

    proof fn lemma_diff_reflexive(a: i32) {
    }

    proof fn lemma_whole_apply_idempotent(a: i32, v: Seq<char>) {
        lemma_leaf_single(v, decoder_of::<i32>());
    }
}

/// Applying the diff of two `i32` values to the first gives the second.
pub proof fn lemma_diff_then_apply_i32(a: i32, b: i32)
    ensures
        <i32 as Patchwork>::apply_spec(a, <i32 as Patchwork>::diff_spec(a, b)) == Ok::<i32, StrainError>(b),
{
    if a != b {
        lemma_leaf_single(int_text(b as int), decoder_of::<i32>());
        lemma_int_of_own_text(b as int, i32::MIN as int, i32::MAX as int);
    } else {
        assert(<i32 as Patchwork>::diff_spec(a, b).len() == 0);
    }
}

impl Decode for i64 {
    open spec fn decode_spec(t: Seq<char>) -> Option<i64> {
        match int_of_text(t, i64::MIN as int, i64::MAX as int) {
            Some(v) => Some(v as i64),
            None => None,
        }
    }

    fn decode_whole(t: &String) -> (r: Option<i64>) {
        match decode_int_in(t, i64::MIN as i128, i64::MAX as i128) {
            Some(x) => Some(x as i64),
            None => None,
        }
    }
}

impl Patchwork for i64 {
    open spec fn diff_spec(a: i64, b: i64) -> Seq<Entry> {
        leaf_diff(a == b, int_text(b as int))
    }

    fn diff(&self, other: &i64) -> (r: Result<Patch, StrainError>) {
        Ok(diff_int(*self as i128, *other as i128, "i64"))
    }

    open spec fn kind() -> Seq<char> {
        "i64"@
    }

    open spec fn admits(k: PathModel, v: Seq<char>) -> bool {
        true
    }

    open spec fn apply_spec(a: i64, es: Seq<Entry>) -> Result<i64, StrainError> {
        leaf_result(a, leaf_outcome(es, decoder_of::<i64>()))
    }

    fn new_patch(&self) -> (r: Patch) {
        let r = Patch::new("i64", Validator::AcceptAll);
        r
    }

    fn check_apply(&self, patch: &Patch) -> (r: Result<(), StrainError>) {
        match apply_leaf::<i64>(patch) {
            Ok(_) => Ok(()),
            Err(e) => Err(e),
        }
    }

    fn apply(&mut self, patch: &Patch) -> (r: Result<(), StrainError>) {
        match apply_leaf::<i64>(patch) {
            Ok(Some(x)) => {
                *self = x;
                Ok(())
            },
            Ok(None) => Ok(()),
            Err(e) => Err(e),
        }
    }

    proof fn lemma_apply_empty(a: i64) {
    }

    proof fn lemma_diff_reflexive(a: i64) {
    }

    proof fn lemma_whole_apply_idempotent(a: i64, v: Seq<char>) {
        lemma_leaf_single(v, decoder_of::<i64>());
    }
}

/// Applying the diff of two `i64` values to the first gives the second.
pub proof fn lemma_diff_then_apply_i64(a: i64, b: i64)
    ensures
        <i64 as Patchwork>::apply_spec(a, <i64 as Patchwork>::diff_spec(a, b)) == Ok::<i64, StrainError>(b),
{
    if a != b {
        lemma_leaf_single(int_text(b as int), decoder_of::<i64>());
        lemma_int_of_own_text(b as int, i64::MIN as int, i64::MAX as int);
    } else {
        assert(<i64 as Patchwork>::diff_spec(a, b).len() == 0);
    }
}

impl Decode for i128 {
    open spec fn decode_spec(t: Seq<char>) -> Option<i128> {
        match int_of_text(t, i128::MIN as int, i128::MAX as int) {
            Some(v) => Some(v as i128),
            None => None,
        }
    }

    fn decode_whole(t: &String) -> (r: Option<i128>) {
        match decode_int_in(t, i128::MIN, i128::MAX) {
            Some(x) => Some(x),
            None => None,
        }
    }
}

impl Patchwork for i128 {
    open spec fn diff_spec(a: i128, b: i128) -> Seq<Entry> {
        leaf_diff(a == b, int_text(b as int))
    }

    fn diff(&self, other: &i128) -> (r: Result<Patch, StrainError>) {
        Ok(diff_int(*self, *other, "i128"))
    }

    open spec fn kind() -> Seq<char> {
        "i128"@
    }

    open spec fn admits(k: PathModel, v: Seq<char>) -> bool {
        true
    }

    open spec fn apply_spec(a: i128, es: Seq<Entry>) -> Result<i128, StrainError> {
        leaf_result(a, leaf_outcome(es, decoder_of::<i128>()))
    }

    fn new_patch(&self) -> (r: Patch) {
        let r = Patch::new("i128", Validator::AcceptAll);
        r
    }

    fn check_apply(&self, patch: &Patch) -> (r: Result<(), StrainError>) {
        match apply_leaf::<i128>(patch) {
            Ok(_) => Ok(()),
            Err(e) => Err(e),
        }
    }

    fn apply(&mut self, patch: &Patch) -> (r: Result<(), StrainError>) {
        match apply_leaf::<i128>(patch) {
            Ok(Some(x)) => {
                *self = x;
                Ok(())
            },
            Ok(None) => Ok(()),
            Err(e) => Err(e),
        }
    }

    proof fn lemma_apply_empty(a: i128) {
    }

    proof fn lemma_diff_reflexive(a: i128) {
    }

    proof fn lemma_whole_apply_idempotent(a: i128, v: Seq<char>) {
        lemma_leaf_single(v, decoder_of::<i128>());
    }
}

/// Applying the diff of two `i128` values to the first gives the second.
pub proof fn lemma_diff_then_apply_i128(a: i128, b: i128)
    ensures
        <i128 as Patchwork>::apply_spec(a, <i128 as Patchwork>::diff_spec(a, b)) == Ok::<i128, StrainError>(b),
{
    if a != b {
        lemma_leaf_single(int_text(b as int), decoder_of::<i128>());
        lemma_int_of_own_text(b as int, i128::MIN as int, i128::MAX as int);
    } else {
        assert(<i128 as Patchwork>::diff_spec(a, b).len() == 0);
    }
}

impl Decode for isize {
    open spec fn decode_spec(t: Seq<char>) -> Option<isize> {
        match int_of_text(t, isize::MIN as int, isize::MAX as int) {
            Some(v) => Some(v as isize),
            None => None,
        }
    }

    fn decode_whole(t: &String) -> (r: Option<isize>) {
        match decode_int_in(t, isize::MIN as i128, isize::MAX as i128) {
            Some(x) => Some(x as isize),
            None => None,
        }
    }
}

impl Patchwork for isize {
    open spec fn diff_spec(a: isize, b: isize) -> Seq<Entry> {
        leaf_diff(a == b, int_text(b as int))
    }

    fn diff(&self, other: &isize) -> (r: Result<Patch, StrainError>) {
        Ok(diff_int(*self as i128, *other as i128, "isize"))
    }

    open spec fn kind() -> Seq<char> {
        "isize"@
    }

    open spec fn admits(k: PathModel, v: Seq<char>) -> bool {
        true
    }

    open spec fn apply_spec(a: isize, es: Seq<Entry>) -> Result<isize, StrainError> {
        leaf_result(a, leaf_outcome(es, decoder_of::<isize>()))
    }

    fn new_patch(&self) -> (r: Patch) {
        let r = Patch::new("isize", Validator::AcceptAll);
        r
    }

    fn check_apply(&self, patch: &Patch) -> (r: Result<(), StrainError>) {
        match apply_leaf::<isize>(patch) {
            Ok(_) => Ok(()),
            Err(e) => Err(e),
        }
    }

    fn apply(&mut self, patch: &Patch) -> (r: Result<(), StrainError>) {
        match apply_leaf::<isize>(patch) {
            Ok(Some(x)) => {
                *self = x;
                Ok(())
            },
            Ok(None) => Ok(()),
            Err(e) => Err(e),
        }
    }

    proof fn lemma_apply_empty(a: isize) {
    }

    proof fn lemma_diff_reflexive(a: isize) {
    }

    proof fn lemma_whole_apply_idempotent(a: isize, v: Seq<char>) {
        lemma_leaf_single(v, decoder_of::<isize>());
    }
}

/// Applying the diff of two `isize` values to the first gives the second.
pub proof fn lemma_diff_then_apply_isize(a: isize, b: isize)
    ensures
        <isize as Patchwork>::apply_spec(a, <isize as Patchwork>::diff_spec(a, b)) == Ok::<isize, StrainError>(b),
{
    if a != b {
        lemma_leaf_single(int_text(b as int), decoder_of::<isize>());
        lemma_int_of_own_text(b as int, isize::MIN as int, isize::MAX as int);
    } else {
        assert(<isize as Patchwork>::diff_spec(a, b).len() == 0);
    }
}

impl Decode for u8 {
    open spec fn decode_spec(t: Seq<char>) -> Option<u8> {
        match int_of_text(t, u8::MIN as int, u8::MAX as int) {
            Some(v) => Some(v as u8),
            None => None,
        }
    }

    fn decode_whole(t: &String) -> (r: Option<u8>) {
        match decode_int_in(t, u8::MIN as i128, u8::MAX as i128) {
            Some(x) => Some(x as u8),
            None => None,
        }
    }
}

impl Patchwork for u8 {
    open spec fn diff_spec(a: u8, b: u8) -> Seq<Entry> {
        leaf_diff(a == b, int_text(b as int))
    }

    fn diff(&self, other: &u8) -> (r: Result<Patch, StrainError>) {
        Ok(diff_int(*self as i128, *other as i128, "u8"))
    }

    open spec fn kind() -> Seq<char> {
        "u8"@
    }

    open spec fn admits(k: PathModel, v: Seq<char>) -> bool {
        true
    }

    open spec fn apply_spec(a: u8, es: Seq<Entry>) -> Result<u8, StrainError> {
        leaf_result(a, leaf_outcome(es, decoder_of::<u8>()))
    }

    fn new_patch(&self) -> (r: Patch) {
        let r = Patch::new("u8", Validator::AcceptAll);
        r
    }

    fn check_apply(&self, patch: &Patch) -> (r: Result<(), StrainError>) {
        match apply_leaf::<u8>(patch) {
            Ok(_) => Ok(()),
            Err(e) => Err(e),
        }
    }

    fn apply(&mut self, patch: &Patch) -> (r: Result<(), StrainError>) {
        match apply_leaf::<u8>(patch) {
            Ok(Some(x)) => {
                *self = x;
                Ok(())
            },
            Ok(None) => Ok(()),
            Err(e) => Err(e),
        }
    }

    proof fn lemma_apply_empty(a: u8) {
    }

    proof fn lemma_diff_reflexive(a: u8) {
    }

    proof fn lemma_whole_apply_idempotent(a: u8, v: Seq<char>) {
        lemma_leaf_single(v, decoder_of::<u8>());
    }
}

/// Applying the diff of two `u8` values to the first gives the second.
pub proof fn lemma_diff_then_apply_u8(a: u8, b: u8)
    ensures
        <u8 as Patchwork>::apply_spec(a, <u8 as Patchwork>::diff_spec(a, b)) == Ok::<u8, StrainError>(b),
{
    if a != b {
        lemma_leaf_single(int_text(b as int), decoder_of::<u8>());
        lemma_int_of_own_text(b as int, u8::MIN as int, u8::MAX as int);
    } else {
        assert(<u8 as Patchwork>::diff_spec(a, b).len() == 0);
    }
}

impl Decode for u16 {
    open spec fn decode_spec(t: Seq<char>) -> Option<u16> {
        match int_of_text(t, u16::MIN as int, u16::MAX as int) {
            Some(v) => Some(v as u16),
            None => None,
        }
    }

    fn decode_whole(t: &String) -> (r: Option<u16>) {
        match decode_int_in(t, u16::MIN as i128, u16::MAX as i128) {
            Some(x) => Some(x as u16),
            None => None,
        }
    }
}

impl Patchwork for u16 {
    open spec fn diff_spec(a: u16, b: u16) -> Seq<Entry> {
        leaf_diff(a == b, int_text(b as int))
    }

    fn diff(&self, other: &u16) -> (r: Result<Patch, StrainError>) {
        Ok(diff_int(*self as i128, *other as i128, "u16"))
    }

    open spec fn kind() -> Seq<char> {
        "u16"@
    }

    open spec fn admits(k: PathModel, v: Seq<char>) -> bool {
        true
    }

    open spec fn apply_spec(a: u16, es: Seq<Entry>) -> Result<u16, StrainError> {
        leaf_result(a, leaf_outcome(es, decoder_of::<u16>()))
    }

    fn new_patch(&self) -> (r: Patch) {
        let r = Patch::new("u16", Validator::AcceptAll);
        r
    }

    fn check_apply(&self, patch: &Patch) -> (r: Result<(), StrainError>) {
        match apply_leaf::<u16>(patch) {
            Ok(_) => Ok(()),
            Err(e) => Err(e),
        }
    }

    fn apply(&mut self, patch: &Patch) -> (r: Result<(), StrainError>) {
        match apply_leaf::<u16>(patch) {
            Ok(Some(x)) => {
                *self = x;
                Ok(())
            },
            Ok(None) => Ok(()),
            Err(e) => Err(e),
        }
    }

    proof fn lemma_apply_empty(a: u16) {
    }

    proof fn lemma_diff_reflexive(a: u16) {
    }

    proof fn lemma_whole_apply_idempotent(a: u16, v: Seq<char>) {
        lemma_leaf_single(v, decoder_of::<u16>());
    }
}

/// Applying the diff of two `u16` values to the first gives the second.
pub proof fn lemma_diff_then_apply_u16(a: u16, b: u16)
    ensures
        <u16 as Patchwork>::apply_spec(a, <u16 as Patchwork>::diff_spec(a, b)) == Ok::<u16, StrainError>(b),
{
    if a != b {
        lemma_leaf_single(int_text(b as int), decoder_of::<u16>());
        lemma_int_of_own_text(b as int, u16::MIN as int, u16::MAX as int);
    } else {
        assert(<u16 as Patchwork>::diff_spec(a, b).len() == 0);
    }
}

impl Decode for u32 {
    open spec fn decode_spec(t: Seq<char>) -> Option<u32> {
        match int_of_text(t, u32::MIN as int, u32::MAX as int) {
            Some(v) => Some(v as u32),
            None => None,
        }
    }

    fn decode_whole(t: &String) -> (r: Option<u32>) {
        match decode_int_in(t, u32::MIN as i128, u32::MAX as i128) {
            Some(x) => Some(x as u32),
            None => None,
        }
    }
}

impl Patchwork for u32 {
    open spec fn diff_spec(a: u32, b: u32) -> Seq<Entry> {
        leaf_diff(a == b, int_text(b as int))
    }

    fn diff(&self, other: &u32) -> (r: Result<Patch, StrainError>) {
        Ok(diff_int(*self as i128, *other as i128, "u32"))
    }

    open spec fn kind() -> Seq<char> {
        "u32"@
    }

    open spec fn admits(k: PathModel, v: Seq<char>) -> bool {
        true
    }

    open spec fn apply_spec(a: u32, es: Seq<Entry>) -> Result<u32, StrainError> {
        leaf_result(a, leaf_outcome(es, decoder_of::<u32>()))
    }

    fn new_patch(&self) -> (r: Patch) {
        let r = Patch::new("u32", Validator::AcceptAll);
        r
    }

    fn check_apply(&self, patch: &Patch) -> (r: Result<(), StrainError>) {
        match apply_leaf::<u32>(patch) {
            Ok(_) => Ok(()),
            Err(e) => Err(e),
        }
    }

    fn apply(&mut self, patch: &Patch) -> (r: Result<(), StrainError>) {
        match apply_leaf::<u32>(patch) {
            Ok(Some(x)) => {
                *self = x;
                Ok(())
            },
            Ok(None) => Ok(()),
            Err(e) => Err(e),
        }
    }

    proof fn lemma_apply_empty(a: u32) {
    }

    proof fn lemma_diff_reflexive(a: u32) {
    }

    proof fn lemma_whole_apply_idempotent(a: u32, v: Seq<char>) {
        lemma_leaf_single(v, decoder_of::<u32>());
    }
}

/// Applying the diff of two `u32` values to the first gives the second.
pub proof fn lemma_diff_then_apply_u32(a: u32, b: u32)
    ensures
        <u32 as Patchwork>::apply_spec(a, <u32 as Patchwork>::diff_spec(a, b)) == Ok::<u32, StrainError>(b),
{
    if a != b {
        lemma_leaf_single(int_text(b as int), decoder_of::<u32>());
        lemma_int_of_own_text(b as int, u32::MIN as int, u32::MAX as int);
    } else {
        assert(<u32 as Patchwork>::diff_spec(a, b).len() == 0);
    }
}

impl Decode for u64 {
    open spec fn decode_spec(t: Seq<char>) -> Option<u64> {
        match int_of_text(t, u64::MIN as int, u64::MAX as int) {
            Some(v) => Some(v as u64),
            None => None,
        }
    }

    fn decode_whole(t: &String) -> (r: Option<u64>) {
        match decode_int_in(t, u64::MIN as i128, u64::MAX as i128) {
            Some(x) => Some(x as u64),
            None => None,
        }
    }
}

impl Patchwork for u64 {
    open spec fn diff_spec(a: u64, b: u64) -> Seq<Entry> {
        leaf_diff(a == b, int_text(b as int))
    }

    fn diff(&self, other: &u64) -> (r: Result<Patch, StrainError>) {
        Ok(diff_int(*self as i128, *other as i128, "u64"))
    }

    open spec fn kind() -> Seq<char> {
        "u64"@
    }

    open spec fn admits(k: PathModel, v: Seq<char>) -> bool {
        true
    }

    open spec fn apply_spec(a: u64, es: Seq<Entry>) -> Result<u64, StrainError> {
        leaf_result(a, leaf_outcome(es, decoder_of::<u64>()))
    }

    fn new_patch(&self) -> (r: Patch) {
        let r = Patch::new("u64", Validator::AcceptAll);
        r
    }

    fn check_apply(&self, patch: &Patch) -> (r: Result<(), StrainError>) {
        match apply_leaf::<u64>(patch) {
            Ok(_) => Ok(()),
            Err(e) => Err(e),
        }
    }

    fn apply(&mut self, patch: &Patch) -> (r: Result<(), StrainError>) {
        match apply_leaf::<u64>(patch) {
            Ok(Some(x)) => {
                *self = x;
                Ok(())
            },
            Ok(None) => Ok(()),
            Err(e) => Err(e),
        }
    }

    proof fn lemma_apply_empty(a: u64) {
    }

    proof fn lemma_diff_reflexive(a: u64) {
    }

    proof fn lemma_whole_apply_idempotent(a: u64, v: Seq<char>) {
        lemma_leaf_single(v, decoder_of::<u64>());
    }
}

/// Applying the diff of two `u64` values to the first gives the second.
pub proof fn lemma_diff_then_apply_u64(a: u64, b: u64)
    ensures
        <u64 as Patchwork>::apply_spec(a, <u64 as Patchwork>::diff_spec(a, b)) == Ok::<u64, StrainError>(b),
{
    if a != b {
        lemma_leaf_single(int_text(b as int), decoder_of::<u64>());
        lemma_int_of_own_text(b as int, u64::MIN as int, u64::MAX as int);
    } else {
        assert(<u64 as Patchwork>::diff_spec(a, b).len() == 0);
    }
}

impl Decode for usize {
    open spec fn decode_spec(t: Seq<char>) -> Option<usize> {
        match int_of_text(t, usize::MIN as int, usize::MAX as int) {
            Some(v) => Some(v as usize),
            None => None,
        }
    }

    fn decode_whole(t: &String) -> (r: Option<usize>) {
        match decode_int_in(t, usize::MIN as i128, usize::MAX as i128) {
            Some(x) => Some(x as usize),
            None => None,
        }
    }
}

impl Patchwork for usize {
    open spec fn diff_spec(a: usize, b: usize) -> Seq<Entry> {
        leaf_diff(a == b, int_text(b as int))
    }

    fn diff(&self, other: &usize) -> (r: Result<Patch, StrainError>) {
        Ok(diff_int(*self as i128, *other as i128, "usize"))
    }

    open spec fn kind() -> Seq<char> {
        "usize"@
    }

    open spec fn admits(k: PathModel, v: Seq<char>) -> bool {
        true
    }

    open spec fn apply_spec(a: usize, es: Seq<Entry>) -> Result<usize, StrainError> {
        leaf_result(a, leaf_outcome(es, decoder_of::<usize>()))
    }

    fn new_patch(&self) -> (r: Patch) {
        let r = Patch::new("usize", Validator::AcceptAll);
        r
    }

    fn check_apply(&self, patch: &Patch) -> (r: Result<(), StrainError>) {
        match apply_leaf::<usize>(patch) {
            Ok(_) => Ok(()),
            Err(e) => Err(e),
        }
    }

    fn apply(&mut self, patch: &Patch) -> (r: Result<(), StrainError>) {
        match apply_leaf::<usize>(patch) {
            Ok(Some(x)) => {
                *self = x;
                Ok(())
            },
            Ok(None) => Ok(()),
            Err(e) => Err(e),
        }
    }

    proof fn lemma_apply_empty(a: usize) {
    }

    proof fn lemma_diff_reflexive(a: usize) {
    }

    proof fn lemma_whole_apply_idempotent(a: usize, v: Seq<char>) {
        lemma_leaf_single(v, decoder_of::<usize>());
    }
}

/// Applying the diff of two `usize` values to the first gives the second.
pub proof fn lemma_diff_then_apply_usize(a: usize, b: usize)
    ensures
        <usize as Patchwork>::apply_spec(a, <usize as Patchwork>::diff_spec(a, b)) == Ok::<usize, StrainError>(b),
{
    if a != b {
        lemma_leaf_single(int_text(b as int), decoder_of::<usize>());
        lemma_int_of_own_text(b as int, usize::MIN as int, usize::MAX as int);
    } else {
        assert(<usize as Patchwork>::diff_spec(a, b).len() == 0);
    }
}

impl Decode for u128 {
    open spec fn decode_spec(t: Seq<char>) -> Option<u128> {
        match int_of_text(t, u128::MIN as int, u128::MAX as int) {
            Some(v) => Some(v as u128),
            None => None,
        }
    }

    fn decode_whole(t: &String) -> (r: Option<u128>) {
        match decode_uint_in(t, u128::MIN, u128::MAX) {
            Some(x) => Some(x),
            None => None,
        }
    }
}

impl Patchwork for u128 {
    open spec fn diff_spec(a: u128, b: u128) -> Seq<Entry> {
        leaf_diff(a == b, int_text(b as int))
    }

    fn diff(&self, other: &u128) -> (r: Result<Patch, StrainError>) {
        Ok(diff_uint(*self, *other, "u128"))
    }

    open spec fn kind() -> Seq<char> {
        "u128"@
    }

    open spec fn admits(k: PathModel, v: Seq<char>) -> bool {
        true
    }

    open spec fn apply_spec(a: u128, es: Seq<Entry>) -> Result<u128, StrainError> {
        leaf_result(a, leaf_outcome(es, decoder_of::<u128>()))
    }

    fn new_patch(&self) -> (r: Patch) {
        let r = Patch::new("u128", Validator::AcceptAll);
        r
    }

    fn check_apply(&self, patch: &Patch) -> (r: Result<(), StrainError>) {
        match apply_leaf::<u128>(patch) {
            Ok(_) => Ok(()),
            Err(e) => Err(e),
        }
    }

    fn apply(&mut self, patch: &Patch) -> (r: Result<(), StrainError>) {
        match apply_leaf::<u128>(patch) {
            Ok(Some(x)) => {
                *self = x;
                Ok(())
            },
            Ok(None) => Ok(()),
            Err(e) => Err(e),
        }
    }

    proof fn lemma_apply_empty(a: u128) {
    }

    proof fn lemma_diff_reflexive(a: u128) {
    }

    proof fn lemma_whole_apply_idempotent(a: u128, v: Seq<char>) {
        lemma_leaf_single(v, decoder_of::<u128>());
    }
}

/// Applying the diff of two `u128` values to the first gives the second.
pub proof fn lemma_diff_then_apply_u128(a: u128, b: u128)
    ensures
        <u128 as Patchwork>::apply_spec(a, <u128 as Patchwork>::diff_spec(a, b)) == Ok::<u128, StrainError>(b),
{
    if a != b {
        lemma_leaf_single(int_text(b as int), decoder_of::<u128>());
        lemma_int_of_own_text(b as int, u128::MIN as int, u128::MAX as int);
    } else {
        assert(<u128 as Patchwork>::diff_spec(a, b).len() == 0);
    }
}

impl Decode for String {
    open spec fn decode_spec(t: Seq<char>) -> Option<Seq<char>> {
        string_of_text(t)
    }

    fn decode_whole(t: &String) -> (r: Option<String>) {
        decode_text_in(t)
    }
}

impl Patchwork for String {
    open spec fn diff_spec(a: Seq<char>, b: Seq<char>) -> Seq<Entry> {
        leaf_diff(a == b, json_text_of(b))
    }

    fn diff(&self, other: &String) -> (r: Result<Patch, StrainError>) {
        let mut p = Patch::new("String", Validator::AcceptAll);
        if *self != *other {
            if let Ok(t) = encode_text(other.as_str()) {
                let _ = p.add(Path::Whole, t);
                assert(p@ =~= seq![(None::<Seq<char>>, json_text_of(other@))]);
            }
        } else {
            assert(p@ =~= leaf_diff(true, json_text_of(other@)));
        }
        Ok(p)
    }

    open spec fn kind() -> Seq<char> {
        "String"@
    }

    open spec fn admits(k: PathModel, v: Seq<char>) -> bool {
        true
    }

    open spec fn apply_spec(a: Seq<char>, es: Seq<Entry>) -> Result<Seq<char>, StrainError> {
        leaf_result(a, leaf_outcome(es, decoder_of::<String>()))
    }

    fn new_patch(&self) -> (r: Patch) {
        let r = Patch::new("String", Validator::AcceptAll);
        r
    }

    fn check_apply(&self, patch: &Patch) -> (r: Result<(), StrainError>) {
        match apply_leaf::<String>(patch) {
            Ok(_) => Ok(()),
            Err(e) => Err(e),
        }
    }

    fn apply(&mut self, patch: &Patch) -> (r: Result<(), StrainError>) {
        match apply_leaf::<String>(patch) {
            Ok(Some(x)) => {
                *self = x;
                Ok(())
            },
            Ok(None) => Ok(()),
            Err(e) => Err(e),
        }
    }

    proof fn lemma_apply_empty(a: Seq<char>) {
    }

    proof fn lemma_diff_reflexive(a: Seq<char>) {
    }

    proof fn lemma_whole_apply_idempotent(a: Seq<char>, v: Seq<char>) {
        lemma_leaf_single(v, decoder_of::<String>());
    }
}

/// Applying the diff of two strings to the first gives the second.
pub proof fn lemma_diff_then_apply_string(a: Seq<char>, b: Seq<char>)
    ensures
        <String as Patchwork>::apply_spec(a, <String as Patchwork>::diff_spec(a, b)) == Ok::<Seq<char>, StrainError>(b),
{
    if a != b {
        lemma_leaf_single(json_text_of(b), decoder_of::<String>());
        let w = choose|w: Seq<char>| json_text_of(w) == json_text_of(b);
        lemma_json_text_injective(w, b);
    } else {
        assert(<String as Patchwork>::diff_spec(a, b).len() == 0);
    }
}

impl Decode for bool {
    open spec fn decode_spec(t: Seq<char>) -> Option<bool> {
        bool_of_text(t)
    }

    fn decode_whole(t: &String) -> (r: Option<bool>) {
        decode_bool_in(t)
    }
}

impl Patchwork for bool {
    open spec fn diff_spec(a: bool, b: bool) -> Seq<Entry> {
        leaf_diff(a == b, bool_text(b))
    }

    fn diff(&self, other: &bool) -> (r: Result<Patch, StrainError>) {
        let mut p = Patch::new("bool", Validator::AcceptAll);
        if *self != *other {
            if let Ok(t) = encode_bool(*other) {
                let _ = p.add(Path::Whole, t);
                assert(p@ =~= seq![(None::<Seq<char>>, bool_text(other@))]);
            }
        } else {
            assert(p@ =~= leaf_diff(true, bool_text(other@)));
        }
        Ok(p)
    }

    open spec fn kind() -> Seq<char> {
        "bool"@
    }

    open spec fn admits(k: PathModel, v: Seq<char>) -> bool {
        true
    }

    open spec fn apply_spec(a: bool, es: Seq<Entry>) -> Result<bool, StrainError> {
        leaf_result(a, leaf_outcome(es, decoder_of::<bool>()))
    }

    fn new_patch(&self) -> (r: Patch) {
        let r = Patch::new("bool", Validator::AcceptAll);
        r
    }

    fn check_apply(&self, patch: &Patch) -> (r: Result<(), StrainError>) {
        match apply_leaf::<bool>(patch) {
            Ok(_) => Ok(()),
            Err(e) => Err(e),
        }
    }

    fn apply(&mut self, patch: &Patch) -> (r: Result<(), StrainError>) {
        match apply_leaf::<bool>(patch) {
            Ok(Some(x)) => {
                *self = x;
                Ok(())
            },
            Ok(None) => Ok(()),
            Err(e) => Err(e),
        }
    }

    proof fn lemma_apply_empty(a: bool) {
    }

    proof fn lemma_diff_reflexive(a: bool) {
    }

    proof fn lemma_whole_apply_idempotent(a: bool, v: Seq<char>) {
        lemma_leaf_single(v, decoder_of::<bool>());
    }
}

/// Applying the diff of two booleans to the first gives the second.
pub proof fn lemma_diff_then_apply_bool(a: bool, b: bool)
    ensures
        <bool as Patchwork>::apply_spec(a, <bool as Patchwork>::diff_spec(a, b)) == Ok::<bool, StrainError>(b),
{
    if a != b {
        lemma_leaf_single(bool_text(b), decoder_of::<bool>());
        assert(bool_text(true) != bool_text(false));
    } else {
        assert(<bool as Patchwork>::diff_spec(a, b).len() == 0);
    }
}

impl Decode for char {
    open spec fn decode_spec(t: Seq<char>) -> Option<char> {
        char_of_text(t)
    }

    fn decode_whole(t: &String) -> (r: Option<char>) {
        decode_char_in(t)
    }
}

impl Patchwork for char {
    open spec fn diff_spec(a: char, b: char) -> Seq<Entry> {
        leaf_diff(a == b, char_text(b))
    }

    fn diff(&self, other: &char) -> (r: Result<Patch, StrainError>) {
        let mut p = Patch::new("char", Validator::AcceptAll);
        if *self != *other {
            if let Ok(t) = encode_char(*other) {
                let _ = p.add(Path::Whole, t);
                assert(p@ =~= seq![(None::<Seq<char>>, char_text(other@))]);
            }
        } else {
            assert(p@ =~= leaf_diff(true, char_text(other@)));
        }
        Ok(p)
    }

    open spec fn kind() -> Seq<char> {
        "char"@
    }

    open spec fn admits(k: PathModel, v: Seq<char>) -> bool {
        true
    }

    open spec fn apply_spec(a: char, es: Seq<Entry>) -> Result<char, StrainError> {
        leaf_result(a, leaf_outcome(es, decoder_of::<char>()))
    }

    fn new_patch(&self) -> (r: Patch) {
        let r = Patch::new("char", Validator::AcceptAll);
        r
    }

    fn check_apply(&self, patch: &Patch) -> (r: Result<(), StrainError>) {
        match apply_leaf::<char>(patch) {
            Ok(_) => Ok(()),
            Err(e) => Err(e),
        }
    }

    fn apply(&mut self, patch: &Patch) -> (r: Result<(), StrainError>) {
        match apply_leaf::<char>(patch) {
            Ok(Some(x)) => {
                *self = x;
                Ok(())
            },
            Ok(None) => Ok(()),
            Err(e) => Err(e),
        }
    }

    proof fn lemma_apply_empty(a: char) {
    }

    proof fn lemma_diff_reflexive(a: char) {
    }

    proof fn lemma_whole_apply_idempotent(a: char, v: Seq<char>) {
        lemma_leaf_single(v, decoder_of::<char>());
    }
}

/// Applying the diff of two characters to the first gives the second.
pub proof fn lemma_diff_then_apply_char(a: char, b: char)
    ensures
        <char as Patchwork>::apply_spec(a, <char as Patchwork>::diff_spec(a, b)) == Ok::<char, StrainError>(b),
{
    if a != b {
        lemma_leaf_single(char_text(b), decoder_of::<char>());
        lemma_char_of_own_text(b);
    } else {
        assert(<char as Patchwork>::diff_spec(a, b).len() == 0);
    }
}

/// The pair that `inner` holds as two texts joined by a comma, taking the
/// first comma from position `i` on at which both parts decode.
pub open spec fn pair_split<A: Decode, B: Decode>(inner: Seq<char>, i: int) -> Option<
    (A::V, B::V),
>
    decreases inner.len() - i,
{
    if i < 0 || i >= inner.len() {
        None
    } else if inner[i] == ',' && A::decode_spec(inner.take(i)) is Some && B::decode_spec(
        inner.skip(i + 1),
    ) is Some {
        Some((A::decode_spec(inner.take(i))->0, B::decode_spec(inner.skip(i + 1))->0))
    } else {
        pair_split::<A, B>(inner, i + 1)
    }
}

/// The pair whose JSON text is `t`: the two parts' texts, joined by a comma
/// within brackets.
pub open spec fn pair_of_text<A: Decode, B: Decode>(t: Seq<char>) -> Option<(A::V, B::V)> {
    if t.len() >= 2 && t[0] == '[' && t[t.len() - 1] == ']' {
        pair_split::<A, B>(t.subrange(1, t.len() - 1), 0)
    } else {
        None
    }
}

/// What applying `es` to the pair `a` gives. A whole-value entry replaces
/// the pair with the pair it decodes to; then each part gets the entries
/// below its field (`0` or `1`). An entry below neither is an unknown path.
pub open spec fn pair_result<A: Patchwork, B: Patchwork>(a: (A::V, B::V), es: Seq<Entry>) -> Result<
    (A::V, B::V),
    StrainError,
> {
    let p0 = routed(seq!['0'], es);
    let p1 = routed(seq!['1'], es);
    let w = wholes(es);
    if p0.len() + p1.len() + w.len() != es.len() {
        Err(StrainError::UnknownPathError)
    } else {
        match leaf_outcome(w, decoder_of::<(A, B)>()) {
            Err(e) => Err(e),
            Ok(o) => {
                let base = match o {
                    Some(d) => d,
                    None => a,
                };
                match A::apply_spec(base.0, p0) {
                    Err(e) => Err(e),
                    Ok(x) => match B::apply_spec(base.1, p1) {
                        Err(e) => Err(e),
                        Ok(y) => Ok((x, y)),
                    },
                }
            },
        }
    }
}

/// The parts of `patch` for a pair: its whole-value entries and the entries
/// for each field, or the error when some entry is below neither field.
fn pair_parts(patch: &Patch) -> (r: Result<(Patch, Patch, Patch), StrainError>)
    ensures
        match r {
            Ok((w, p0, p1)) => w@ == wholes(patch@) && p0@ == routed(seq!['0'], patch@) && p1@
                == routed(seq!['1'], patch@) && p0@.len() + p1@.len() + w@.len() == patch@.len(),
            Err(e) => e == StrainError::UnknownPathError && routed(seq!['0'], patch@).len() + routed(
                seq!['1'],
                patch@,
            ).len() + wholes(patch@).len() != patch@.len(),
        },
{
    proof {
        reveal_strlit("0");
        reveal_strlit("1");
    }
    assert("0"@ =~= seq!['0']);
    assert("1"@ =~= seq!['1']);
    let w = patch.whole_part();
    let p0 = patch.for_field("0");
    let p1 = patch.for_field("1");
    if (p0.len() as u128) + (p1.len() as u128) + (w.len() as u128) != (patch.len() as u128) {
        return Err(StrainError::UnknownPathError);
    }
    Ok((w, p0, p1))
}

/// A pair is a record of two fields, named `0` and `1`; its JSON text is
/// the two parts' texts within brackets, as `[1,"y"]`.
impl<A: Decode, B: Decode> Decode for (A, B) {
    open spec fn decode_spec(t: Seq<char>) -> Option<(A::V, B::V)> {
        pair_of_text::<A, B>(t)
    }

    fn decode_whole(t: &String) -> (r: Option<(A, B)>) {
        let s = t.as_str();
        let n = s.unicode_len();
        if n < 2 || s.get_char(0) != '[' || s.get_char(n - 1) != ']' {
            return None;
        }
        let inner = s.substring_char(1, n - 1);
        let m = n - 2;
        assert(inner@ == t@.subrange(1, t@.len() - 1));
        let mut i: usize = 0;
        while i < m
            invariant
                i <= m,
                m == inner@.len(),
                inner@ == t@.subrange(1, t@.len() - 1),
                t@.len() >= 2 && t@[0] == '[' && t@[t@.len() - 1] == ']',
                pair_split::<A, B>(inner@, 0) == pair_split::<A, B>(inner@, i as int),
            decreases m - i,
        {
            if inner.get_char(i) == ',' {
                let left = inner.substring_char(0, i).to_string();
                let right = inner.substring_char(i + 1, m).to_string();
                assert(left@ =~= inner@.take(i as int));
                assert(right@ =~= inner@.skip(i as int + 1));
                match A::decode_whole(&left) {
                    Some(x) => match B::decode_whole(&right) {
                        Some(y) => {
                            return Some((x, y));
                        },
                        None => {},
                    },
                    None => {},
                }
            }
            i = i + 1;
        }
        None
    }
}

impl<A: Patchwork, B: Patchwork> Patchwork for (A, B) {
    open spec fn kind() -> Seq<char> {
        "pair"@
    }

    open spec fn admits(k: PathModel, v: Seq<char>) -> bool {
        true
    }

    open spec fn diff_spec(a: (A::V, B::V), b: (A::V, B::V)) -> Seq<Entry> {
        merged(
            merged(Seq::<Entry>::empty(), seq!['0'], A::diff_spec(a.0, b.0)),
            seq!['1'],
            B::diff_spec(a.1, b.1),
        )
    }

    open spec fn apply_spec(a: (A::V, B::V), es: Seq<Entry>) -> Result<(A::V, B::V), StrainError> {
        pair_result::<A, B>(a, es)
    }

    fn new_patch(&self) -> (r: Patch) {
        let r = Patch::new("pair", Validator::AcceptAll);
        r
    }

    fn diff(&self, other: &(A, B)) -> (r: Result<Patch, StrainError>) {
        proof {
            reveal_strlit("0");
            reveal_strlit("1");
        }
        assert("0"@ =~= seq!['0']);
        assert("1"@ =~= seq!['1']);
        let mut p = Patch::new("pair", Validator::AcceptAll);
        match self.0.diff(&other.0) {
            Ok(d) => {
                let _ = p.merge("0", d);
            },
            Err(e) => {
                return Err(e);
            },
        }
        match self.1.diff(&other.1) {
            Ok(d) => {
                let _ = p.merge("1", d);
            },
            Err(e) => {
                return Err(e);
            },
        }
        Ok(p)
    }

    fn check_apply(&self, patch: &Patch) -> (r: Result<(), StrainError>) {
        let (w, p0, p1) = match pair_parts(patch) {
            Ok(parts) => parts,
            Err(e) => {
                return Err(e);
            },
        };
        match apply_leaf::<(A, B)>(&w) {
            Err(e) => Err(e),
            Ok(Some(b)) => {
                match b.0.check_apply(&p0) {
                    Err(e) => {
                        return Err(e);
                    },
                    Ok(()) => {},
                }
                b.1.check_apply(&p1)
            },
            Ok(None) => {
                match self.0.check_apply(&p0) {
                    Err(e) => {
                        return Err(e);
                    },
                    Ok(()) => {},
                }
                self.1.check_apply(&p1)
            },
        }
    }

    fn apply(&mut self, patch: &Patch) -> (r: Result<(), StrainError>) {
        let (w, p0, p1) = match pair_parts(patch) {
            Ok(parts) => parts,
            Err(e) => {
                return Err(e);
            },
        };
        match apply_leaf::<(A, B)>(&w) {
            Err(e) => Err(e),
            Ok(Some(b)) => {
                let mut b = b;
                match b.0.check_apply(&p0) {
                    Err(e) => {
                        return Err(e);
                    },
                    Ok(()) => {},
                }
                match b.1.check_apply(&p1) {
                    Err(e) => {
                        return Err(e);
                    },
                    Ok(()) => {},
                }
                let _ = b.0.apply(&p0);
                let _ = b.1.apply(&p1);
                *self = b;
                Ok(())
            },
            Ok(None) => {
                match self.0.check_apply(&p0) {
                    Err(e) => {
                        return Err(e);
                    },
                    Ok(()) => {},
                }
                match self.1.check_apply(&p1) {
                    Err(e) => {
                        return Err(e);
                    },
                    Ok(()) => {},
                }
                let _ = self.0.apply(&p0);
                let _ = self.1.apply(&p1);
                Ok(())
            },
        }
    }

    proof fn lemma_apply_empty(a: (A::V, B::V)) {
        let es = Seq::<Entry>::empty();
        assert(routed(seq!['0'], es).len() == 0);
        assert(routed(seq!['1'], es).len() == 0);
        assert(wholes(es).len() == 0);
        A::lemma_apply_empty(a.0);
        B::lemma_apply_empty(a.1);
    }

    proof fn lemma_diff_reflexive(a: (A::V, B::V)) {
        A::lemma_diff_reflexive(a.0);
        B::lemma_diff_reflexive(a.1);
        let e = Seq::<Entry>::empty();
        assert(under(seq!['0'], e) =~= e);
        assert(under(seq!['1'], e) =~= e);
    }

    proof fn lemma_whole_apply_idempotent(a: (A::V, B::V), v: Seq<char>) {
        let es = seq![(None::<Seq<char>>, v)];
        let e = Seq::<Entry>::empty();
        assert(es.drop_last() =~= e);
        assert(es.last().0 is None);
        assert(routed(seq!['0'], e) == e);
        assert(routed(seq!['1'], e) == e);
        assert(routed(seq!['0'], es) == routed(seq!['0'], e));
        assert(routed(seq!['1'], es) == routed(seq!['1'], e));
        assert(wholes(e) == e);
        assert(wholes(es) =~= es);
        lemma_leaf_single(v, decoder_of::<(A, B)>());
        if let Some(d) = pair_of_text::<A, B>(v) {
            A::lemma_apply_empty(d.0);
            B::lemma_apply_empty(d.1);
        }
    }
}

/// Applying the diff of two pairs to the first gives the second, where
/// each part's type turns its own diffs back into the new value.
pub proof fn lemma_diff_then_apply_pair<A: Patchwork, B: Patchwork>(a: (A::V, B::V), b: (A::V, B::V))
    requires
        keys_unique(A::diff_spec(a.0, b.0)),
        keys_unique(B::diff_spec(a.1, b.1)),
        A::apply_spec(a.0, A::diff_spec(a.0, b.0)) == Ok::<A::V, StrainError>(b.0),
        B::apply_spec(a.1, B::diff_spec(a.1, b.1)) == Ok::<B::V, StrainError>(b.1),
    ensures
        <(A, B) as Patchwork>::apply_spec(a, <(A, B) as Patchwork>::diff_spec(a, b)) == Ok::<
            (A::V, B::V),
            StrainError,
        >(b),
{
    let f0 = seq!['0'];
    let f1 = seq!['1'];
    assert(is_field_name(f0));
    assert(is_field_name(f1));
    assert(f0 != f1) by {
        assert(f0[0] != f1[0]);
    }
    lemma_route_merged(f0, f1, A::diff_spec(a.0, b.0), B::diff_spec(a.1, b.1));
    let w = wholes(<(A, B) as Patchwork>::diff_spec(a, b));
    assert(w.len() == 0);
    assert(leaf_outcome(w, decoder_of::<(A, B)>()) == Ok::<Option<(A::V, B::V)>, StrainError>(None));
}

} // verus!
