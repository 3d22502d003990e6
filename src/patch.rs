//! Patches: keyed sets of encoded values that describe a change.

use vstd::prelude::*;
use std::rc::Rc;
use crate::error::StrainError;
use crate::path::{Path, PathModel, prefixed, unprefixed};
use crate::validator::Validator;

verus! {

/// The model of one entry: where it applies and the encoded value.
pub type Entry = (PathModel, Seq<char>);

/// No two entries share a path.
pub open spec fn keys_unique(es: Seq<Entry>) -> bool {
    forall|i: int, j: int| 0 <= i < j < es.len() ==> es[i].0 != es[j].0
}

/// Some entry is stored at `k`.
pub open spec fn has_key(es: Seq<Entry>, k: PathModel) -> bool {
    exists|i: int| 0 <= i < es.len() && (#[trigger] es[i]).0 == k
}

/// The entries after storing `v` at `k`: the entry already stored at `k` is
/// overwritten in place, or else a new one goes last.
pub open spec fn upsert(es: Seq<Entry>, k: PathModel, v: Seq<char>) -> Seq<Entry> {
    if has_key(es, k) {
        es.update(choose|i: int| 0 <= i < es.len() && (#[trigger] es[i]).0 == k, (k, v))
    } else {
        es.push((k, v))
    }
}

/// The entries after storing each of `more`, in order.
pub open spec fn upsert_all(es: Seq<Entry>, more: Seq<Entry>) -> Seq<Entry>
    decreases more.len(),
{
    if more.len() == 0 {
        es
    } else {
        upsert(upsert_all(es, more.drop_last()), more.last().0, more.last().1)
    }
}

/// `es` with each key moved under the field `prefix`.
pub open spec fn under(prefix: Seq<char>, es: Seq<Entry>) -> Seq<Entry> {
    es.map_values(|e: Entry| (prefixed(prefix, e.0), e.1))
}

/// The entries after merging `other` under the field `prefix`.
pub open spec fn merged(es: Seq<Entry>, prefix: Seq<char>, other: Seq<Entry>) -> Seq<Entry> {
    upsert_all(es, under(prefix, other))
}

/// The entries of `es` that lie below the field `prefix`, in order, each at
/// its path within that field.
pub open spec fn routed(prefix: Seq<char>, es: Seq<Entry>) -> Seq<Entry>
    decreases es.len(),
{
    if es.len() == 0 {
        es
    } else {
        let front = routed(prefix, es.drop_last());
        match unprefixed(prefix, es.last().0) {
            Some(k) => front.push((k, es.last().1)),
            None => front,
        }
    }
}

/// The entries of `es` for the whole value, in order.
pub open spec fn wholes(es: Seq<Entry>) -> Seq<Entry>
    decreases es.len(),
{
    if es.len() == 0 {
        es
    } else if es.last().0 is None {
        wholes(es.drop_last()).push(es.last())
    } else {
        wholes(es.drop_last())
    }
}

/// A description of how to turn one value into another: encoded values keyed
/// by the path at which they apply. Every entry passed the patch's validator
/// when it was stored.
#[derive(Debug)]
pub struct Patch {
    patch_type: String,
    validator: Rc<Validator>,
    entries: Vec<(Path, String)>,
}

/// The model of a list of paths and encoded values.
pub open spec fn entries_model(v: Seq<(Path, String)>) -> Seq<Entry> {
    v.map_values(|e: (Path, String)| (e.0@, e.1@))
}

impl View for Patch {
    type V = Seq<Entry>;

    closed spec fn view(&self) -> Seq<Entry> {
        entries_model(self.entries@)
    }
}

impl Patch {
    /// Whether this patch's validator admits the value `v` stored at `k`.
    pub closed spec fn accepts(&self, k: PathModel, v: Seq<char>) -> bool {
        self.validator.accepts(k, v)
    }

    /// The name of the type that the patch describes.
    pub closed spec fn kind_name(&self) -> Seq<char> {
        self.patch_type@
    }

    /// Both patches have the same type name and the same validator rule.
    pub open spec fn same_kind(&self, other: &Patch) -> bool {
        &&& self.kind_name() == other.kind_name()
        &&& forall|k: PathModel, v: Seq<char>| self.accepts(k, v) == other.accepts(k, v)
    }

    /// Every admitted entry of `more` passes this patch's validator.
    pub open spec fn admits_all(&self, more: Seq<Entry>) -> bool {
        forall|i: int| 0 <= i < more.len() ==> self.accepts(#[trigger] more[i].0, more[i].1)
    }

    /// Paths are unique and every entry passes the validator.
    pub open spec fn wf(&self) -> bool {
        &&& keys_unique(self@)
        &&& self.admits_all(self@)
    }

    /// An empty patch for the type named `patch_type`, checked by `validator`.
    pub fn new(patch_type: &str, validator: Validator) -> (r: Patch)
        ensures
            r.wf(),
            r@ == Seq::<Entry>::empty(),
            r.kind_name() == patch_type@,
            forall|k: PathModel, v: Seq<char>| r.accepts(k, v) == validator.accepts(k, v),
    {
        let r = Patch { patch_type: patch_type.to_string(), validator: Rc::new(validator), entries: Vec::new() };
        assert(r@ =~= Seq::<Entry>::empty());
        r
    }

    /// An independent copy of this patch.
    pub fn duplicate(&self) -> (r: Patch)
        ensures
            r@ == self@,
            r.same_kind(self),
    {
        let mut entries: Vec<(Path, String)> = Vec::new();
        let mut i: usize = 0;
        while i < self.entries.len()
            invariant
                i <= self.entries.len(),
                entries@.len() == i,
                forall|j: int|
                    0 <= j < i ==> (#[trigger] entries@[j]).0@ == self.entries@[j].0@
                        && entries@[j].1@ == self.entries@[j].1@,
            decreases self.entries.len() - i,
        {
            entries.push((self.entries[i].0.duplicate(), self.entries[i].1.clone()));
            i = i + 1;
        }
        let r = Patch {
            patch_type: self.patch_type.clone(),
            validator: Rc::clone(&self.validator),
            entries,
        };
        assert(r@ =~= self@);
        r
    }

    /// Whether the patch holds no entry: it describes no change.
    pub fn is_empty(&self) -> (r: bool)
        ensures
            r == (self@.len() == 0),
    {
        self.entries.len() == 0
    }

    /// The number of entries.
    pub fn len(&self) -> (r: usize)
        ensures
            r == self@.len(),
    {
        self.entries.len()
    }

    /// The name of the type that the patch describes.
    pub fn patch_type(&self) -> (r: String)
        ensures
            r@ == self.kind_name(),
    {
        self.patch_type.clone()
    }

    /// Where the entry stored at `k` stands, if there is one.
    fn position(&self, k: &Path) -> (r: Option<usize>)
        ensures
            r is Some <==> has_key(self@, k@),
            r is Some ==> r->0 < self@.len() && self@[r->0 as int].0 == k@,
    {
        let mut i: usize = 0;
        while i < self.entries.len()
            invariant
                i <= self.entries.len(),
                forall|j: int| 0 <= j < i ==> (#[trigger] self@[j]).0 != k@,
            decreases self.entries.len() - i,
        {
            if self.entries[i].0.same(k) {
                assert(self@[i as int].0 == k@);
                return Some(i);
            }
            i = i + 1;
        }
        None
    }

    /// The value stored at `k`, if there is one.
    pub fn value_at(&self, k: &Path) -> (r: Option<String>)
        requires
            self.wf(),
        ensures
            r is Some <==> has_key(self@, k@),
            r is Some ==> exists|i: int|
                0 <= i < self@.len() && (#[trigger] self@[i]) == (k@, r->0@),
    {
        match self.position(k) {
            Some(i) => {
                let v = self.entries[i].1.clone();
                assert(self@[i as int] == (k@, v@));
                Some(v)
            },
            None => None,
        }
    }

    /// The entries in order, as paths and encoded values.
    pub fn entries(&self) -> (r: Vec<(Path, String)>)
        ensures
            r@.len() == self@.len(),
            forall|j: int|
                0 <= j < r@.len() ==> ((#[trigger] r@[j]).0@, r@[j].1@) == self@[j],
    {
        let mut r: Vec<(Path, String)> = Vec::new();
        let mut i: usize = 0;
        while i < self.entries.len()
            invariant
                i <= self.entries.len(),
                r@.len() == i,
                forall|j: int|
                    0 <= j < i ==> ((#[trigger] r@[j]).0@, r@[j].1@) == self@[j],
            decreases self.entries.len() - i,
        {
            r.push((self.entries[i].0.duplicate(), self.entries[i].1.clone()));
            i = i + 1;
        }
        r
    }

    /// Stores `value` at `key`, overwriting the value stored there, once the
    /// validator admits the pair; returns a copy of the patch as it then is.
    /// A refused pair leaves the patch as it was.
    pub fn add(&mut self, key: Path, value: String) -> (r: Result<Patch, StrainError>)
        requires
            old(self).wf(),
        ensures
            final(self).wf(),
            final(self).same_kind(old(self)),
            r is Ok <==> old(self).accepts(key@, value@),
            r is Ok ==> final(self)@ == upsert(old(self)@, key@, value@)
                && r->Ok_0@ == final(self)@ && r->Ok_0.same_kind(final(self)),
            r is Err ==> final(self)@ == old(self)@
                && r->Err_0 == StrainError::ValidationError,
    {
        match self.validator.check(&key, &value) {
            Err(e) => Err(e),
            Ok(()) => {
                self.store(key, value);
                Ok(self.duplicate())
            },
        }
    }

    /// A patch for the type named `patch_type`, checked by `validator`, that
    /// holds `items` stored in order; fails at the first pair that the
    /// validator refuses.
    pub fn from_entries(patch_type: &str, validator: Validator, items: Vec<(Path, String)>) -> (r:
        Result<Patch, StrainError>)
        ensures
            r is Ok <==> (forall|i: int|
                0 <= i < items@.len() ==> validator.accepts(
                    #[trigger] entries_model(items@)[i].0,
                    entries_model(items@)[i].1,
                )),
            r is Ok ==> r->Ok_0.wf() && r->Ok_0@ == upsert_all(
                Seq::<Entry>::empty(),
                entries_model(items@),
            ) && r->Ok_0.kind_name() == patch_type@ && forall|k: PathModel, v: Seq<char>|
                r->Ok_0.accepts(k, v) == validator.accepts(k, v),
            r is Err ==> r->Err_0 == StrainError::ValidationError,
    {
        let ghost more = entries_model(items@);
        let ghost rule = validator;
        let mut acc = Patch::new(patch_type, validator);
        let mut i: usize = 0;
        while i < items.len()
            invariant
                i <= items.len(),
                more == entries_model(items@),
                rule == validator,
                acc.wf(),
                acc.kind_name() == patch_type@,
                forall|k: PathModel, v: Seq<char>| acc.accepts(k, v) == rule.accepts(k, v),
                acc@ == upsert_all(Seq::<Entry>::empty(), more.subrange(0, i as int)),
                acc.admits_all(more.subrange(0, i as int)),
            decreases items.len() - i,
        {
            let key = items[i].0.duplicate();
            let value = items[i].1.clone();
            proof {
                assert(more[i as int] == (key@, value@));
            }
            match acc.validator.check(&key, &value) {
                Err(e) => {
                    assert(!rule.accepts(entries_model(items@)[i as int].0, entries_model(items@)[i as int].1));
                    return Err(e);
                },
                Ok(()) => {
                    acc.store(key, value);
                },
            }
            proof {
                let s1 = more.subrange(0, i as int + 1);
                assert(s1.drop_last() =~= more.subrange(0, i as int));
                assert(s1.last() == more[i as int]);
                assert forall|j: int| 0 <= j < s1.len() implies acc.accepts(
                    #[trigger] s1[j].0,
                    s1[j].1,
                ) by {
                    if j < i {
                        assert(s1[j] == more.subrange(0, i as int)[j]);
                    }
                }
            }
            i = i + 1;
        }
        assert(more.subrange(0, items@.len() as int) =~= more);
        Ok(acc)
    }

    /// Merges `patch` into this one under the field `prefix`: each entry of
    /// `patch` is added in order, the one for the whole value at the path
    /// `prefix` itself and any other at its path joined to `prefix` by a dot.
    /// Returns a copy of the patch as it then is. The first entry that the
    /// validator refuses stops the merge: the entries added before it stay.
    pub fn merge(&mut self, prefix: &str, patch: Patch) -> (r: Result<Patch, StrainError>)
        requires
            old(self).wf(),
        ensures
            final(self).wf(),
            final(self).same_kind(old(self)),
            r is Ok <==> old(self).admits_all(under(prefix@, patch@)),
            r is Ok ==> final(self)@ == merged(old(self)@, prefix@, patch@)
                && r->Ok_0@ == final(self)@ && r->Ok_0.same_kind(final(self)),
            r is Err ==> r->Err_0 == StrainError::ValidationError && exists|j: int|
                0 <= j < patch@.len() && old(self).admits_all(
                    #[trigger] under(prefix@, patch@).take(j),
                ) && !old(self).accepts(under(prefix@, patch@)[j].0, under(prefix@, patch@)[j].1)
                    && final(self)@ == upsert_all(old(self)@, under(prefix@, patch@).take(j)),
    {
        let ghost more = under(prefix@, patch@);
        let ghost start = *self;
        let mut i: usize = 0;
        assert(more.take(0) =~= Seq::<Entry>::empty());
        while i < patch.entries.len()
            invariant
                i <= patch.entries.len(),
                more == under(prefix@, patch@),
                start == *old(self),
                start.wf(),
                self.wf(),
                self.same_kind(&start),
                self@ == upsert_all(start@, more.take(i as int)),
                start.admits_all(more.take(i as int)),
            decreases patch.entries.len() - i,
        {
            let key = patch.entries[i].0.under(prefix);
            let value = patch.entries[i].1.clone();
            proof {
                assert(more[i as int] == (key@, value@));
            }
            match self.validator.check(&key, &value) {
                Err(e) => {
                    assert(!start.accepts(more[i as int].0, more[i as int].1));
                    assert(start.admits_all(more.take(i as int)));
                    return Err(e);
                },
                Ok(()) => {
                    self.store(key, value);
                },
            }
            proof {
                let s1 = more.take(i as int + 1);
                assert(s1.drop_last() =~= more.take(i as int));
                assert(s1.last() == more[i as int]);
                assert forall|j: int| 0 <= j < s1.len() implies start.accepts(
                    #[trigger] s1[j].0,
                    s1[j].1,
                ) by {
                    if j < i {
                        assert(s1[j] == more.take(i as int)[j]);
                    }
                }
            }
            i = i + 1;
        }
        assert(more.take(patch@.len() as int) =~= more);
        Ok(self.duplicate())
    }

    /// The part of this patch that lies below the field `field`, for that
    /// field's own `apply`: each entry at the field itself becomes one for
    /// the field's whole value, and each below it keeps the rest of its path.
    pub fn for_field(&self, field: &str) -> (r: Patch)
        ensures
            self.wf() ==> r.wf(),
            r@ == routed(field@, self@),
            r.kind_name() == field@,
            forall|k: PathModel, v: Seq<char>| r.accepts(k, v),
    {
        let mut entries: Vec<(Path, String)> = Vec::new();
        let mut i: usize = 0;
        while i < self.entries.len()
            invariant
                i <= self.entries.len(),
                entries_model(entries@) == routed(field@, self@.subrange(0, i as int)),
            decreases self.entries.len() - i,
        {
            let ghost before = entries_model(entries@);
            let ghost s1 = self@.subrange(0, i as int + 1);
            assert(s1.drop_last() =~= self@.subrange(0, i as int));
            assert(s1.last() == self@[i as int]);
            match self.entries[i].0.below(field) {
                Some(k) => {
                    entries.push((k, self.entries[i].1.clone()));
                    assert(entries_model(entries@) =~= before.push(
                        (entries@.last().0@, self@[i as int].1),
                    ));
                },
                None => {},
            }
            i = i + 1;
        }
        assert(self@.subrange(0, self@.len() as int) =~= self@);
        proof {
            if self.wf() {
                lemma_routed_unique(field@, self@);
            }
        }
        Patch { patch_type: field.to_string(), validator: Rc::new(Validator::AcceptAll), entries }
    }

    /// The entries of this patch for the whole value, as a patch of its own.
    pub fn whole_part(&self) -> (r: Patch)
        ensures
            r@ == wholes(self@),
    {
        let mut entries: Vec<(Path, String)> = Vec::new();
        let mut i: usize = 0;
        while i < self.entries.len()
            invariant
                i <= self.entries.len(),
                entries_model(entries@) == wholes(self@.subrange(0, i as int)),
            decreases self.entries.len() - i,
        {
            let ghost before = entries_model(entries@);
            let ghost s1 = self@.subrange(0, i as int + 1);
            assert(s1.drop_last() =~= self@.subrange(0, i as int));
            assert(s1.last() == self@[i as int]);
            match &self.entries[i].0 {
                Path::Whole => {
                    entries.push((Path::Whole, self.entries[i].1.clone()));
                    assert(entries_model(entries@) =~= before.push(self@[i as int]));
                },
                Path::Field(_) => {},
            }
            i = i + 1;
        }
        assert(self@.subrange(0, self@.len() as int) =~= self@);
        Patch { patch_type: self.patch_type.clone(), validator: Rc::new(Validator::AcceptAll), entries }
    }

    fn store(&mut self, key: Path, value: String)
        requires
            old(self).wf(),
            old(self).accepts(key@, value@),
        ensures
            final(self).wf(),
            final(self).same_kind(old(self)),
            final(self)@ == upsert(old(self)@, key@, value@),
    {
        let ghost es = self@;
        let ghost k = key@;
        let ghost v = value@;
        match self.position(&key) {
            Some(i) => {
                self.entries.set(i, (key, value));
                proof {
                    let c = choose|j: int| 0 <= j < es.len() && (#[trigger] es[j]).0 == k;
                    assert(c == i as int);
                    assert(self@ =~= es.update(i as int, (k, v)));
                }
            },
            None => {
                self.entries.push((key, value));
                assert(self@ =~= es.push((k, v)));
            },
        }
    }
}

proof fn lemma_prefixed_injective(p: Seq<char>, a: PathModel, b: PathModel)
    requires
        prefixed(p, a) == prefixed(p, b),
    ensures
        a == b,
{
    match (a, b) {
        (Some(x), Some(y)) => {
            let ka = prefixed(p, a)->0;
            assert(ka.subrange(p.len() as int + 1, ka.len() as int) =~= x);
            assert(ka.subrange(p.len() as int + 1, ka.len() as int) =~= y);
        },
        (None, Some(y)) => {
            assert(prefixed(p, b)->0.len() == p.len() + 1 + y.len());
        },
        (Some(x), None) => {
            assert(prefixed(p, a)->0.len() == p.len() + 1 + x.len());
        },
        (None, None) => {},
    }
}

proof fn lemma_under_unique(p: Seq<char>, es: Seq<Entry>)
    requires
        keys_unique(es),
    ensures
        keys_unique(under(p, es)),
{
    let u = under(p, es);
    assert forall|i: int, j: int| 0 <= i < j < u.len() implies u[i].0 != u[j].0 by {
        if u[i].0 == u[j].0 {
            lemma_prefixed_injective(p, es[i].0, es[j].0);
        }
    }
}

proof fn lemma_upsert_all_fresh(es: Seq<Entry>, more: Seq<Entry>)
    requires
        keys_unique(es + more),
    ensures
        upsert_all(es, more) == es + more,
    decreases more.len(),
{
    if more.len() > 0 {
        let front = more.drop_last();
        assert(es + front =~= (es + more).drop_last());
        lemma_upsert_all_fresh(es, front);
        let all = es + more;
        if has_key(es + front, more.last().0) {
            let i = choose|i: int|
                0 <= i < (es + front).len() && (#[trigger] (es + front)[i]).0 == more.last().0;
            assert(all[i].0 == all[all.len() - 1].0);
        }
        assert((es + front).push(more.last()) =~= es + more);
    }
}

/// Merging a patch under `f` into an empty patch, and merging that under
/// `g`, gives the same entries as merging it under the path `g.f` at once.
pub proof fn lemma_merge_nested(es: Seq<Entry>, g: Seq<char>, f: Seq<char>, q: Seq<Entry>)
    requires
        keys_unique(q),
    ensures
        merged(es, g, merged(Seq::<Entry>::empty(), f, q)) == merged(es, g + seq!['.'] + f, q),
{
    lemma_under_unique(f, q);
    assert(Seq::<Entry>::empty() + under(f, q) =~= under(f, q));
    lemma_upsert_all_fresh(Seq::<Entry>::empty(), under(f, q));
    let gf = g + seq!['.'] + f;
    assert forall|i: int| 0 <= i < q.len() implies (#[trigger] under(g, under(f, q))[i]) == under(gf, q)[i] by {
        match q[i].0 {
            None => {},
            Some(k) => {
                assert(g + seq!['.'] + (f + seq!['.'] + k) =~= gf + seq!['.'] + k);
            },
        }
    }
    assert(under(g, under(f, q)) =~= under(gf, q));
}

/// `f` names a field: no dot stands in it.
pub open spec fn is_field_name(f: Seq<char>) -> bool {
    forall|i: int| 0 <= i < f.len() ==> f[i] != '.'
}

proof fn lemma_unprefixed_same(a: Seq<char>, k: PathModel)
    ensures
        unprefixed(a, prefixed(a, k)) == Some(k),
{
    if let Some(x) = k {
        let key = a + seq!['.'] + x;
        assert(key.len() > a.len());
        assert(key.subrange(0, a.len() as int) =~= a);
        assert(key.subrange(a.len() as int + 1, key.len() as int) =~= x);
    }
}

proof fn lemma_unprefixed_other(a: Seq<char>, b: Seq<char>, k: PathModel)
    requires
        is_field_name(a),
        is_field_name(b),
        a != b,
    ensures
        unprefixed(a, prefixed(b, k)) is None,
{
    let key = prefixed(b, k)->0;
    assert(forall|i: int| 0 <= i < b.len() ==> key[i] == b[i]);
    if k is Some {
        assert(key[b.len() as int] == '.');
        if key == a {
            assert(a[b.len() as int] == '.');
        }
    }
    if key.len() > a.len() && key.subrange(0, a.len() as int) == a && key[a.len() as int] == '.' {
        if a.len() < b.len() {
            assert(b[a.len() as int] == '.');
        } else if a.len() == b.len() {
            assert(a =~= b);
        } else {
            assert(key.subrange(0, a.len() as int)[b.len() as int] == '.');
        }
    }
}

proof fn lemma_unprefixed_inverse(p: Seq<char>, a: PathModel, k: PathModel)
    requires
        unprefixed(p, a) == Some(k),
    ensures
        a == prefixed(p, k),
{
    let ka = a->0;
    if ka != p {
        let rest = ka.subrange(p.len() as int + 1, ka.len() as int);
        assert(ka =~= ka.subrange(0, p.len() as int) + seq!['.'] + rest);
    }
}

proof fn lemma_routed_unique(p: Seq<char>, es: Seq<Entry>)
    requires
        keys_unique(es),
    ensures
        keys_unique(routed(p, es)),
        forall|j: int|
            0 <= j < routed(p, es).len() ==> exists|i: int|
                0 <= i < es.len() && unprefixed(p, (#[trigger] es[i]).0) == Some(
                    (#[trigger] routed(p, es)[j]).0,
                ),
    decreases es.len(),
{
    if es.len() > 0 {
        let front = es.drop_last();
        assert(keys_unique(front));
        lemma_routed_unique(p, front);
        let r0 = routed(p, front);
        let r = routed(p, es);
        assert forall|j: int| 0 <= j < r0.len() implies exists|i: int|
            0 <= i < es.len() && unprefixed(p, (#[trigger] es[i]).0) == Some(
                (#[trigger] r0[j]).0,
            ) by {
            let i = choose|i: int|
                0 <= i < front.len() && unprefixed(p, (#[trigger] front[i]).0) == Some(r0[j].0);
            assert(es[i] == front[i]);
        }
        if let Some(k) = unprefixed(p, es.last().0) {
            assert forall|j: int| 0 <= j < r0.len() implies r0[j].0 != k by {
                let i = choose|i: int|
                    0 <= i < front.len() && unprefixed(p, (#[trigger] front[i]).0) == Some(
                        r0[j].0,
                    );
                if r0[j].0 == k {
                    assert(es[i] == front[i]);
                    lemma_unprefixed_inverse(p, es[i].0, k);
                    lemma_unprefixed_inverse(p, es.last().0, k);
                    assert(es[i].0 == es[es.len() - 1].0);
                }
            }
            assert(r[r.len() - 1].0 == k);
            assert(unprefixed(p, es[es.len() - 1].0) == Some(r[r.len() - 1].0));
            assert forall|j: int| 0 <= j < r.len() - 1 implies exists|i: int|
                0 <= i < es.len() && unprefixed(p, (#[trigger] es[i]).0) == Some(
                    (#[trigger] r[j]).0,
                ) by {
                assert(r[j] == r0[j]);
            }
        }
    }
}

proof fn lemma_wholes_of_fields(es: Seq<Entry>)
    requires
        forall|i: int| 0 <= i < es.len() ==> (#[trigger] es[i]).0 is Some,
    ensures
        wholes(es).len() == 0,
    decreases es.len(),
{
    if es.len() > 0 {
        assert(es.last() == es[es.len() - 1]);
        lemma_wholes_of_fields(es.drop_last());
    }
}

proof fn lemma_routed_concat(p: Seq<char>, x: Seq<Entry>, y: Seq<Entry>)
    ensures
        routed(p, x + y) == routed(p, x) + routed(p, y),
    decreases y.len(),
{
    if y.len() == 0 {
        assert(x + y =~= x);
        assert(routed(p, y) =~= Seq::<Entry>::empty());
        assert(routed(p, x) + routed(p, y) =~= routed(p, x));
    } else {
        assert((x + y).drop_last() =~= x + y.drop_last());
        lemma_routed_concat(p, x, y.drop_last());
        match unprefixed(p, y.last().0) {
            Some(k) => {
                assert(routed(p, x) + routed(p, y.drop_last()).push((k, y.last().1)) =~= (
                routed(p, x) + routed(p, y.drop_last())).push((k, y.last().1)));
            },
            None => {},
        }
    }
}

proof fn lemma_routed_under(a: Seq<char>, b: Seq<char>, q: Seq<Entry>)
    requires
        a == b || (is_field_name(a) && is_field_name(b) && a != b),
    ensures
        routed(a, under(b, q)) == (if a == b {
            q
        } else {
            Seq::<Entry>::empty()
        }),
    decreases q.len(),
{
    if q.len() > 0 {
        assert(under(b, q).drop_last() =~= under(b, q.drop_last()));
        lemma_routed_under(a, b, q.drop_last());
        if a == b {
            lemma_unprefixed_same(a, q.last().0);
            assert(q.drop_last().push(q.last()) =~= q);
        } else {
            lemma_unprefixed_other(a, b, q.last().0);
        }
    } else {
        assert(under(b, q).len() == 0);
    }
}

/// A composite's patch is built by merging each field's diff under the
/// field's name. Taking it apart again with `for_field` gives each field
/// back exactly its own diff, whatever the other field changed.
pub proof fn lemma_route_merged(a: Seq<char>, b: Seq<char>, pa: Seq<Entry>, pb: Seq<Entry>)
    requires
        is_field_name(a),
        is_field_name(b),
        a != b,
        keys_unique(pa),
        keys_unique(pb),
    ensures
        routed(a, merged(merged(Seq::<Entry>::empty(), a, pa), b, pb)) == pa,
        routed(b, merged(merged(Seq::<Entry>::empty(), a, pa), b, pb)) == pb,
        merged(merged(Seq::<Entry>::empty(), a, pa), b, pb).len() == pa.len() + pb.len(),
        wholes(merged(merged(Seq::<Entry>::empty(), a, pa), b, pb)).len() == 0,
{
    let ua = under(a, pa);
    let ub = under(b, pb);
    lemma_under_unique(a, pa);
    lemma_under_unique(b, pb);
    assert(Seq::<Entry>::empty() + ua =~= ua);
    lemma_upsert_all_fresh(Seq::<Entry>::empty(), ua);
    let c = ua + ub;
    assert forall|i: int, j: int| 0 <= i < j < c.len() implies c[i].0 != c[j].0 by {
        if j >= ua.len() && i < ua.len() && c[i].0 == c[j].0 {
            lemma_unprefixed_same(a, pa[i].0);
            lemma_unprefixed_other(a, b, pb[j - ua.len()].0);
        } else if i >= ua.len() {
            assert(c[i] == ub[i - ua.len()]);
            assert(c[j] == ub[j - ua.len()]);
        }
    }
    lemma_upsert_all_fresh(ua, ub);
    assert forall|i: int| 0 <= i < c.len() implies (#[trigger] c[i]).0 is Some by {
        if i >= ua.len() {
            assert(c[i] == ub[i - ua.len()]);
        }
    }
    lemma_wholes_of_fields(c);
    lemma_routed_concat(a, ua, ub);
    lemma_routed_concat(b, ua, ub);
    lemma_routed_under(a, a, pa);
    lemma_routed_under(a, b, pb);
    lemma_routed_under(b, a, pa);
    lemma_routed_under(b, b, pb);
    assert(pa + Seq::<Entry>::empty() =~= pa);
    assert(Seq::<Entry>::empty() + pb =~= pb);
}

/// The entry `e` stands in `es`.
pub open spec fn has_entry(es: Seq<Entry>, e: Entry) -> bool {
    exists|i: int| 0 <= i < es.len() && es[i] == e
}

proof fn lemma_upsert_entries(es: Seq<Entry>, k: PathModel, v: Seq<char>)
    requires
        keys_unique(es),
    ensures
        keys_unique(upsert(es, k, v)),
        forall|e: Entry|
            #[trigger] has_entry(upsert(es, k, v), e) == (e == (k, v) || (has_entry(es, e) && e.0
                != k)),
{
    let u = upsert(es, k, v);
    if has_key(es, k) {
        let c = choose|i: int| 0 <= i < es.len() && (#[trigger] es[i]).0 == k;
        assert forall|e: Entry| has_entry(u, e) == (e == (k, v) || (has_entry(es, e) && e.0 != k)) by {
            if has_entry(u, e) {
                let i = choose|i: int| 0 <= i < u.len() && u[i] == e;
                if i != c {
                    assert(es[i] == e);
                    assert(es[i].0 != es[c].0);
                }
            }
            if e == (k, v) {
                assert(u[c] == e);
            }
            if has_entry(es, e) && e.0 != k {
                let i = choose|i: int| 0 <= i < es.len() && es[i] == e;
                assert(i != c);
                assert(u[i] == e);
            }
        }
    } else {
        assert forall|e: Entry| has_entry(u, e) == (e == (k, v) || (has_entry(es, e) && e.0 != k)) by {
            if has_entry(u, e) {
                let i = choose|i: int| 0 <= i < u.len() && u[i] == e;
                if i < es.len() {
                    assert(es[i] == e);
                }
            }
            if e == (k, v) {
                assert(u[es.len() as int] == e);
            }
            if has_entry(es, e) && e.0 != k {
                let i = choose|i: int| 0 <= i < es.len() && es[i] == e;
                assert(u[i] == e);
            }
        }
    }
}

proof fn lemma_upsert_present(es: Seq<Entry>, k: PathModel, v: Seq<char>)
    requires
        keys_unique(es),
        has_entry(es, (k, v)),
    ensures
        upsert(es, k, v) == es,
{
    let i = choose|i: int| 0 <= i < es.len() && es[i] == (k, v);
    assert(es[i].0 == k);
    let c = choose|j: int| 0 <= j < es.len() && (#[trigger] es[j]).0 == k;
    assert(c == i);
    assert(es.update(i, (k, v)) =~= es);
}

/// Adding the same path and value a second time changes nothing.
pub proof fn lemma_add_twice(es: Seq<Entry>, k: PathModel, v: Seq<char>)
    requires
        keys_unique(es),
    ensures
        upsert(upsert(es, k, v), k, v) == upsert(es, k, v),
{
    lemma_upsert_entries(es, k, v);
    assert(has_entry(upsert(es, k, v), (k, v)));
    lemma_upsert_present(upsert(es, k, v), k, v);
}

/// Adding values at two different paths gives the same entries in either
/// order.
pub proof fn lemma_adds_commute(
    es: Seq<Entry>,
    k1: PathModel,
    v1: Seq<char>,
    k2: PathModel,
    v2: Seq<char>,
)
    requires
        keys_unique(es),
        k1 != k2,
    ensures
        forall|e: Entry|
            has_entry(upsert(upsert(es, k1, v1), k2, v2), e) == has_entry(
                upsert(upsert(es, k2, v2), k1, v1),
                e,
            ),
{
    lemma_upsert_entries(es, k1, v1);
    lemma_upsert_entries(upsert(es, k1, v1), k2, v2);
    lemma_upsert_entries(es, k2, v2);
    lemma_upsert_entries(upsert(es, k2, v2), k1, v1);
    assert forall|e: Entry|
        has_entry(upsert(upsert(es, k1, v1), k2, v2), e) == has_entry(
            upsert(upsert(es, k2, v2), k1, v1),
            e,
        ) by {
        let a1 = has_entry(upsert(es, k1, v1), e);
        let a2 = has_entry(upsert(es, k2, v2), e);
        let a0 = has_entry(es, e);
    }
}

proof fn lemma_upsert_all_holds(es: Seq<Entry>, more: Seq<Entry>)
    requires
        keys_unique(es),
        keys_unique(more),
    ensures
        keys_unique(upsert_all(es, more)),
        forall|j: int| 0 <= j < more.len() ==> has_entry(upsert_all(es, more), #[trigger] more[j]),
    decreases more.len(),
{
    if more.len() > 0 {
        let front = more.drop_last();
        assert(keys_unique(front));
        lemma_upsert_all_holds(es, front);
        let z = upsert_all(es, front);
        let last = more.last();
        lemma_upsert_entries(z, last.0, last.1);
        assert(upsert_all(es, more) == upsert(z, last.0, last.1));
        assert forall|j: int| 0 <= j < more.len() implies has_entry(
            upsert_all(es, more),
            #[trigger] more[j],
        ) by {
            if j < more.len() - 1 {
                assert(more[j] == front[j]);
                assert(has_entry(z, front[j]));
                assert(more[j].0 != more[more.len() - 1].0);
            } else {
                assert(more[j] == last);
            }
            assert(has_entry(upsert(z, last.0, last.1), more[j]) == (more[j] == (last.0, last.1) || (
            has_entry(z, more[j]) && more[j].0 != last.0)));
        }
    }
}

proof fn lemma_upsert_all_present(y: Seq<Entry>, more: Seq<Entry>)
    requires
        keys_unique(y),
        forall|j: int| 0 <= j < more.len() ==> has_entry(y, #[trigger] more[j]),
    ensures
        upsert_all(y, more) == y,
    decreases more.len(),
{
    if more.len() > 0 {
        let front = more.drop_last();
        assert forall|j: int| 0 <= j < front.len() implies has_entry(y, #[trigger] front[j]) by {
            assert(front[j] == more[j]);
        }
        lemma_upsert_all_present(y, front);
        assert(has_entry(y, more[more.len() - 1]));
        lemma_upsert_present(y, more.last().0, more.last().1);
    }
}

/// After a merge, the patch holds each entry of the merged patch at its
/// prefixed path.
pub proof fn lemma_merge_holds(es: Seq<Entry>, prefix: Seq<char>, other: Seq<Entry>)
    requires
        keys_unique(es),
        keys_unique(other),
    ensures
        forall|j: int|
            0 <= j < other.len() ==> has_entry(
                merged(es, prefix, other),
                (prefixed(prefix, (#[trigger] other[j]).0), other[j].1),
            ),
{
    lemma_under_unique(prefix, other);
    lemma_upsert_all_holds(es, under(prefix, other));
    assert forall|j: int| 0 <= j < other.len() implies has_entry(
        merged(es, prefix, other),
        (prefixed(prefix, (#[trigger] other[j]).0), other[j].1),
    ) by {
        assert(under(prefix, other)[j] == (prefixed(prefix, other[j].0), other[j].1));
    }
}

/// Merging the same patch under the same prefix a second time changes
/// nothing.
pub proof fn lemma_merge_twice(es: Seq<Entry>, prefix: Seq<char>, other: Seq<Entry>)
    requires
        keys_unique(es),
        keys_unique(other),
    ensures
        merged(merged(es, prefix, other), prefix, other) == merged(es, prefix, other),
{
    lemma_under_unique(prefix, other);
    lemma_upsert_all_holds(es, under(prefix, other));
    lemma_upsert_all_present(merged(es, prefix, other), under(prefix, other));
}

} // verus!
