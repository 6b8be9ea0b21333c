//! What a definition file declares: targets by name.

use crate::target::def::TargetDef;
use crate::text::to_chars;
use vstd::prelude::*;
use vstd::string::*;

verus! {

/// `a` stands before `b` in the order of texts: at the first place where
/// they differ `a` has the smaller character, or `a` ends there and `b` goes
/// on.
pub open spec fn text_lt(a: Seq<char>, b: Seq<char>) -> bool {
    exists|k: int| differ_at(a, b, k)
}

/// `a` and `b` agree before place `k`, where `a` ends or has the smaller
/// character.
pub open spec fn differ_at(a: Seq<char>, b: Seq<char>, k: int) -> bool {
    &&& 0 <= k <= a.len()
    &&& k < b.len()
    &&& a.take(k) == b.take(k)
    &&& (k == a.len() || a[k] < b[k])
}

/// Two texts that agree up to `k` and differ at `k`, or of which only one
/// goes on, differ nowhere before.
proof fn lemma_first_difference(a: Seq<char>, b: Seq<char>, k: int, j: int)
    requires
        0 <= k <= a.len(),
        k <= b.len(),
        a.take(k) == b.take(k),
        0 <= j <= k,
    ensures
        a.take(j) == b.take(j),
{
}

/// The order of texts is transitive.
pub proof fn lemma_text_lt_transitive(a: Seq<char>, b: Seq<char>, c: Seq<char>)
    requires
        text_lt(a, b),
        text_lt(b, c),
    ensures
        text_lt(a, c),
{
    let k1 = choose|k: int| differ_at(a, b, k);
    let k2 = choose|k: int| differ_at(b, c, k);
    if k1 <= k2 {
        lemma_first_difference(b, c, k2, k1);
        if k1 < k2 {
            assert(b[k1] == b.take(k2)[k1]);
        }
        assert(differ_at(a, c, k1));
    } else {
        lemma_first_difference(a, b, k1, k2);
        assert(a[k2] == a.take(k1)[k2]);
        assert(differ_at(a, c, k2));
    }
}

/// No text stands before itself, and of two texts at most one stands before
/// the other.
pub proof fn lemma_text_lt_asymmetric(a: Seq<char>, b: Seq<char>)
    requires
        text_lt(a, b),
    ensures
        a != b,
        !text_lt(b, a),
{
    let k1 = choose|k: int| differ_at(a, b, k);
    if text_lt(b, a) {
        let k2 = choose|k: int| differ_at(b, a, k);
        if k1 < k2 {
            assert(b[k1] == b.take(k2)[k1]);
        } else if k2 < k1 {
            assert(b[k2] == b.take(k1)[k2]);
        }
    }
}

/// How two texts stand to each other.
#[derive(Debug, Clone, Copy, PartialEq, Eq, Structural)]
pub enum Place {
    Before,
    Same,
    After,
}

/// Compares two texts, character by character.
pub fn place_of(a: &Vec<char>, b: &Vec<char>) -> (r: Place)
    ensures
        r == Place::Before <==> text_lt(a@, b@),
        r == Place::Same <==> a@ == b@,
        r == Place::After <==> text_lt(b@, a@),
{
    let mut i: usize = 0;
    while i < a.len() && i < b.len()
        invariant
            i <= a.len(),
            i <= b.len(),
            a@.take(i as int) == b@.take(i as int),
        decreases a.len() - i,
    {
        if a[i] < b[i] {
            assert(differ_at(a@, b@, i as int));
            proof {
                lemma_text_lt_asymmetric(a@, b@);
            }
            return Place::Before;
        }
        if b[i] < a[i] {
            assert(differ_at(b@, a@, i as int));
            proof {
                lemma_text_lt_asymmetric(b@, a@);
            }
            return Place::After;
        }
        i += 1;
    }
    if i < b.len() {
        assert(differ_at(a@, b@, i as int));
        proof {
            lemma_text_lt_asymmetric(a@, b@);
        }
        Place::Before
    } else if i < a.len() {
        assert(differ_at(b@, a@, i as int));
        proof {
            lemma_text_lt_asymmetric(b@, a@);
        }
        Place::After
    } else {
        assert(a@ =~= a@.take(i as int));
        assert(b@ =~= b@.take(i as int));
        proof {
            if text_lt(a@, b@) {
                lemma_text_lt_asymmetric(a@, b@);
            }
            if text_lt(b@, a@) {
                lemma_text_lt_asymmetric(b@, a@);
            }
        }
        Place::Same
    }
}

/// The names of `entries` stand in rising order; so no name stands twice.
pub open spec fn ordered(entries: Seq<(String, TargetDef)>) -> bool {
    forall|i: int, j: int|
        0 <= i < j < entries.len() ==> text_lt((#[trigger] entries[i]).0@, (#[trigger] entries[j]).0@)
}

/// Whether `entries` has an entry called `name`.
pub open spec fn has_name(entries: Seq<(String, TargetDef)>, name: Seq<char>) -> bool {
    exists|i: int| 0 <= i < entries.len() && (#[trigger] entries[i]).0@ == name
}

/// The place in `entries` of the entry called `name`.
pub open spec fn place_of_name(entries: Seq<(String, TargetDef)>, name: Seq<char>) -> int {
    choose|i: int| 0 <= i < entries.len() && (#[trigger] entries[i]).0@ == name
}

/// The definition that `entries` holds under `name`, if it holds one.
pub open spec fn lookup_in(entries: Seq<(String, TargetDef)>, name: Seq<char>) -> Option<
    TargetDef,
> {
    if has_name(entries, name) {
        Some(entries[place_of_name(entries, name)].1)
    } else {
        None
    }
}

/// In ordered entries a name has one place only.
pub proof fn lemma_place(entries: Seq<(String, TargetDef)>, name: Seq<char>, i: int)
    requires
        ordered(entries),
        0 <= i < entries.len(),
        entries[i].0@ == name,
    ensures
        has_name(entries, name),
        place_of_name(entries, name) == i,
        lookup_in(entries, name) == Some(entries[i].1),
{
    let j = place_of_name(entries, name);
    if i < j {
        lemma_text_lt_asymmetric(entries[i].0@, entries[j].0@);
    } else if j < i {
        lemma_text_lt_asymmetric(entries[j].0@, entries[i].0@);
    }
}

/// Ordered entries in which every name before place `i` stands before
/// `name`, and every name from `i` on behind it, have no entry called `name`.
pub proof fn lemma_absent(entries: Seq<(String, TargetDef)>, name: Seq<char>, i: int)
    requires
        0 <= i <= entries.len(),
        forall|j: int| 0 <= j < i ==> text_lt((#[trigger] entries[j]).0@, name),
        forall|j: int| i <= j < entries.len() ==> text_lt(name, (#[trigger] entries[j]).0@),
    ensures
        !has_name(entries, name),
{
    if has_name(entries, name) {
        let j = place_of_name(entries, name);
        if j < i {
            lemma_text_lt_asymmetric(entries[j].0@, name);
        } else {
            lemma_text_lt_asymmetric(name, entries[j].0@);
        }
    }
}

/// Putting a definition in the place of another of the same name keeps the
/// order, and changes what is found under that name only.
pub proof fn lemma_replace(
    entries: Seq<(String, TargetDef)>,
    i: int,
    name: String,
    def: TargetDef,
)
    requires
        ordered(entries),
        0 <= i < entries.len(),
        entries[i].0@ == name@,
    ensures
        ordered(entries.update(i, (name, def))),
        lookup_in(entries.update(i, (name, def)), name@) == Some(def),
        forall|other: Seq<char>|
            other != name@ ==> lookup_in(entries.update(i, (name, def)), other) == lookup_in(
                entries,
                other,
            ),
{
    let after = entries.update(i, (name, def));
    lemma_place(after, name@, i);
    assert forall|other: Seq<char>| other != name@ implies lookup_in(after, other) == lookup_in(
        entries,
        other,
    ) by {
        if has_name(entries, other) {
            let j = place_of_name(entries, other);
            lemma_place(after, other, j);
        }
        if has_name(after, other) {
            let j = place_of_name(after, other);
            lemma_place(entries, other, j);
        }
    }
}

/// Putting a new name in its place keeps the order, and changes what is
/// found under that name only.
pub proof fn lemma_insert(entries: Seq<(String, TargetDef)>, i: int, name: String, def: TargetDef)
    requires
        ordered(entries),
        0 <= i <= entries.len(),
        forall|j: int| 0 <= j < i ==> text_lt((#[trigger] entries[j]).0@, name@),
        forall|j: int| i <= j < entries.len() ==> text_lt(name@, (#[trigger] entries[j]).0@),
    ensures
        ordered(entries.insert(i, (name, def))),
        lookup_in(entries.insert(i, (name, def)), name@) == Some(def),
        forall|other: Seq<char>|
            other != name@ ==> lookup_in(entries.insert(i, (name, def)), other) == lookup_in(
                entries,
                other,
            ),
{
    let after = entries.insert(i, (name, def));
    assert forall|a: int, b: int| 0 <= a < b < after.len() implies text_lt(
        (#[trigger] after[a]).0@,
        (#[trigger] after[b]).0@,
    ) by {}
    lemma_place(after, name@, i);
    assert forall|other: Seq<char>| other != name@ implies lookup_in(after, other) == lookup_in(
        entries,
        other,
    ) by {
        if has_name(entries, other) {
            let j = place_of_name(entries, other);
            let nj = if j < i { j } else { j + 1 };
            lemma_place(after, other, nj);
        }
        if has_name(after, other) {
            let j = place_of_name(after, other);
            let pj = if j < i { j } else { j - 1 };
            lemma_place(entries, other, pj);
        }
    }
}

/// The targets that one definition file declares, by name and in the order
/// of their names.
#[derive(Debug)]
pub struct TargetSet {
    targets: Vec<(String, TargetDef)>,
}

impl TargetSet {
    /// The names and definitions, in order.
    pub closed spec fn entries(&self) -> Seq<(String, TargetDef)> {
        self.targets@
    }

    /// How many targets the set holds.
    pub open spec fn spec_len(&self) -> nat {
        self.entries().len()
    }

    /// The name at place `i`.
    pub open spec fn spec_name(&self, i: int) -> Seq<char> {
        self.entries()[i].0@
    }

    /// The definition at place `i`.
    pub open spec fn spec_def(&self, i: int) -> TargetDef {
        self.entries()[i].1
    }

    /// What holds of every set: the names stand in rising order; so no name
    /// stands twice.
    #[verifier::type_invariant]
    pub open spec fn wf(&self) -> bool {
        ordered(self.entries())
    }

    /// Whether a target of this name is declared.
    pub open spec fn has(&self, name: Seq<char>) -> bool {
        has_name(self.entries(), name)
    }

    /// The place of the target of this name, where one is declared.
    pub open spec fn place(&self, name: Seq<char>) -> int {
        place_of_name(self.entries(), name)
    }

    /// The definition of the target of this name, if one is declared.
    pub open spec fn lookup(&self, name: Seq<char>) -> Option<TargetDef> {
        lookup_in(self.entries(), name)
    }

    /// A set that declares nothing.
    pub fn new() -> (r: TargetSet)
        ensures
            r.spec_len() == 0,
            r.wf(),
    {
        TargetSet { targets: Vec::new() }
    }

    /// How many targets the set holds.
    pub fn len(&self) -> (r: usize)
        ensures
            r == self.spec_len(),
    {
        self.targets.len()
    }

    /// The name at place `i`.
    pub fn name_at(&self, i: usize) -> (r: &str)
        requires
            i < self.spec_len(),
        ensures
            r@ == self.spec_name(i as int),
    {
        self.targets[i].0.as_str()
    }

    /// The definition at place `i`.
    pub fn def_at(&self, i: usize) -> (r: &TargetDef)
        requires
            i < self.spec_len(),
        ensures
            *r == self.spec_def(i as int),
    {
        &self.targets[i].1
    }

    /// The first place whose name does not stand before `name`, and whether
    /// the name there is `name` itself.
    fn seek(&self, name: &Vec<char>) -> (r: (usize, bool))
        ensures
            r.0 <= self.spec_len(),
            forall|j: int| 0 <= j < r.0 ==> text_lt((#[trigger] self.entries()[j]).0@, name@),
            r.1 ==> r.0 < self.spec_len() && self.spec_name(r.0 as int) == name@,
            !r.1 ==> forall|j: int|
                r.0 <= j < self.spec_len() ==> text_lt(name@, (#[trigger] self.entries()[j]).0@),
    {
        proof {
            use_type_invariant(self);
        }
        let mut i: usize = 0;
        while i < self.targets.len()
            invariant
                i <= self.spec_len(),
                self.wf(),
                forall|j: int| 0 <= j < i ==> text_lt((#[trigger] self.entries()[j]).0@, name@),
            decreases self.targets.len() - i,
        {
            let here = to_chars(self.targets[i].0.as_str());
            match place_of(&here, name) {
                Place::Before => {},
                Place::Same => {
                    return (i, true);
                },
                Place::After => {
                    assert forall|j: int| i <= j < self.spec_len() implies text_lt(
                        name@,
                        (#[trigger] self.entries()[j]).0@,
                    ) by {
                        if j > i {
                            lemma_text_lt_transitive(
                                name@,
                                self.entries()[i as int].0@,
                                self.entries()[j].0@,
                            );
                        }
                    }
                    return (i, false);
                },
            }
            i += 1;
        }
        (i, false)
    }

    /// The place of the target called `name`, if one is declared.
    pub fn find(&self, name: &str) -> (r: Option<usize>)
        ensures
            match r {
                Some(i) => i < self.spec_len() && self.spec_name(i as int) == name@
                    && self.has(name@) && self.place(name@) == i,
                None => !self.has(name@),
            },
    {
        let v = to_chars(name);
        let (i, found) = self.seek(&v);
        proof {
            use_type_invariant(self);
        }
        if found {
            proof {
                lemma_place(self.entries(), name@, i as int);
            }
            Some(i)
        } else {
            proof {
                lemma_absent(self.entries(), name@, i as int);
            }
            None
        }
    }

    /// The definition of the target called `name`, if one is declared.
    pub fn get(&self, name: &str) -> (r: Option<&TargetDef>)
        ensures
            match r {
                Some(d) => self.lookup(name@) == Some(*d),
                None => self.lookup(name@) is None,
            },
    {
        match self.find(name) {
            Some(i) => Some(&self.targets[i].1),
            None => None,
        }
    }

    /// Declares the target `name`. A definition given before under the same
    /// name is replaced; every other target stays, and the names stay in
    /// order.
    pub fn insert(&mut self, name: String, def: TargetDef)
        ensures
            final(self).wf(),
            final(self).lookup(name@) == Some(def),
            forall|other: Seq<char>|
                other != name@ ==> final(self).lookup(other) == old(self).lookup(other),
            final(self).spec_len() == if old(self).has(name@) {
                old(self).spec_len()
            } else {
                old(self).spec_len() + 1
            },
    {
        let v = to_chars(name.as_str());
        let (i, found) = self.seek(&v);
        proof {
            use_type_invariant(&*self);
        }
        let mut targets: Vec<(String, TargetDef)> = Vec::new();
        core::mem::swap(&mut self.targets, &mut targets);
        if found {
            proof {
                lemma_place(targets@, name@, i as int);
                lemma_replace(targets@, i as int, name, def);
            }
            targets.set(i, (name, def));
        } else {
            proof {
                lemma_absent(targets@, name@, i as int);
                lemma_insert(targets@, i as int, name, def);
            }
            targets.insert(i, (name, def));
        }
        core::mem::swap(&mut self.targets, &mut targets);
    }
}

} // verus!
