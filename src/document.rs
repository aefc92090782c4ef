use vstd::prelude::*;
use vstd::string::StringExecFns;

use crate::parser::{document, failure_of, parse_model, Error};
use crate::words::{quote_of, quote_word};

verus! {

/// The abstract value of a document: its named buckets in iteration order.
pub struct ScfgModel {
    pub entries: Seq<EntryModel>,
}

/// The abstract value of one bucket: a name and the directives filed under it.
pub struct EntryModel {
    pub name: Seq<char>,
    pub directives: Seq<DirectiveModel>,
}

/// The abstract value of a directive.
pub struct DirectiveModel {
    pub params: Seq<Seq<char>>,
    pub child: Option<ScfgModel>,
}

/// One bucket of a document: every directive that shares `name`, in insertion order.
#[derive(Debug, PartialEq, Eq)]
pub struct Entry {
    pub name: String,
    pub directives: Vec<Directive>,
}

/// An scfg document: a multimap from directive names to directives.
///
/// Names are kept in the order of their first insertion; the directives
/// under one name are kept in the order in which they were added.
// The buckets are kept in a `Vec` with distinct names rather than in a map
// type: a map whose values hold directives, which hold documents in turn, is
// a recursive type that the verifier cannot take.
#[derive(Debug)]
pub struct Scfg {
    pub(crate) entries: Vec<Entry>,
}

/// A single directive: any number of parameters and possibly one child block.
#[derive(Debug)]
pub struct Directive {
    pub(crate) params: Vec<String>,
    pub(crate) child: Option<Scfg>,
}

/// The index of the first bucket named `name`, if there is one.
pub open spec fn is_first_index(entries: Seq<EntryModel>, name: Seq<char>, i: int) -> bool {
    &&& 0 <= i < entries.len()
    &&& entries[i].name == name
    &&& forall|j: int| 0 <= j < i ==> entries[j].name != name
}

pub open spec fn find_name(entries: Seq<EntryModel>, name: Seq<char>) -> Option<int> {
    if exists|i: int| 0 <= i < entries.len() && entries[i].name == name {
        Some(choose|i: int| is_first_index(entries, name, i))
    } else {
        None
    }
}

/// The directives filed under `name`, if the name is present.
pub open spec fn bucket_of(m: ScfgModel, name: Seq<char>) -> Option<Seq<DirectiveModel>> {
    match find_name(m.entries, name) {
        Some(i) => Some(m.entries[i].directives),
        None => None,
    }
}

/// The directives filed under `name`, if the name is present with at least
/// one directive: a lookup never gives an empty bucket.
pub open spec fn lookup(m: ScfgModel, name: Seq<char>) -> Option<Seq<DirectiveModel>> {
    match bucket_of(m, name) {
        Some(b) => if b.len() > 0 {
            Some(b)
        } else {
            None
        },
        None => None,
    }
}

/// `m` with `d` appended to the bucket named `name`, which is created at the
/// end of the iteration order if it was absent.
pub open spec fn add_model(m: ScfgModel, name: Seq<char>, d: DirectiveModel) -> ScfgModel {
    match find_name(m.entries, name) {
        Some(i) => ScfgModel {
            entries: m.entries.update(
                i,
                EntryModel { name, directives: m.entries[i].directives.push(d) },
            ),
        },
        None => ScfgModel {
            entries: m.entries.push(EntryModel { name, directives: seq![d] }),
        },
    }
}

/// `m` without the bucket named `name`.
pub open spec fn remove_model(m: ScfgModel, name: Seq<char>) -> ScfgModel {
    match find_name(m.entries, name) {
        Some(i) => ScfgModel { entries: m.entries.remove(i) },
        None => m,
    }
}

/// No two buckets share a name.
pub open spec fn names_distinct(m: ScfgModel) -> bool {
    forall|i: int, j: int|
        0 <= i < m.entries.len() && 0 <= j < m.entries.len() && i != j
            ==> m.entries[i].name != m.entries[j].name
}

/// Every bucket of `m` holds at least one directive.
pub open spec fn buckets_filled(m: ScfgModel) -> bool {
    forall|i: int| 0 <= i < m.entries.len() ==> (#[trigger] m.entries[i]).directives.len() > 0
}

pub(crate) proof fn lemma_add_well_built(m: ScfgModel, name: Seq<char>, d: DirectiveModel)
    requires
        names_distinct(m),
        buckets_filled(m),
    ensures
        names_distinct(add_model(m, name, d)),
        buckets_filled(add_model(m, name, d)),
{
    let after = add_model(m, name, d);
    match find_name(m.entries, name) {
        Some(i) => {
            lemma_find_name_first(m.entries, name);
            assert forall|k: int| 0 <= k < after.entries.len() implies #[trigger] after.entries[k].name
                == m.entries[k].name by {}
            assert forall|k: int| 0 <= k < after.entries.len() implies (#[trigger] after.entries[k]).directives.len()
                > 0 by {
                if k != i {
                    assert(m.entries[k].directives.len() > 0);
                }
            }
        },
        None => {
            assert forall|k: int| 0 <= k < m.entries.len() implies m.entries[k].name != name by {
                if m.entries[k].name == name {
                    assert(exists|x: int| 0 <= x < m.entries.len() && m.entries[x].name == name);
                }
            }
            assert forall|k: int| 0 <= k < after.entries.len() implies (#[trigger] after.entries[k]).directives.len()
                > 0 by {
                if k < m.entries.len() {
                    assert(m.entries[k].directives.len() > 0);
                }
            }
        },
    }
}

pub open spec fn empty_directive() -> DirectiveModel {
    DirectiveModel { params: Seq::empty(), child: None }
}

pub open spec fn empty_doc() -> ScfgModel {
    ScfgModel { entries: Seq::empty() }
}

pub open spec fn directives_model(v: Seq<Directive>) -> Seq<DirectiveModel> {
    v.map_values(|d: Directive| d@)
}

pub open spec fn strings_model(v: Seq<String>) -> Seq<Seq<char>> {
    v.map_values(|p: String| p@)
}

pub(crate) proof fn lemma_first_index_unique(entries: Seq<EntryModel>, name: Seq<char>, i: int)
    requires
        is_first_index(entries, name, i),
    ensures
        find_name(entries, name) == Some(i),
{
    let k = choose|k: int| is_first_index(entries, name, k);
    assert(is_first_index(entries, name, k));
    assert(k == i) by {
        if k < i {
            assert(entries[k].name != name);
        } else if i < k {
            assert(entries[i].name != name);
        }
    }
}

/// Adding a directive files it last among the directives of its name, and
/// leaves the directives of every other name as they were: within a name,
/// directives always stay in insertion order.
pub proof fn lemma_add_keeps_insertion_order(
    m: ScfgModel,
    name: Seq<char>,
    d: DirectiveModel,
    other: Seq<char>,
)
    ensures
        bucket_of(add_model(m, name, d), name) == Some(
            match bucket_of(m, name) {
                Some(b) => b.push(d),
                None => seq![d],
            },
        ),
        other != name ==> bucket_of(add_model(m, name, d), other) == bucket_of(m, other),
{
    let after = add_model(m, name, d).entries;
    if find_name(m.entries, name) is Some {
        lemma_find_name_first(m.entries, name);
    }
    assert(after.len() >= m.entries.len());
    assert forall|k: int| 0 <= k < m.entries.len() implies #[trigger] after[k].name
        == m.entries[k].name by {}
    match find_name(m.entries, name) {
        Some(i) => {
            lemma_find_name_first(m.entries, name);
            assert(is_first_index(after, name, i));
            lemma_first_index_unique(after, name, i);
        },
        None => {
            let n = m.entries.len() as int;
            assert forall|j: int| 0 <= j < n implies m.entries[j].name != name by {
                if m.entries[j].name == name {
                    assert(exists|i: int| 0 <= i < m.entries.len() && m.entries[i].name == name);
                }
            }
            assert(is_first_index(after, name, n));
            lemma_first_index_unique(after, name, n);
        },
    }
    if other != name {
        match find_name(m.entries, other) {
            Some(k) => {
                lemma_find_name_first(m.entries, other);
                assert(is_first_index(after, other, k));
                lemma_first_index_unique(after, other, k);
                assert(after[k].directives == m.entries[k].directives);
            },
            None => {
                assert forall|j: int| 0 <= j < after.len() implies after[j].name != other by {
                    if j < m.entries.len() && m.entries[j].name == other {
                        assert(exists|i: int| 0 <= i < m.entries.len() && m.entries[i].name == other);
                    }
                }
            },
        }
    }
}

/// Where a name is present, `find_name` gives its first index.
pub(crate) proof fn lemma_find_name_first(entries: Seq<EntryModel>, name: Seq<char>)
    requires
        find_name(entries, name) is Some,
    ensures
        is_first_index(entries, name, find_name(entries, name)->0),
{
    let w = choose|i: int| 0 <= i < entries.len() && entries[i].name == name;
    lemma_first_exists(entries, name, w);
}

proof fn lemma_first_exists(entries: Seq<EntryModel>, name: Seq<char>, w: int)
    requires
        0 <= w < entries.len(),
        entries[w].name == name,
    ensures
        exists|i: int| is_first_index(entries, name, i),
    decreases w,
{
    if exists|j: int| 0 <= j < w && entries[j].name == name {
        let j = choose|j: int| 0 <= j < w && entries[j].name == name;
        lemma_first_exists(entries, name, j);
    } else {
        assert(is_first_index(entries, name, w));
    }
}

impl Scfg {
    pub open(crate) spec fn view(&self) -> ScfgModel
        decreases self,
    {
        ScfgModel {
            entries: Seq::new(
                self.entries@.len(),
                |i: int|
                    if 0 <= i < self.entries@.len() {
                        self.entries@[i].view()
                    } else {
                        EntryModel { name: Seq::empty(), directives: Seq::empty() }
                    },
            ),
        }
    }
}

impl Entry {
    pub open(crate) spec fn view(&self) -> EntryModel
        decreases self,
    {
        EntryModel {
            name: self.name@,
            directives: Seq::new(
                self.directives@.len(),
                |i: int|
                    if 0 <= i < self.directives@.len() {
                        self.directives@[i].view()
                    } else {
                        empty_directive()
                    },
            ),
        }
    }
}

impl Directive {
    pub open(crate) spec fn view(&self) -> DirectiveModel
        decreases self,
    {
        DirectiveModel {
            params: strings_model(self.params@),
            child: match self.child {
                Some(c) => Some(c.view()),
                None => None,
            },
        }
    }
}

impl Scfg {
    /// Creates a new empty document.
    pub fn new() -> (r: Scfg)
        ensures
            r@ == empty_doc(),
            names_distinct(r@),
            buckets_filled(r@),
    {
        let r = Scfg { entries: Vec::new() };
        assert(r@.entries =~= Seq::<EntryModel>::empty());
        r
    }

    /// The position of the bucket named `name`.
    fn position(&self, name: &str) -> (r: Option<usize>)
        ensures
            r matches Some(i) ==> is_first_index(self@.entries, name@, i as int) && find_name(
                self@.entries,
                name@,
            ) == Some(i as int),
            r is None ==> find_name(self@.entries, name@) is None,
            r is None ==> forall|k: int|
                0 <= k < self@.entries.len() ==> self@.entries[k].name != name@,
    {
        let key = name.to_owned();
        let mut i: usize = 0;
        while i < self.entries.len()
            invariant
                i <= self.entries@.len(),
                key@ == name@,
                forall|j: int| 0 <= j < i ==> self@.entries[j].name != name@,
            decreases self.entries@.len() - i,
        {
            assert(self@.entries[i as int] == self.entries@[i as int]@);
            if self.entries[i].name == key {
                assert(is_first_index(self@.entries, name@, i as int));
                proof {
                    lemma_first_index_unique(self@.entries, name@, i as int);
                }
                return Some(i);
            }
            i = i + 1;
        }
        assert forall|k: int| 0 <= k < self@.entries.len() implies self@.entries[k].name != name@ by {}
        None
    }
}

proof fn lemma_view_after_update(old_doc: Scfg, new_doc: Scfg, i: int, k: int, d: Directive)
    requires
        0 <= i < old_doc.entries@.len(),
        0 <= k < old_doc.entries@[i].directives@.len(),
        new_doc.entries@.len() == old_doc.entries@.len(),
        forall|j: int| 0 <= j < old_doc.entries@.len() && j != i
            ==> new_doc.entries@[j] == old_doc.entries@[j],
        new_doc.entries@[i].name == old_doc.entries@[i].name,
        new_doc.entries@[i].directives@ == old_doc.entries@[i].directives@.update(k, d),
    ensures
        new_doc@.entries == old_doc@.entries.update(
            i,
            EntryModel {
                name: old_doc@.entries[i].name,
                directives: old_doc@.entries[i].directives.update(k, d@),
            },
        ),
{
    let e_old = old_doc.entries@[i];
    let e_new = new_doc.entries@[i];
    assert(e_new@.directives =~= e_old@.directives.update(k, d@));
    assert(new_doc@.entries =~= old_doc@.entries.update(
        i,
        EntryModel { name: old_doc@.entries[i].name, directives: old_doc@.entries[i].directives.update(k, d@) },
    ));
}

proof fn lemma_view_after_push(old_doc: Scfg, new_doc: Scfg, i: int, d: Directive)
    requires
        0 <= i < old_doc.entries@.len(),
        new_doc.entries@.len() == old_doc.entries@.len(),
        forall|j: int| 0 <= j < old_doc.entries@.len() && j != i
            ==> new_doc.entries@[j] == old_doc.entries@[j],
        new_doc.entries@[i].name == old_doc.entries@[i].name,
        new_doc.entries@[i].directives@ == old_doc.entries@[i].directives@.push(d),
    ensures
        new_doc@.entries == old_doc@.entries.update(
            i,
            EntryModel {
                name: old_doc@.entries[i].name,
                directives: old_doc@.entries[i].directives.push(d@),
            },
        ),
{
    let e_old = old_doc.entries@[i];
    let e_new = new_doc.entries@[i];
    assert(e_new@.directives =~= e_old@.directives.push(d@));
    assert(new_doc@.entries =~= old_doc@.entries.update(
        i,
        EntryModel { name: old_doc@.entries[i].name, directives: old_doc@.entries[i].directives.push(d@) },
    ));
}

proof fn lemma_view_entry_replaced(old_doc: Scfg, new_doc: Scfg, i: int)
    requires
        0 <= i < old_doc.entries@.len(),
        new_doc.entries@.len() == old_doc.entries@.len(),
        forall|j: int| 0 <= j < old_doc.entries@.len() && j != i
            ==> new_doc.entries@[j] == old_doc.entries@[j],
        new_doc.entries@[i].name == old_doc.entries@[i].name,
    ensures
        new_doc@.entries == old_doc@.entries.update(
            i,
            EntryModel {
                name: old_doc@.entries[i].name,
                directives: directives_model(new_doc.entries@[i].directives@),
            },
        ),
{
    let e_new = new_doc.entries@[i];
    assert(e_new@.directives =~= directives_model(e_new.directives@));
    assert(new_doc@.entries =~= old_doc@.entries.update(
        i,
        EntryModel { name: old_doc@.entries[i].name, directives: directives_model(e_new.directives@) },
    ));
}

proof fn lemma_view_after_remove(old_doc: Scfg, new_doc: Scfg, i: int)
    requires
        0 <= i < old_doc.entries@.len(),
        new_doc.entries@ == old_doc.entries@.remove(i),
    ensures
        new_doc@.entries == old_doc@.entries.remove(i),
        old_doc@.entries[i].directives == directives_model(old_doc.entries@[i].directives@),
{
    assert(new_doc@.entries =~= old_doc@.entries.remove(i));
    let e = old_doc.entries@[i];
    assert(e@.directives =~= directives_model(e.directives@));
}

proof fn lemma_view_after_append(old_doc: Scfg, new_doc: Scfg, e: Entry)
    requires
        new_doc.entries@ == old_doc.entries@.push(e),
    ensures
        new_doc@.entries == old_doc@.entries.push(e@),
{
    assert(new_doc@.entries =~= old_doc@.entries.push(e@));
}

impl Scfg {
    /// Files `directive` under `name`, after any directive already there,
    /// and returns it.
    pub(crate) fn add_directive(&mut self, name: String, directive: Directive) -> (r: &mut Directive)
        ensures
            *r == directive,
            final(self)@ == add_model(old(self)@, name@, final(r)@),
            names_distinct(old(self)@) && buckets_filled(old(self)@) ==> names_distinct(final(self)@)
                && buckets_filled(final(self)@),
    {
        match self.position(name.as_str()) {
            Some(i) => {
                self.entries[i].directives.push(directive);
                let ghost mid = *self;
                proof {
                    lemma_view_after_push(*old(self), mid, i as int, directive);
                }
                let k = self.entries[i].directives.len() - 1;
                let r = &mut self.entries[i].directives[k];
                proof {
                    lemma_view_after_update(mid, after_borrow(*self), i as int, k as int, *final(r));
                    assert(mid@.entries[i as int].directives.update(k as int, final(r)@)
                        =~= old(self)@.entries[i as int].directives.push(final(r)@));
                    assert(after_borrow(*self)@.entries =~= add_model(old(self)@, name@, final(r)@).entries);
                    if names_distinct(old(self)@) && buckets_filled(old(self)@) {
                        lemma_add_well_built(old(self)@, name@, final(r)@);
                    }
                }
                r
            },
            None => {
                let mut directives = Vec::new();
                directives.push(directive);
                self.entries.push(Entry { name, directives });
                let k = self.entries.len() - 1;
                let ghost mid = *self;
                proof {
                    lemma_view_after_append(*old(self), mid, mid.entries@[k as int]);
                }
                let r = &mut self.entries[k].directives[0];
                proof {
                    lemma_view_after_update(mid, after_borrow(*self), k as int, 0, *final(r));
                    assert(mid@.entries[k as int].directives.update(0, final(r)@) =~= seq![final(r)@]);
                    assert(after_borrow(*self)@.entries =~= add_model(old(self)@, name@, final(r)@).entries);
                    if names_distinct(old(self)@) && buckets_filled(old(self)@) {
                        lemma_add_well_built(old(self)@, name@, final(r)@);
                    }
                }
                r
            },
        }
    }
}

impl Scfg {
    /// Appends a new, empty directive under `name` and returns it.
    ///
    /// The name is not checked: one that holds a newline or another
    /// structural character makes the written document unreadable.
    pub fn add(&mut self, name: &str) -> (r: &mut Directive)
        ensures
            r@ == empty_directive(),
            final(self)@ == add_model(old(self)@, name@, final(r)@),
            names_distinct(old(self)@) && buckets_filled(old(self)@) ==> names_distinct(final(self)@)
                && buckets_filled(final(self)@),
    {
        self.add_directive(name.to_owned(), Directive::new())
    }

    /// The first directive named `name`, if any.
    pub fn get(&self, name: &str) -> (r: Option<&Directive>)
        ensures
            match bucket_of(self@, name@) {
                Some(b) => if b.len() > 0 {
                    r is Some && r.unwrap()@ == b[0]
                } else {
                    r is None
                },
                None => r is None,
            },
    {
        match self.position(name) {
            Some(i) => {
                let directives = &self.entries[i].directives;
                proof {
                    assert(self@.entries[i as int] == self.entries@[i as int]@);
                }
                if directives.len() > 0 {
                    Some(&directives[0])
                } else {
                    None
                }
            },
            None => None,
        }
    }

    /// All directives named `name`, in insertion order, if the name is present.
    pub fn get_all(&self, name: &str) -> (r: Option<&[Directive]>)
        ensures
            match lookup(self@, name@) {
                Some(b) => r is Some && directives_model(r.unwrap()@) == b,
                None => r is None,
            },
    {
        match self.position(name) {
            Some(i) => {
                let directives = self.entries[i].directives.as_slice();
                proof {
                    let e = self.entries@[i as int];
                    assert(self@.entries[i as int] == e@);
                    assert(e@.directives =~= directives_model(e.directives@));
                }
                if directives.len() == 0 {
                    return None;
                }
                Some(directives)
            },
            None => None,
        }
    }

    /// The directives named `name`, for changing in place.
    pub fn get_all_mut(&mut self, name: &str) -> (r: Option<&mut Vec<Directive>>)
        ensures
            match find_name(old(self)@.entries, name@) {
                Some(i) => if old(self)@.entries[i].directives.len() > 0 {
                    &&& r is Some
                    &&& directives_model(r.unwrap()@) == old(self)@.entries[i].directives
                    &&& final(self)@.entries == old(self)@.entries.update(
                        i,
                        EntryModel { name: name@, directives: directives_model(final(r.unwrap())@) },
                    )
                } else {
                    r is None && final(self)@ == old(self)@
                },
                None => r is None && final(self)@ == old(self)@,
            },
            r is Some <==> lookup(old(self)@, name@) is Some,
            names_distinct(old(self)@) ==> names_distinct(final(self)@),
    {
        match self.position(name) {
            Some(i) => {
                proof {
                    let e = self.entries@[i as int];
                    assert(self@.entries[i as int] == e@);
                    assert(e@.directives =~= directives_model(e.directives@));
                }
                if self.entries[i].directives.len() == 0 {
                    return None;
                }
                let r = &mut self.entries[i].directives;
                proof {
                    lemma_view_entry_replaced(*old(self), after_borrow(*self), i as int);
                    let after = after_borrow(*self)@.entries;
                    assert forall|k: int| 0 <= k < after.len() implies #[trigger] after[k].name
                        == old(self)@.entries[k].name by {}
                }
                Some(r)
            },
            None => None,
        }
    }

    /// Whether some directive is named `name`.
    pub fn contains(&self, name: &str) -> (r: bool)
        ensures
            r == lookup(self@, name@) is Some,
    {
        match self.position(name) {
            Some(i) => {
                proof {
                    assert(self@.entries[i as int] == self.entries@[i as int]@);
                }
                self.entries[i].directives.len() > 0
            },
            None => false,
        }
    }

    /// Removes every directive named `name` and returns them.
    pub fn remove(&mut self, name: &str) -> (r: Option<Vec<Directive>>)
        ensures
            match lookup(old(self)@, name@) {
                Some(b) => r is Some && directives_model(r.unwrap()@) == b,
                None => r is None,
            },
            final(self)@ == remove_model(old(self)@, name@),
            names_distinct(old(self)@) ==> bucket_of(final(self)@, name@) is None,
            names_distinct(old(self)@) ==> names_distinct(final(self)@),
            buckets_filled(old(self)@) ==> buckets_filled(final(self)@),
    {
        match self.remove_entry(name) {
            Some((_, directives)) => Some(directives),
            None => None,
        }
    }

    /// Removes every directive named `name` and returns them with the name.
    pub fn remove_entry(&mut self, name: &str) -> (r: Option<(String, Vec<Directive>)>)
        ensures
            match lookup(old(self)@, name@) {
                Some(b) => r is Some && r.unwrap().0@ == name@ && directives_model(r.unwrap().1@) == b,
                None => r is None,
            },
            final(self)@ == remove_model(old(self)@, name@),
            names_distinct(old(self)@) ==> bucket_of(final(self)@, name@) is None,
            names_distinct(old(self)@) ==> names_distinct(final(self)@),
            buckets_filled(old(self)@) ==> buckets_filled(final(self)@),
    {
        match self.position(name) {
            Some(i) => {
                let entry = self.entries.remove(i);
                proof {
                    lemma_view_after_remove(*old(self), *self, i as int);
                    assert(old(self)@.entries[i as int] == entry@);
                    assert(self@ == remove_model(old(self)@, name@));
                    let before = old(self)@.entries;
                    assert forall|k: int| 0 <= k < self@.entries.len() implies #[trigger] self@.entries[k]
                        == before[if k < i { k } else { k + 1 }] by {}
                    if names_distinct(old(self)@) {
                        assert forall|k: int| 0 <= k < self@.entries.len() implies #[trigger] self@.entries[k].name
                            != name@ by {
                            let o = if k < i { k } else { k + 1 };
                            assert(self@.entries[k] == before[o]);
                            assert(o != i);
                        }
                    }
                }
                if entry.directives.len() == 0 {
                    return None;
                }
                Some((entry.name, entry.directives))
            },
            None => None,
        }
    }

    /// Builds a document from (name, directive) pairs, filing each in turn.
    pub fn from_iter(items: Vec<(String, Directive)>) -> (r: Scfg)
        ensures
            r@ == pairs_model(items@.map_values(|p: (String, Directive)| (p.0@, p.1@))),
            names_distinct(r@),
            buckets_filled(r@),
    {
        let ghost all = items@.map_values(|p: (String, Directive)| (p.0@, p.1@));
        let mut rest = items;
        let mut r = Scfg::new();
        let ghost done: int = 0;
        while rest.len() > 0
            invariant
                0 <= done <= all.len(),
                rest@.map_values(|p: (String, Directive)| (p.0@, p.1@)) == all.subrange(done, all.len() as int),
                r@ == pairs_model(all.subrange(0, done)),
                names_distinct(r@),
                buckets_filled(r@),
            decreases rest@.len(),
        {
            let ghost before = rest@;
            proof {
                let m = before.map_values(|p: (String, Directive)| (p.0@, p.1@));
                assert(m.len() == before.len());
                assert(done < all.len());
                assert(m[0] == all.subrange(done, all.len() as int)[0]);
                assert(m[0] == (before[0].0@, before[0].1@));
            }
            let (name, directive) = rest.remove(0);
            proof {
                assert(all[done] == (name@, directive@));
                assert(all.subrange(0, done + 1).drop_last() =~= all.subrange(0, done));
                assert(all.subrange(0, done + 1).last() == all[done]);
            }
            r.add_directive(name, directive);
            proof {
                let m = before.map_values(|p: (String, Directive)| (p.0@, p.1@));
                assert(rest@ =~= before.subrange(1, before.len() as int));
                assert forall|k: int| 0 <= k < rest@.len() implies #[trigger] rest@[k] == before[k + 1] && m[k + 1] == all[done + 1 + k] by {
                    assert(m[k + 1] == all.subrange(done, all.len() as int)[k + 1]);
                }
                done = done + 1;
                assert(rest@.map_values(|p: (String, Directive)| (p.0@, p.1@)) =~= all.subrange(done, all.len() as int));
            }
        }
        proof {
            assert(all.subrange(0, done) =~= all);
        }
        r
    }
}

/// A document built by filing each (name, directive) pair in turn.
pub open spec fn pairs_model(s: Seq<(Seq<char>, DirectiveModel)>) -> ScfgModel
    decreases s.len(),
{
    if s.len() == 0 {
        empty_doc()
    } else {
        add_model(pairs_model(s.drop_last()), s.last().0, s.last().1)
    }
}

impl std::str::FromStr for Scfg {
    type Err = Error;

    fn from_str(src: &str) -> (r: Result<Scfg, Error>)
        ensures
            match parse_model(src@) {
                Ok(m) => r matches Ok(d) && d@ == m,
                Err((k, l)) => r matches Err(e) && failure_of(e.kind) == k && e.lineno == l,
            },
            r matches Ok(d) ==> names_distinct(d@) && buckets_filled(d@),
    {
        document(src)
    }
}

impl Scfg {
    fn copy_doc(&self) -> (r: Scfg)
        ensures
            r@ == self@,
        decreases self,
    {
        let mut entries: Vec<Entry> = Vec::new();
        let mut i: usize = 0;
        while i < self.entries.len()
            invariant
                i <= self.entries@.len(),
                entries@.len() == i,
                forall|k: int| 0 <= k < i ==> (#[trigger] entries@[k])@ == self.entries@[k]@,
            decreases self.entries@.len() - i,
        {
            let entry = &self.entries[i];
            let mut directives: Vec<Directive> = Vec::new();
            let mut j: usize = 0;
            while j < entry.directives.len()
                invariant
                    i < self.entries@.len(),
                    *entry == self.entries@[i as int],
                    j <= entry.directives@.len(),
                    directives@.len() == j,
                    forall|k: int| 0 <= k < j ==> (#[trigger] directives@[k])@ == entry.directives@[k]@,
                decreases entry.directives@.len() - j,
            {
                directives.push(entry.directives[j].copy_directive());
                j = j + 1;
            }
            let copy = Entry { name: entry.name.clone(), directives };
            proof {
                assert(copy@.directives =~= entry@.directives);
            }
            entries.push(copy);
            i = i + 1;
        }
        let r = Scfg { entries };
        proof {
            assert(r@.entries =~= self@.entries);
        }
        r
    }
}

impl Directive {
    fn copy_directive(&self) -> (r: Directive)
        ensures
            r@ == self@,
        decreases self,
    {
        let mut params: Vec<String> = Vec::new();
        let mut k: usize = 0;
        while k < self.params.len()
            invariant
                k <= self.params@.len(),
                params@.len() == k,
                forall|x: int| 0 <= x < k ==> (#[trigger] params@[x])@ == self.params@[x]@,
            decreases self.params@.len() - k,
        {
            params.push(self.params[k].clone());
            k = k + 1;
        }
        let child = match &self.child {
            Some(c) => Some(c.copy_doc()),
            None => None,
        };
        let r = Directive { params, child };
        proof {
            assert(strings_model(r.params@) =~= strings_model(self.params@));
        }
        r
    }
}

/// Two documents hold the same names, with equal buckets under each, in
/// whatever order the names come.
pub open spec fn doc_equiv(a: ScfgModel, b: ScfgModel) -> bool
    decreases a,
{
    &&& a.entries.len() == b.entries.len()
    &&& forall|i: int|
        0 <= i < a.entries.len() ==> bucket_equiv(
            (#[trigger] a.entries[i]).directives,
            bucket_of(b, a.entries[i].name),
        )
}

/// `y` is present and holds, one for one, directives equal to those of `x`.
pub open spec fn bucket_equiv(x: Seq<DirectiveModel>, y: Option<Seq<DirectiveModel>>) -> bool
    decreases x,
{
    match y {
        Some(y) => x.len() == y.len() && forall|k: int|
            0 <= k < x.len() ==> directive_equiv(#[trigger] x[k], y[k]),
        None => false,
    }
}

/// Two directives have the same parameters, and equal child blocks or none.
pub open spec fn directive_equiv(d: DirectiveModel, e: DirectiveModel) -> bool
    decreases d,
{
    &&& d.params == e.params
    &&& match d.child {
        Some(c) => match e.child {
            Some(f) => doc_equiv(c, f),
            None => false,
        },
        None => e.child is None,
    }
}

impl Scfg {
    fn same_as(&self, other: &Scfg) -> (r: bool)
        ensures
            r == doc_equiv(self@, other@),
        decreases self,
    {
        if self.entries.len() != other.entries.len() {
            return false;
        }
        let mut i: usize = 0;
        while i < self.entries.len()
            invariant
                i <= self.entries@.len(),
                self@.entries.len() == other@.entries.len(),
                forall|k: int|
                    0 <= k < i ==> bucket_equiv(
                        (#[trigger] self@.entries[k]).directives,
                        bucket_of(other@, self@.entries[k].name),
                    ),
            decreases self.entries@.len() - i,
        {
            let entry = &self.entries[i];
            proof {
                assert(self@.entries[i as int] == entry@);
            }
            proof {
                assert(entry@.directives =~= directives_model(entry.directives@));
            }
            match other.position(entry.name.as_str()) {
                None => {
                    proof {
                        assert(!bucket_equiv(
                            self@.entries[i as int].directives,
                            bucket_of(other@, self@.entries[i as int].name),
                        ));
                    }
                    return false;
                },
                Some(p) => {
                    let ob = &other.entries[p].directives;
                    proof {
                        let oe = other.entries@[p as int];
                        assert(other@.entries[p as int] == oe@);
                        assert(oe@.directives =~= directives_model(ob@));
                        assert(bucket_of(other@, entry.name@) == Some(directives_model(ob@)));
                    }
                    if !same_bucket(&entry.directives, ob) {
                        proof {
                            assert(!bucket_equiv(
                                self@.entries[i as int].directives,
                                bucket_of(other@, self@.entries[i as int].name),
                            ));
                        }
                        return false;
                    }
                },
            }
            i = i + 1;
        }
        true
    }
}

fn same_bucket(x: &Vec<Directive>, y: &Vec<Directive>) -> (r: bool)
    ensures
        r == bucket_equiv(directives_model(x@), Some(directives_model(y@))),
    decreases x,
{
    if x.len() != y.len() {
        return false;
    }
    let mut k: usize = 0;
    while k < x.len()
        invariant
            k <= x@.len(),
            x@.len() == y@.len(),
            forall|m: int|
                0 <= m < k ==> directive_equiv(#[trigger] directives_model(x@)[m], directives_model(y@)[m]),
        decreases x@.len() - k,
    {
        if !x[k].same_as(&y[k]) {
            proof {
                assert(directives_model(x@)[k as int] == x@[k as int]@);
                assert(directives_model(y@)[k as int] == y@[k as int]@);
                assert(!directive_equiv(directives_model(x@)[k as int], directives_model(y@)[k as int]));
            }
            return false;
        }
        proof {
            assert(directives_model(x@)[k as int] == x@[k as int]@);
            assert(directives_model(y@)[k as int] == y@[k as int]@);
        }
        k = k + 1;
    }
    true
}

impl Directive {
    fn same_as(&self, other: &Directive) -> (r: bool)
        ensures
            r == directive_equiv(self@, other@),
        decreases self,
    {
        if self.params.len() != other.params.len() {
            proof {
                assert(self@.params.len() != other@.params.len());
            }
            return false;
        }
        let mut k: usize = 0;
        while k < self.params.len()
            invariant
                k <= self.params@.len(),
                self.params@.len() == other.params@.len(),
                forall|m: int| 0 <= m < k ==> (#[trigger] self.params@[m])@ == other.params@[m]@,
            decreases self.params@.len() - k,
        {
            if self.params[k] != other.params[k] {
                proof {
                    assert(self@.params[k as int] != other@.params[k as int]);
                }
                return false;
            }
            k = k + 1;
        }
        proof {
            assert(self@.params =~= other@.params);
        }
        match &self.child {
            Some(c) => match &other.child {
                Some(f) => c.same_as(f),
                None => false,
            },
            None => other.child.is_none(),
        }
    }
}

impl PartialEq for Scfg {
    fn eq(&self, other: &Scfg) -> (r: bool) {
        self.same_as(other)
    }
}

impl vstd::std_specs::cmp::PartialEqSpecImpl for Scfg {
    open spec fn obeys_eq_spec() -> bool {
        true
    }

    open spec fn eq_spec(&self, other: &Scfg) -> bool {
        doc_equiv(self@, other@)
    }
}

impl Eq for Scfg {
}

impl PartialEq for Directive {
    fn eq(&self, other: &Directive) -> (r: bool) {
        self.same_as(other)
    }
}

impl vstd::std_specs::cmp::PartialEqSpecImpl for Directive {
    open spec fn obeys_eq_spec() -> bool {
        true
    }

    open spec fn eq_spec(&self, other: &Directive) -> bool {
        directive_equiv(self@, other@)
    }
}

impl Eq for Directive {
}

impl Clone for Scfg {
    fn clone(&self) -> (r: Scfg)
        ensures
            r@ == self@,
    {
        self.copy_doc()
    }
}

impl Clone for Directive {
    fn clone(&self) -> (r: Directive)
        ensures
            r@ == self@,
    {
        self.copy_directive()
    }
}

impl Default for Scfg {
    fn default() -> (r: Scfg)
        ensures
            r@ == empty_doc(),
            names_distinct(r@),
            buckets_filled(r@),
    {
        Scfg::new()
    }
}

impl Directive {
    /// Creates a new directive without parameters or child.
    pub fn new() -> (r: Directive)
        ensures
            r@ == empty_directive(),
    {
        let r = Directive { params: Vec::new(), child: None };
        assert(r@.params =~= Seq::<Seq<char>>::empty());
        r
    }

    /// This directive's parameters.
    pub fn params(&self) -> (r: &[String])
        ensures
            strings_model(r@) == self@.params,
    {
        self.params.as_slice()
    }

    /// Appends `param` to the parameters; returns the directive for chaining.
    ///
    /// The parameter is not checked: one that holds a newline makes the
    /// written document unreadable.
    pub fn append_param(&mut self, param: &str) -> (r: &mut Directive)
        ensures
            r@ == (DirectiveModel { params: old(self)@.params.push(param@), child: old(self)@.child }),
            *final(self) == *final(r),
    {
        self.params.push(param.to_owned());
        proof {
            assert(self@.params =~= old(self)@.params.push(param@));
        }
        self
    }

    /// Removes every parameter.
    pub fn clear_params(&mut self)
        ensures
            final(self)@ == (DirectiveModel { params: Seq::empty(), child: old(self)@.child }),
    {
        self.params.clear();
        proof {
            assert(self@.params =~= Seq::<Seq<char>>::empty());
        }
    }

    /// This directive's child block, if it has one.
    pub fn child(&self) -> (r: Option<&Scfg>)
        ensures
            match r {
                Some(c) => self@.child == Some(c@),
                None => self@.child is None,
            },
    {
        self.child.as_ref()
    }

    /// Takes this directive's child block, leaving it without one.
    pub fn take_child(&mut self) -> (r: Option<Scfg>)
        ensures
            match r {
                Some(c) => old(self)@.child == Some(c@),
                None => old(self)@.child is None,
            },
            final(self)@ == (DirectiveModel { params: old(self)@.params, child: None }),
    {
        self.child.take()
    }

    /// The child block, which is created empty if there was none.
    pub fn get_or_create_child(&mut self) -> (r: &mut Scfg)
        ensures
            r@ == (match old(self)@.child {
                Some(c) => c,
                None => empty_doc(),
            }),
            final(self)@ == (DirectiveModel { params: old(self)@.params, child: Some(final(r)@) }),
    {
        if self.child.is_none() {
            self.child = Some(Scfg::new());
        }
        self.child.as_mut().unwrap()
    }
}

impl Default for Directive {
    fn default() -> (r: Directive)
        ensures
            r@ == empty_directive(),
    {
        Directive::new()
    }
}

impl Scfg {
    /// Appends the text of this document to `out`: each directive on a line
    /// of its own, its name and parameters quoted as shell words, a child
    /// block indented by one tab more than its parent, and a blank line after
    /// each closing `}` that something follows. Comments are not kept.
    pub fn write(&self, out: &mut String)
        ensures
            final(out)@ == old(out)@ + doc_text(self@),
    {
        let pad = String::new();
        self.write_with_indent(pad.as_str(), out);
    }

    fn write_with_indent(&self, pad: &str, out: &mut String)
        ensures
            final(out)@ == old(out)@ + items_text(self@, pad@, 0, 0, false),
        decreases self,
    {
        proof {
            reveal_strlit("\n");
            reveal_strlit(" ");
            reveal_strlit(" {\n");
            reveal_strlit("\t");
            reveal_strlit("}\n");
        }
        let ghost total = old(out)@ + items_text(self@, pad@, 0, 0, false);
        let mut gap = false;
        let mut i: usize = 0;
        while i < self.entries.len()
            invariant
                i <= self.entries@.len(),
                out@ + items_text(self@, pad@, i as int, 0, gap) == total,
            decreases self.entries@.len() - i,
        {
            let entry = &self.entries[i];
            proof {
                assert(self@.entries[i as int] == entry@);
            }
            let name = quote_word(entry.name.as_str());
            let mut j: usize = 0;
            while j < entry.directives.len()
                invariant
                    i < self.entries@.len(),
                    *entry == self.entries@[i as int],
                    self@.entries[i as int] == entry@,
                    name@ == quote_of(entry.name@),
                    j <= entry.directives@.len(),
                    out@ + items_text(self@, pad@, i as int, j as int, gap) == total,
                decreases entry.directives@.len() - j,
            {
                let d = &entry.directives[j];
                let ghost start = out@;
                let ghost m = self@;
                proof {
                    assert(entry@.directives[j as int] == d@);
                }
                if gap {
                    out.append("\n");
                }
                out.append(pad);
                out.append(name.as_str());
                let ghost line_start = out@;
                let ghost lead = if gap {
                    seq!['\n']
                } else {
                    Seq::empty()
                };
                proof {
                    reveal_strlit("\n");
                    assert(line_start =~= start + lead + pad@ + quote_of(m.entries[i as int].name));
                }
                let mut k: usize = 0;
                while k < d.params.len()
                    invariant
                        k <= d.params@.len(),
                        out@ == line_start + params_text(d@.params.subrange(0, k as int)),
                        d@.params.len() == d.params@.len(),
                        forall|x: int| 0 <= x < d.params@.len() ==> #[trigger] d@.params[x] == d.params@[x]@,
                    decreases d.params@.len() - k,
                {
                    let q = quote_word(d.params[k].as_str());
                    let ghost before = out@;
                    out.append(" ");
                    out.append(q.as_str());
                    proof {
                        reveal_strlit(" ");
                        let ps = d@.params.subrange(0, k as int + 1);
                        assert(ps.drop_last() =~= d@.params.subrange(0, k as int));
                        assert(ps.last() == d@.params[k as int]);
                        assert(q@ == quote_of(ps.last()));
                        assert(out@ =~= before + seq![' '] + quote_of(ps.last()));
                    }
                    k = k + 1;
                }
                proof {
                    assert(d@.params.subrange(0, k as int) =~= d@.params);
                }
                let ghost head = out@;
                let ghost dm = m.entries[i as int].directives[j as int];
                proof {
                    assert(dm == d@);
                    assert(head =~= start + (lead + pad@ + quote_of(m.entries[i as int].name) + params_text(dm.params)));
                }
                match &d.child {
                    Some(c) => {
                        out.append(" {\n");
                        let ghost opened = out@;
                        let mut inner = pad.to_owned();
                        inner.append("\t");
                        c.write_with_indent(inner.as_str(), out);
                        let ghost nested = out@;
                        out.append(pad);
                        out.append("}\n");
                        proof {
                            reveal_strlit(" {\n");
                            reveal_strlit("\t");
                            reveal_strlit("}\n");
                            assert(dm.child == Some(c@));
                            assert(inner@ =~= pad@ + seq!['\t']);
                            assert(opened =~= head + seq![' ', '{', '\n']);
                            assert(out@ =~= nested + pad@ + seq!['}', '\n']);
                            assert(out@ + items_text(m, pad@, i as int, j as int + 1, true) =~= start
                                + items_text(m, pad@, i as int, j as int, gap));
                        }
                        gap = true;
                    },
                    None => {
                        out.append("\n");
                        proof {
                            reveal_strlit("\n");
                            assert(dm.child is None);
                            assert(out@ =~= head + seq!['\n']);
                            assert(out@ + items_text(m, pad@, i as int, j as int + 1, false) =~= start
                                + items_text(m, pad@, i as int, j as int, gap));
                        }
                        gap = false;
                    },
                }
                j = j + 1;
            }
            i = i + 1;
        }
    }
}

/// The parameters, each quoted and preceded by a space.
pub open spec fn params_text(ps: Seq<Seq<char>>) -> Seq<char>
    decreases ps.len(),
{
    if ps.len() == 0 {
        Seq::empty()
    } else {
        params_text(ps.drop_last()) + seq![' '] + quote_of(ps.last())
    }
}

/// The text of the directives of `m` from the `j`-th one of bucket `i` on,
/// each line indented by `pad`. Where `gap` holds, a blank line comes first:
/// one separates a directive with a child block from whatever follows it.
pub open spec fn items_text(m: ScfgModel, pad: Seq<char>, i: int, j: int, gap: bool) -> Seq<char>
    decreases m, m.entries.len() - i, m.entries[i].directives.len() - j,
{
    if i < 0 || i >= m.entries.len() {
        Seq::empty()
    } else if j < 0 || j >= m.entries[i].directives.len() {
        items_text(m, pad, i + 1, 0, gap)
    } else {
        let d = m.entries[i].directives[j];
        let head = (if gap {
            seq!['\n']
        } else {
            Seq::empty()
        }) + pad + quote_of(m.entries[i].name) + params_text(d.params);
        match d.child {
            Some(c) => head + seq![' ', '{', '\n'] + items_text(c, pad + seq!['\t'], 0, 0, false) + pad
                + seq!['}', '\n'] + items_text(m, pad, i, j + 1, true),
            None => head + seq!['\n'] + items_text(m, pad, i, j + 1, false),
        }
    }
}

/// The text of a document: one line per directive, in iteration order.
pub open spec fn doc_text(m: ScfgModel) -> Seq<char> {
    items_text(m, Seq::empty(), 0, 0, false)
}

} // verus!
