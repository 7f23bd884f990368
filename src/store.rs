//! The reconciliation store: one record per snippet name, kept in name order.
//!
//! Sightings of a name merge into its record. Flags only ever accumulate, but for
//! `active`, which an inactive region clears for good. Content, source file and
//! description come from the first region that names the snippet, whatever was seen
//! of the name before it (an inclusion, a file); a later region of the same name leaves
//! them as they are, and when inactive clears `active`. Two definitions of one name
//! are not reported: the first region keeps the content.
use vstd::prelude::*;
use crate::snippet::{Snippet, SnippetView};
use crate::tags::opt_view;
use crate::text::{
    chars_of, lemma_text_lt_irreflexive, lemma_text_lt_total, lemma_text_lt_transitive,
    text_less, text_lt,
};

verus! {

/// One sighting of a snippet name by one of the scanners.
pub enum Sighting {
    /// A tagged region of a source file; the view's `active` tells its kind.
    Region(SnippetView),
    /// An inclusion in a document.
    Inclusion(Seq<char>),
    /// An extracted snippet file.
    File(Seq<char>),
}

/// The name that a sighting is about.
pub open spec fn sighting_name(s: Sighting) -> Seq<char> {
    match s {
        Sighting::Region(v) => v.name,
        Sighting::Inclusion(n) => n,
        Sighting::File(n) => n,
    }
}

/// The record of a name seen for the first time, before the sighting is applied.
pub open spec fn fresh(name: Seq<char>) -> SnippetView {
    SnippetView {
        name,
        content: None,
        source_file: None,
        comment: None,
        active: false,
        source: false,
        latex: false,
        extracted: false,
    }
}

/// The current record of `name`, or a fresh one.
pub open spec fn current(m: Map<Seq<char>, SnippetView>, name: Seq<char>) -> SnippetView {
    if m.contains_key(name) {
        m[name]
    } else {
        fresh(name)
    }
}

/// A record after a region sighting `s`.
pub open spec fn merge_region(cur: SnippetView, s: SnippetView) -> SnippetView {
    if !cur.source {
        SnippetView {
            content: s.content,
            source_file: s.source_file,
            comment: s.comment,
            active: s.active,
            source: true,
            ..cur
        }
    } else {
        SnippetView { active: cur.active && s.active, ..cur }
    }
}

/// The records after one sighting.
pub open spec fn apply(m: Map<Seq<char>, SnippetView>, s: Sighting) -> Map<Seq<char>, SnippetView> {
    let n = sighting_name(s);
    let cur = current(m, n);
    m.insert(
        n,
        match s {
            Sighting::Region(v) => merge_region(cur, v),
            Sighting::Inclusion(_) => SnippetView { latex: true, ..cur },
            Sighting::File(_) => SnippetView { extracted: true, ..cur },
        },
    )
}

/// The records after a sequence of sightings, applied in order.
pub open spec fn apply_all(m: Map<Seq<char>, SnippetView>, ss: Seq<Sighting>) -> Map<Seq<char>, SnippetView>
    decreases ss.len(),
{
    if ss.len() == 0 {
        m
    } else {
        apply(apply_all(m, ss.drop_last()), ss.last())
    }
}

/// Some sighting among `ss` satisfies `p`.
pub open spec fn any_sighting(ss: Seq<Sighting>, p: spec_fn(Sighting) -> bool) -> bool {
    exists|i: int| 0 <= i < ss.len() && #[trigger] p(ss[i])
}

/// A sighting of `n` of any kind.
pub open spec fn names(n: Seq<char>) -> spec_fn(Sighting) -> bool {
    |s: Sighting| sighting_name(s) == n
}

/// A region sighting of `n`, active or inactive as `active` says.
pub open spec fn region_of(n: Seq<char>, active: bool) -> spec_fn(Sighting) -> bool {
    |s: Sighting|
        match s {
            Sighting::Region(v) => v.name == n && v.active == active,
            _ => false,
        }
}

/// An inclusion of `n`.
pub open spec fn inclusion_of(n: Seq<char>) -> spec_fn(Sighting) -> bool {
    |s: Sighting| s == Sighting::Inclusion(n)
}

/// An extracted file of `n`.
pub open spec fn file_of(n: Seq<char>) -> spec_fn(Sighting) -> bool {
    |s: Sighting| s == Sighting::File(n)
}

/// The flags of a record: active, seen in a source, in a document, as a file.
pub open spec fn flags(v: SnippetView) -> (bool, bool, bool, bool) {
    (v.active, v.source, v.latex, v.extracted)
}

/// The flags that the sightings `ss` give the name `n`, whatever their order.
pub open spec fn expected_flags(ss: Seq<Sighting>, n: Seq<char>) -> (bool, bool, bool, bool) {
    (
        any_sighting(ss, region_of(n, true)) && !any_sighting(ss, region_of(n, false)),
        any_sighting(ss, region_of(n, true)) || any_sighting(ss, region_of(n, false)),
        any_sighting(ss, inclusion_of(n)),
        any_sighting(ss, file_of(n)),
    )
}

proof fn lemma_any_sighting_last(ss: Seq<Sighting>, p: spec_fn(Sighting) -> bool)
    requires
        ss.len() > 0,
    ensures
        any_sighting(ss, p) == (any_sighting(ss.drop_last(), p) || p(ss.last())),
{
    if any_sighting(ss, p) {
        let i = choose|i: int| 0 <= i < ss.len() && #[trigger] p(ss[i]);
        if i < ss.len() - 1 {
            assert(ss.drop_last()[i] == ss[i]);
        }
    }
    if any_sighting(ss.drop_last(), p) {
        let i = choose|i: int| 0 <= i < ss.drop_last().len() && #[trigger] p(ss.drop_last()[i]);
        assert(ss[i] == ss.drop_last()[i]);
    }
}

/// Starting from no records, the record of `n` exists exactly when some sighting names
/// `n`, and its flags are those that the set of sightings gives.
pub proof fn lemma_record_flags(ss: Seq<Sighting>, n: Seq<char>)
    ensures
        apply_all(Map::empty(), ss).contains_key(n) == any_sighting(ss, names(n)),
        apply_all(Map::empty(), ss).contains_key(n) ==> apply_all(Map::empty(), ss)[n].name == n
            && flags(apply_all(Map::empty(), ss)[n]) == expected_flags(ss, n),
    decreases ss.len(),
{
    if ss.len() > 0 {
        let prev = ss.drop_last();
        lemma_record_flags(prev, n);
        lemma_any_sighting_last(ss, names(n));
        lemma_any_sighting_last(ss, region_of(n, true));
        lemma_any_sighting_last(ss, region_of(n, false));
        lemma_any_sighting_last(ss, inclusion_of(n));
        lemma_any_sighting_last(ss, file_of(n));
        let m = apply_all(Map::empty(), prev);
        let cur = current(m, n);
        if !m.contains_key(n) {
            assert(!any_sighting(prev, region_of(n, true))) by {
                if any_sighting(prev, region_of(n, true)) {
                    let i = choose|i: int| 0 <= i < prev.len() && #[trigger] region_of(n, true)(prev[i]);
                    assert(names(n)(prev[i]));
                }
            }
            assert(!any_sighting(prev, region_of(n, false))) by {
                if any_sighting(prev, region_of(n, false)) {
                    let i = choose|i: int| 0 <= i < prev.len() && #[trigger] region_of(n, false)(prev[i]);
                    assert(names(n)(prev[i]));
                }
            }
            assert(!any_sighting(prev, inclusion_of(n))) by {
                if any_sighting(prev, inclusion_of(n)) {
                    let i = choose|i: int| 0 <= i < prev.len() && #[trigger] inclusion_of(n)(prev[i]);
                    assert(names(n)(prev[i]));
                }
            }
            assert(!any_sighting(prev, file_of(n))) by {
                if any_sighting(prev, file_of(n)) {
                    let i = choose|i: int| 0 <= i < prev.len() && #[trigger] file_of(n)(prev[i]);
                    assert(names(n)(prev[i]));
                }
            }
        }
    }
}

/// The flags of each record are independent of the order in which the sightings come:
/// two runs over the same sightings, in any order, give every name a record in both or
/// in neither, with the same flags; and an inactive region always leaves the record
/// inactive, whether an active region of the name came before it or after it.
pub proof fn lemma_flags_independent_of_order(a: Seq<Sighting>, b: Seq<Sighting>, n: Seq<char>)
    requires
        forall|x: Sighting| a.contains(x) <==> b.contains(x),
    ensures
        apply_all(Map::empty(), a).contains_key(n) == apply_all(Map::empty(), b).contains_key(n),
        apply_all(Map::empty(), a).contains_key(n) ==> flags(apply_all(Map::empty(), a)[n]) == flags(
            apply_all(Map::empty(), b)[n],
        ),
        any_sighting(a, region_of(n, false)) ==> apply_all(Map::empty(), a).contains_key(n)
            && !apply_all(Map::empty(), a)[n].active,
{
    lemma_record_flags(a, n);
    lemma_record_flags(b, n);
    assert forall|p: spec_fn(Sighting) -> bool| any_sighting(a, p) == any_sighting(b, p) by {
        if any_sighting(a, p) {
            let i = choose|i: int| 0 <= i < a.len() && #[trigger] p(a[i]);
            assert(a.contains(a[i]));
            let j = choose|j: int| 0 <= j < b.len() && b[j] == a[i];
            assert(p(b[j]));
        }
        if any_sighting(b, p) {
            let i = choose|i: int| 0 <= i < b.len() && #[trigger] p(b[i]);
            assert(b.contains(b[i]));
            let j = choose|j: int| 0 <= j < a.len() && a[j] == b[i];
            assert(p(a[j]));
        }
    }
    if any_sighting(a, region_of(n, false)) {
        let i = choose|i: int| 0 <= i < a.len() && #[trigger] region_of(n, false)(a[i]);
        assert(names(n)(a[i]));
    }
}

/// The records, one per name, kept in strictly increasing name order.
pub struct SnippetStore {
    entries: Vec<Snippet>,
    model: Ghost<Map<Seq<char>, SnippetView>>,
}

impl View for SnippetStore {
    type V = Map<Seq<char>, SnippetView>;

    closed spec fn view(&self) -> Map<Seq<char>, SnippetView> {
        self.model@
    }
}

/// Snippets in strictly increasing name order (so no name appears twice).
pub open spec fn sorted_by_name(v: Seq<Snippet>) -> bool {
    forall|i: int, j: int| 0 <= i < j < v.len() ==> text_lt(v[i].name@, v[j].name@)
}

/// `v` lists exactly the records of `m`, each under its own name.
pub open spec fn lists_exactly(v: Seq<Snippet>, m: Map<Seq<char>, SnippetView>) -> bool {
    &&& forall|i: int|
        0 <= i < v.len() ==> m.contains_key(#[trigger] v[i].name@) && m[v[i].name@] == v[i]@
    &&& forall|k: Seq<char>| #[trigger]
        m.contains_key(k) ==> exists|i: int| 0 <= i < v.len() && v[i].name@ == k
}

proof fn lemma_same_name_at(v1: Seq<Snippet>, v2: Seq<Snippet>, m: Map<Seq<char>, SnippetView>, k: int)
    requires
        sorted_by_name(v1),
        sorted_by_name(v2),
        lists_exactly(v1, m),
        lists_exactly(v2, m),
        0 <= k < v1.len(),
        0 <= k < v2.len(),
        forall|i: int| 0 <= i < k ==> v1[i].name@ == v2[i].name@,
    ensures
        v1[k].name@ == v2[k].name@,
{
    let x = v1[k].name@;
    let y = v2[k].name@;
    assert(m.contains_key(x));
    assert(m.contains_key(y));
    let j = choose|j: int| 0 <= j < v2.len() && v2[j].name@ == x;
    let j2 = choose|j: int| 0 <= j < v1.len() && v1[j].name@ == y;
    lemma_text_lt_irreflexive(x);
    lemma_text_lt_irreflexive(y);
    lemma_text_lt_total(x, y);
    if j < k {
        assert(text_lt(v1[j].name@, x));
    }
    if j2 < k {
        assert(text_lt(v2[j2].name@, y));
    }
    if j > k && j2 > k {
        assert(text_lt(y, x));
        assert(text_lt(x, y));
    }
}

proof fn lemma_prefix_names(v1: Seq<Snippet>, v2: Seq<Snippet>, m: Map<Seq<char>, SnippetView>, k: int)
    requires
        sorted_by_name(v1),
        sorted_by_name(v2),
        lists_exactly(v1, m),
        lists_exactly(v2, m),
        0 <= k <= v1.len(),
        k <= v2.len(),
    ensures
        forall|i: int| 0 <= i < k ==> v1[i].name@ == v2[i].name@,
    decreases k,
{
    if k > 0 {
        lemma_prefix_names(v1, v2, m, k - 1);
        lemma_same_name_at(v1, v2, m, k - 1);
    }
}

/// A listing of records in strictly increasing name order is unique: two such listings
/// of the same records agree record for record. As `reconcile` states its result this
/// way, two runs on the same inputs give the same records in the same order, and so
/// the same report.
pub proof fn lemma_sorted_listing_unique(v1: Seq<Snippet>, v2: Seq<Snippet>, m: Map<Seq<char>, SnippetView>)
    requires
        sorted_by_name(v1),
        sorted_by_name(v2),
        lists_exactly(v1, m),
        lists_exactly(v2, m),
    ensures
        v1.map_values(|s: Snippet| s@) == v2.map_values(|s: Snippet| s@),
{
    let n = if v1.len() < v2.len() {
        v1.len() as int
    } else {
        v2.len() as int
    };
    lemma_prefix_names(v1, v2, m, n);
    if v1.len() > n {
        let x = v1[n].name@;
        assert(m.contains_key(x));
        let j = choose|j: int| 0 <= j < v2.len() && v2[j].name@ == x;
        assert(text_lt(v1[j].name@, x));
        lemma_text_lt_irreflexive(x);
    }
    if v2.len() > n {
        let y = v2[n].name@;
        assert(m.contains_key(y));
        let j = choose|j: int| 0 <= j < v1.len() && v1[j].name@ == y;
        assert(text_lt(v2[j].name@, y));
        lemma_text_lt_irreflexive(y);
    }
    assert forall|i: int| 0 <= i < v1.len() implies v1[i]@ == v2[i]@ by {
        assert(m.contains_key(v1[i].name@));
        assert(m.contains_key(v2[i].name@));
    }
    assert(v1.map_values(|s: Snippet| s@) =~= v2.map_values(|s: Snippet| s@));
}

impl SnippetStore {
    /// The entries are in strictly increasing name order and list exactly the records
    /// of the view.
    pub closed spec fn wf(&self) -> bool {
        sorted_by_name(self.entries@) && lists_exactly(self.entries@, self.model@)
    }

    /// Where `key` stands or would stand: `found` tells whether an entry holds it.
    closed spec fn slot_for(&self, key: Seq<char>, i: int, found: bool) -> bool {
        &&& 0 <= i <= self.entries@.len()
        &&& found ==> i < self.entries@.len() && self.entries@[i].name@ == key
        &&& !found ==> (forall|j: int| 0 <= j < i ==> text_lt(self.entries@[j].name@, key)) && (
        forall|j: int| i <= j < self.entries@.len() ==> text_lt(key, self.entries@[j].name@))
    }

    /// An empty store.
    pub fn new() -> (r: SnippetStore)
        ensures
            r.wf(),
            r@ == Map::<Seq<char>, SnippetView>::empty(),
    {
        SnippetStore { entries: Vec::new(), model: Ghost(Map::empty()) }
    }

    fn locate(&self, key: &str) -> (r: (usize, bool))
        requires
            self.wf(),
        ensures
            self.slot_for(key@, r.0 as int, r.1),
    {
        let k = chars_of(key);
        let mut i: usize = 0;
        while i < self.entries.len()
            invariant
                self.wf(),
                k@ == key@,
                i <= self.entries@.len(),
                forall|j: int| 0 <= j < i ==> text_lt(self.entries@[j].name@, key@),
            decreases self.entries@.len() - i,
        {
            let n = chars_of(self.entries[i].name.as_str());
            if text_less(&k, &n) {
                assert forall|j: int| i <= j < self.entries@.len() implies text_lt(
                    key@,
                    self.entries@[j].name@,
                ) by {
                    if j > i {
                        lemma_text_lt_transitive(key@, self.entries@[i as int].name@, self.entries@[j].name@);
                    }
                }
                return (i, false);
            }
            if !text_less(&n, &k) {
                proof {
                    lemma_text_lt_total(key@, n@);
                }
                return (i, true);
            }
            i += 1;
        }
        (i, false)
    }

    proof fn lemma_slot_model(&self, key: Seq<char>, i: int, found: bool)
        requires
            self.wf(),
            self.slot_for(key, i, found),
        ensures
            found ==> self@.contains_key(key) && self@[key] == self.entries@[i]@,
            !found ==> !self@.contains_key(key),
    {
        if !found && self@.contains_key(key) {
            let a = choose|a: int| 0 <= a < self.entries@.len() && self.entries@[a].name@ == key;
            lemma_text_lt_irreflexive(key);
            if a < i {
                assert(text_lt(self.entries@[a].name@, key));
            } else {
                assert(text_lt(key, self.entries@[a].name@));
            }
        }
    }

    /// Puts `s` at slot `i`, replacing the entry there when `found`.
    fn place(&mut self, i: usize, found: bool, s: Snippet)
        requires
            old(self).wf(),
            old(self).slot_for(s.name@, i as int, found),
        ensures
            final(self).wf(),
            final(self)@ == old(self)@.insert(s.name@, s@),
    {
        let ghost key = s.name@;
        let ghost old_entries = self.entries@;
        if found {
            self.entries.remove(i);
        }
        self.entries.insert(i, s);
        proof {
            let m = self.model@.insert(key, self.entries@[i as int]@);
            let e = self.entries@;
            assert forall|a: int, b: int| 0 <= a < b < e.len() implies text_lt(e[a].name@, e[b].name@) by {
                if found {
                    assert(e =~= old_entries.update(i as int, e[i as int]));
                } else {
                    assert(e =~= old_entries.insert(i as int, e[i as int]));
                }
            }
            assert forall|a: int| 0 <= a < e.len() implies m.contains_key(#[trigger] e[a].name@)
                && m[e[a].name@] == e[a]@ by {
                if a != i {
                    let oa = if !found && a > i { a - 1 } else { a };
                    assert(e[a] == old_entries[oa]);
                    assert(e[a].name@ != key) by {
                        lemma_text_lt_irreflexive(key);
                        if found {
                            if oa < i {
                                assert(text_lt(old_entries[oa].name@, old_entries[i as int].name@));
                            } else {
                                assert(text_lt(old_entries[i as int].name@, old_entries[oa].name@));
                            }
                        }
                    }
                }
            }
            assert forall|k: Seq<char>| #[trigger] m.contains_key(k) implies exists|a: int|
                0 <= a < e.len() && e[a].name@ == k by {
                if k == key {
                    assert(e[i as int].name@ == k);
                } else {
                    let oa = choose|oa: int| 0 <= oa < old_entries.len() && old_entries[oa].name@ == k;
                    if found || oa < i {
                        assert(e[oa].name@ == k);
                    } else {
                        assert(e[oa + 1].name@ == k);
                    }
                }
            }
            self.model = Ghost(m);
        }
    }
}

fn clone_opt(o: &Option<String>) -> (r: Option<String>)
    ensures
        opt_view(r) == opt_view(*o),
{
    match o {
        Some(s) => Some(s.clone()),
        None => None,
    }
}

impl SnippetStore {
    /// Merges the snippet of a tagged region into the record of its name.
    pub fn record_region(&mut self, s: Snippet)
        requires
            old(self).wf(),
        ensures
            final(self).wf(),
            final(self)@ == apply(old(self)@, Sighting::Region(s@)),
    {
        let (i, found) = self.locate(s.name.as_str());
        proof {
            self.lemma_slot_model(s.name@, i as int, found);
        }
        if !found {
            let n = Snippet {
                name: s.name,
                content: s.content,
                source_file: s.source_file,
                comment: s.comment,
                active: s.active,
                source: true,
                latex: false,
                extracted: false,
            };
            self.place(i, false, n);
        } else {
            let e = &self.entries[i];
            let n = if !e.source {
                Snippet {
                    name: e.name.clone(),
                    content: s.content,
                    source_file: s.source_file,
                    comment: s.comment,
                    active: s.active,
                    source: true,
                    latex: e.latex,
                    extracted: e.extracted,
                }
            } else {
                Snippet {
                    name: e.name.clone(),
                    content: clone_opt(&e.content),
                    source_file: clone_opt(&e.source_file),
                    comment: clone_opt(&e.comment),
                    active: e.active && s.active,
                    source: true,
                    latex: e.latex,
                    extracted: e.extracted,
                }
            };
            self.place(i, true, n);
        }
    }

    /// Notes that a document includes the snippet `name`.
    pub fn record_inclusion(&mut self, name: String)
        requires
            old(self).wf(),
        ensures
            final(self).wf(),
            final(self)@ == apply(old(self)@, Sighting::Inclusion(name@)),
    {
        self.record_flag(name, true);
    }

    /// Notes that an extracted snippet file exists for `name`.
    pub fn record_file(&mut self, name: String)
        requires
            old(self).wf(),
        ensures
            final(self).wf(),
            final(self)@ == apply(old(self)@, Sighting::File(name@)),
    {
        self.record_flag(name, false);
    }

    fn record_flag(&mut self, name: String, latex: bool)
        requires
            old(self).wf(),
        ensures
            final(self).wf(),
            final(self)@ == apply(
                old(self)@,
                if latex {
                    Sighting::Inclusion(name@)
                } else {
                    Sighting::File(name@)
                },
            ),
    {
        let (i, found) = self.locate(name.as_str());
        proof {
            self.lemma_slot_model(name@, i as int, found);
        }
        let n = if !found {
            Snippet {
                name,
                content: None,
                source_file: None,
                comment: None,
                active: false,
                source: false,
                latex,
                extracted: !latex,
            }
        } else {
            let e = &self.entries[i];
            Snippet {
                name: e.name.clone(),
                content: clone_opt(&e.content),
                source_file: clone_opt(&e.source_file),
                comment: clone_opt(&e.comment),
                active: e.active,
                source: e.source,
                latex: e.latex || latex,
                extracted: e.extracted || !latex,
            }
        };
        self.place(i, found, n);
    }

    /// The records in strictly increasing name order.
    pub fn into_sorted(self) -> (r: Vec<Snippet>)
        requires
            self.wf(),
        ensures
            sorted_by_name(r@),
            lists_exactly(r@, self@),
    {
        self.entries
    }
}

} // verus!
